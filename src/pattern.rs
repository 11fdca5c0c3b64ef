//! One range token: `5`, `5..`, `5..=10`, `..`, `..10`.
use vstd::prelude::*;
use vstd::string::*;

verus! {

/// Why a pattern was rejected.
#[derive(Debug, Clone, Copy, PartialEq, Eq, Structural)]
pub enum ErrorKind {
    /// The token does not follow the grammar, or a number is zero or unreadable.
    Syntax,
    /// An exclusive upper bound of 0 or 1 selects no line.
    ExclusiveEndTooSmall,
    /// The start of the range lies after its end.
    Reversed,
    /// A range starts before the previous range of the list ends.
    OutOfOrder,
}

/// A rejected pattern with the token that caused it.
#[derive(Debug)]
pub struct PatternError {
    pub kind: ErrorKind,
    pub token: String,
}

/// A span of 1-indexed line numbers; an absent bound is open. `end` is inclusive.
#[derive(Debug, Clone, Copy, PartialEq, Eq, Structural)]
pub struct Pattern {
    pub start: Option<usize>,
    pub end: Option<usize>,
}

pub open spec fn is_digit(c: char) -> bool {
    '0' <= c && c <= '9'
}

pub open spec fn digit_value(c: char) -> nat {
    (c as u32 - '0' as u32) as nat
}

/// The value of a string of decimal digits, most significant first.
pub open spec fn digits_value(s: Seq<char>) -> nat
    decreases s.len(),
{
    if s.len() == 0 {
        0
    } else {
        digits_value(s.drop_last()) * 10 + digit_value(s.last())
    }
}

/// A non-empty run of decimal digits whose value fits in `usize`.
pub open spec fn digit_run(s: Seq<char>) -> Option<usize> {
    if s.len() > 0 && (forall|i: int| 0 <= i < s.len() ==> is_digit(#[trigger] s[i]))
        && digits_value(s) <= usize::MAX {
        Some(digits_value(s) as usize)
    } else {
        None
    }
}

/// An unsigned decimal number that fits in `usize`: one optional `+`, then a
/// non-empty run of digits.
pub open spec fn decimal(s: Seq<char>) -> Option<usize> {
    if s.len() > 0 && s[0] == '+' {
        digit_run(s.drop_first())
    } else {
        digit_run(s)
    }
}

/// The first position at or after `i` where `..` begins.
pub open spec fn find_dots(s: Seq<char>, i: int) -> Option<int>
    decreases s.len() - i,
{
    if i < 0 || i + 1 >= s.len() {
        None
    } else if s[i] == '.' && s[i + 1] == '.' {
        Some(i)
    } else {
        find_dots(s, i + 1)
    }
}

/// The start bound left of `..`.
pub open spec fn start_bound(s: Seq<char>) -> Result<Option<usize>, ErrorKind> {
    if s.len() == 0 {
        Ok(None)
    } else {
        match decimal(s) {
            Some(v) => if v >= 1 { Ok(Some(v)) } else { Err(ErrorKind::Syntax) },
            None => Err(ErrorKind::Syntax),
        }
    }
}

/// The inclusive end bound right of `..`: `=N` is inclusive, `N` exclusive.
pub open spec fn end_bound(s: Seq<char>) -> Result<Option<usize>, ErrorKind> {
    if s.len() == 0 {
        Ok(None)
    } else if s[0] == '=' {
        match decimal(s.drop_first()) {
            Some(v) => if v >= 1 { Ok(Some(v)) } else { Err(ErrorKind::Syntax) },
            None => Err(ErrorKind::Syntax),
        }
    } else {
        match decimal(s) {
            Some(v) => if v <= 1 { Err(ErrorKind::ExclusiveEndTooSmall) } else { Ok(Some((v - 1) as usize)) },
            None => Err(ErrorKind::Syntax),
        }
    }
}

/// What a token means: the range it denotes, or why it is rejected.
pub open spec fn token_meaning(t: Seq<char>) -> Result<Pattern, ErrorKind> {
    match find_dots(t, 0) {
        Some(i) => match start_bound(t.take(i)) {
            Err(k) => Err(k),
            Ok(s) => match end_bound(t.skip(i + 2)) {
                Err(k) => Err(k),
                Ok(e) => if s is Some && e is Some && s->0 > e->0 {
                    Err(ErrorKind::Reversed)
                } else {
                    Ok(Pattern { start: s, end: e })
                },
            },
        },
        None => match decimal(t) {
            Some(v) => if v == 0 {
                Err(ErrorKind::Syntax)
            } else {
                Ok(Pattern { start: Some(v), end: Some(v) })
            },
            None => Err(ErrorKind::Syntax),
        },
    }
}

impl Pattern {
    /// Bounds are positive and in order.
    pub open spec fn wf(&self) -> bool {
        &&& (self.start matches Some(s) ==> s >= 1)
        &&& (self.end matches Some(e) ==> e >= 1)
        &&& (self.start matches Some(s) ==> (self.end matches Some(e) ==> s <= e))
    }

    pub open spec fn includes(&self, line: int) -> bool {
        &&& (self.start matches Some(s) ==> s <= line)
        &&& (self.end matches Some(e) ==> line <= e)
    }

    /// Whether line number `line` lies in the range.
    pub fn is_included(&self, line: usize) -> (r: bool)
        ensures
            r == self.includes(line as int),
    {
        if let Some(start) = self.start {
            if line < start {
                return false;
            }
        }
        if let Some(end) = self.end {
            if line > end {
                return false;
            }
        }
        true
    }

    /// Reads one token of the range grammar.
    pub fn parse(pattern: &str) -> (r: Result<Pattern, PatternError>)
        ensures
            match token_meaning(pattern@) {
                Ok(p) => r == Ok::<Pattern, PatternError>(p),
                Err(k) => r is Err && r->Err_0.kind == k && r->Err_0.token@ == pattern@,
            },
    {
        let chars = to_chars(pattern);
        let n = chars.len();
        assert(chars@.subrange(0, n as int) == pattern@);
        match parse_token(&chars, 0, n) {
            Ok(p) => Ok(p),
            Err(kind) => Err(PatternError { kind, token: String::from_str(pattern) }),
        }
    }
}

/// The characters of `s`, one by one.
pub fn to_chars(s: &str) -> (r: Vec<char>)
    ensures
        r@ == s@,
{
    let n = s.unicode_len();
    let mut r: Vec<char> = Vec::new();
    let mut i: usize = 0;
    while i < n
        invariant
            n == s@.len(),
            i <= n,
            r@ == s@.take(i as int),
        decreases n - i,
    {
        r.push(s.get_char(i));
        i = i + 1;
        assert(r@ == s@.take(i as int));
    }
    assert(s@.take(n as int) == s@);
    r
}

proof fn lemma_digits_value_grows(s: Seq<char>, i: int)
    requires
        0 <= i <= s.len(),
    ensures
        digits_value(s.take(i)) <= digits_value(s),
    decreases s.len() - i,
{
    if i < s.len() {
        lemma_digits_value_grows(s, i + 1);
        assert(s.take(i + 1).drop_last() == s.take(i));
    } else {
        assert(s.take(i) == s);
    }
}

/// The decimal number spelled by `s[lo..hi]`, if it is one and fits.
pub fn parse_decimal(s: &Vec<char>, lo: usize, hi: usize) -> (r: Option<usize>)
    requires
        lo <= hi <= s@.len(),
    ensures
        r == decimal(s@.subrange(lo as int, hi as int)),
{
    if lo < hi && s[lo] == '+' {
        assert(s@.subrange(lo as int, hi as int).drop_first() == s@.subrange(lo + 1, hi as int));
        parse_digit_run(s, lo + 1, hi)
    } else {
        parse_digit_run(s, lo, hi)
    }
}

/// The run of digits `s[lo..hi]` as a number, if it is one and fits.
fn parse_digit_run(s: &Vec<char>, lo: usize, hi: usize) -> (r: Option<usize>)
    requires
        lo <= hi <= s@.len(),
    ensures
        r == digit_run(s@.subrange(lo as int, hi as int)),
{
    let ghost t = s@.subrange(lo as int, hi as int);
    if lo == hi {
        return None;
    }
    let mut v: usize = 0;
    let mut i: usize = lo;
    while i < hi
        invariant
            lo <= i <= hi <= s@.len(),
            t == s@.subrange(lo as int, hi as int),
            forall|j: int| 0 <= j < i - lo ==> is_digit(#[trigger] t[j]),
            v as nat == digits_value(t.take(i - lo)),
        decreases hi - i,
    {
        let c = s[i];
        assert(t[i - lo] == c);
        if !('0' <= c && c <= '9') {
            return None;
        }
        let d = (c as u32 - '0' as u32) as usize;
        assert(t.take(i - lo + 1).drop_last() == t.take(i - lo));
        if v > (usize::MAX - d) / 10 {
            proof {
                lemma_digits_value_grows(t, i - lo + 1);
            }
            return None;
        }
        v = v * 10 + d;
        i = i + 1;
    }
    assert(t.take(hi - lo) == t);
    Some(v)
}

proof fn lemma_find_dots_bounds(s: Seq<char>, k: int)
    requires
        0 <= k,
    ensures
        find_dots(s, k) matches Some(i) ==> k <= i && i + 2 <= s.len(),
    decreases s.len() - k,
{
    if k + 1 < s.len() && !(s[k] == '.' && s[k + 1] == '.') {
        lemma_find_dots_bounds(s, k + 1);
    }
}

proof fn lemma_no_dots(s: Seq<char>, k: int)
    requires
        0 <= k,
        forall|i: int| 0 <= i < s.len() ==> is_digit(#[trigger] s[i]),
    ensures
        find_dots(s, k) is None,
    decreases s.len() - k,
{
    if k + 1 < s.len() {
        assert(is_digit(s[k]));
        lemma_no_dots(s, k + 1);
    }
}

/// The first `..` in `s[lo..hi]`, as a position of `s`.
fn find_dots_in(s: &Vec<char>, lo: usize, hi: usize) -> (r: Option<usize>)
    requires
        lo <= hi <= s@.len(),
    ensures
        match find_dots(s@.subrange(lo as int, hi as int), 0) {
            Some(i) => r == Some((lo + i) as usize),
            None => r is None,
        },
        r matches Some(d) ==> lo <= d && d + 2 <= hi
            && find_dots(s@.subrange(lo as int, hi as int), 0) == Some(d - lo),
{
    proof {
        lemma_find_dots_bounds(s@.subrange(lo as int, hi as int), 0);
    }
    let ghost t = s@.subrange(lo as int, hi as int);
    let mut i: usize = lo;
    while hi - i > 1
        invariant
            lo <= i <= hi <= s@.len(),
            t == s@.subrange(lo as int, hi as int),
            find_dots(t, 0) == find_dots(t, i - lo),
        decreases hi - i,
    {
        if s[i] == '.' && s[i + 1] == '.' {
            return Some(i);
        }
        i = i + 1;
    }
    None
}

/// What the token `s[lo..hi]` means.
pub fn parse_token(s: &Vec<char>, lo: usize, hi: usize) -> (r: Result<Pattern, ErrorKind>)
    requires
        lo <= hi <= s@.len(),
    ensures
        r == token_meaning(s@.subrange(lo as int, hi as int)),
        r matches Ok(p) ==> p.wf(),
{
    let ghost t = s@.subrange(lo as int, hi as int);
    match find_dots_in(s, lo, hi) {
        Some(d) => {
            let ghost i = d - lo;
            assert(find_dots(t, 0) == Some(i));
            assert(t.take(i) == s@.subrange(lo as int, d as int));
            let start = if d == lo {
                None
            } else {
                match parse_decimal(s, lo, d) {
                    Some(v) => if v >= 1 { Some(v) } else { return Err(ErrorKind::Syntax) },
                    None => return Err(ErrorKind::Syntax),
                }
            };
            let ghost right = t.skip(i + 2);
            assert(right == s@.subrange(d + 2, hi as int));
            let end = if d + 2 == hi {
                None
            } else if s[d + 2] == '=' {
                assert(right[0] == s@[d + 2]);
                assert(right.drop_first() == s@.subrange(d + 3, hi as int));
                match parse_decimal(s, d + 3, hi) {
                    Some(v) => if v >= 1 { Some(v) } else { return Err(ErrorKind::Syntax) },
                    None => return Err(ErrorKind::Syntax),
                }
            } else {
                assert(right[0] == s@[d + 2]);
                match parse_decimal(s, d + 2, hi) {
                    Some(v) => if v <= 1 {
                        return Err(ErrorKind::ExclusiveEndTooSmall);
                    } else {
                        Some(v - 1)
                    },
                    None => return Err(ErrorKind::Syntax),
                }
            };
            if let (Some(a), Some(b)) = (start, end) {
                if a > b {
                    return Err(ErrorKind::Reversed);
                }
            }
            Ok(Pattern { start, end })
        },
        None => match parse_decimal(s, lo, hi) {
            Some(v) => if v == 0 {
                Err(ErrorKind::Syntax)
            } else {
                Ok(Pattern { start: Some(v), end: Some(v) })
            },
            None => Err(ErrorKind::Syntax),
        },
    }
}

/// The shortest decimal spelling of `n`.
pub open spec fn decimal_chars(n: nat) -> Seq<char>
    decreases n,
{
    if n < 10 {
        seq![(48 + n) as char]
    } else {
        decimal_chars(n / 10).push((48 + n % 10) as char)
    }
}

proof fn lemma_decimal_chars(n: nat)
    ensures
        decimal_chars(n).len() > 0,
        forall|i: int| 0 <= i < decimal_chars(n).len() ==> is_digit(#[trigger] decimal_chars(n)[i]),
        digits_value(decimal_chars(n)) == n,
    decreases n,
{
    assert(digit_value((48 + n % 10) as char) == n % 10);
    if n >= 10 {
        lemma_decimal_chars(n / 10);
        let d = decimal_chars(n / 10);
        assert(decimal_chars(n).drop_last() == d);
        assert(forall|i: int| 0 <= i < d.len() ==> decimal_chars(n)[i] == d[i]);
        assert(decimal_chars(n).last() == (48 + n % 10) as char);
        assert(digits_value(decimal_chars(n)) == digits_value(d) * 10 + n % 10);
        assert(n == (n / 10) * 10 + n % 10) by (nonlinear_arith);
    } else {
        assert(decimal_chars(n).drop_last() == Seq::<char>::empty());
        assert(decimal_chars(n).last() == (48 + n % 10) as char);
        assert(digits_value(decimal_chars(n)) == digits_value(Seq::<char>::empty()) * 10 + n % 10);
    }
}

/// A single positive number `N` denotes the range from line `N` to line `N`.
pub proof fn lemma_single_number(n: usize)
    requires
        n >= 1,
    ensures
        token_meaning(decimal_chars(n as nat)) == Ok::<Pattern, ErrorKind>(
            Pattern { start: Some(n), end: Some(n) },
        ),
{
    lemma_decimal_chars(n as nat);
    lemma_no_dots(decimal_chars(n as nat), 0);
    assert(is_digit(decimal_chars(n as nat)[0]));
}

/// `..` alone is unbounded on both sides and holds every line.
pub proof fn lemma_full_range()
    ensures
        token_meaning(seq!['.', '.']) == Ok::<Pattern, ErrorKind>(
            Pattern { start: None, end: None },
        ),
        forall|n: int| (Pattern { start: None, end: None }).includes(n),
{
    let t = seq!['.', '.'];
    assert(t.take(0) == Seq::<char>::empty());
    assert(t.skip(2) == Seq::<char>::empty());
}

proof fn lemma_dots_after_digits(t: Seq<char>, k: int, m: int)
    requires
        0 <= k <= m,
        m + 1 < t.len(),
        t[m] == '.' && t[m + 1] == '.',
        forall|i: int| 0 <= i < m ==> is_digit(#[trigger] t[i]),
    ensures
        find_dots(t, k) == Some(m),
    decreases m - k,
{
    if k < m {
        assert(is_digit(t[k]));
        lemma_dots_after_digits(t, k + 1, m);
    }
}

/// `A..B` ends at line `B - 1` and `A..=B` at line `B`, both from line `A`.
pub proof fn lemma_range_ends(a: usize, b: usize)
    requires
        1 <= a < b,
    ensures
        token_meaning(decimal_chars(a as nat) + seq!['.', '.'] + decimal_chars(b as nat)) == Ok::<
            Pattern,
            ErrorKind,
        >(Pattern { start: Some(a), end: Some((b - 1) as usize) }),
        token_meaning(decimal_chars(a as nat) + seq!['.', '.', '='] + decimal_chars(b as nat))
            == Ok::<Pattern, ErrorKind>(Pattern { start: Some(a), end: Some(b) }),
{
    let da = decimal_chars(a as nat);
    let db = decimal_chars(b as nat);
    lemma_decimal_chars(a as nat);
    lemma_decimal_chars(b as nat);
    let m = da.len() as int;
    let t1 = da + seq!['.', '.'] + db;
    let t2 = da + seq!['.', '.', '='] + db;
    assert(forall|i: int| 0 <= i < m ==> t1[i] == da[i] && t2[i] == da[i]);
    lemma_dots_after_digits(t1, 0, m);
    lemma_dots_after_digits(t2, 0, m);
    assert(t1.take(m) == da);
    assert(t2.take(m) == da);
    assert(t1.skip(m + 2) == db);
    assert(t2.skip(m + 2).drop_first() == db);
    assert(t2.skip(m + 2)[0] == '=');
    assert(is_digit(db[0]));
    assert(is_digit(da[0]));
}

} // verus!
