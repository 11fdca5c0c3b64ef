//! Pattern lists, and the single forward pass that emits the selected lines.
use crate::pattern::{lemma_full_range, parse_token, token_meaning, ErrorKind, Pattern, PatternError};
use vstd::prelude::*;
use vstd::string::*;

verus! {

/// The pieces of `s` between separators; `k` separators give `k + 1` pieces.
pub open spec fn pieces<T>(s: Seq<T>, sep: T) -> Seq<Seq<T>>
    decreases s.len(),
{
    if s.len() == 0 {
        seq![Seq::empty()]
    } else {
        let p = pieces(s.drop_last(), sep);
        if s.last() == sep {
            p.push(Seq::empty())
        } else {
            p.update(p.len() - 1, p.last().push(s.last()))
        }
    }
}

/// The lines of a byte stream: a final newline ends the last line rather than
/// starting an empty one, and an empty stream has no line.
pub open spec fn lines_of(s: Seq<u8>) -> Seq<Seq<u8>> {
    if s.len() == 0 {
        Seq::empty()
    } else if s.last() == 10u8 {
        pieces(s.drop_last(), 10u8)
    } else {
        pieces(s, 10u8)
    }
}

/// The tokens of a pattern list, in order, each parsed; the first rejected
/// token stops the parse.
pub open spec fn parse_all(toks: Seq<Seq<char>>) -> Result<Seq<Pattern>, (ErrorKind, Seq<char>)>
    decreases toks.len(),
{
    if toks.len() == 0 {
        Ok(Seq::empty())
    } else {
        match parse_all(toks.drop_last()) {
            Err(e) => Err(e),
            Ok(ps) => match token_meaning(toks.last()) {
                Err(k) => Err((k, toks.last())),
                Ok(p) => Ok(ps.push(p)),
            },
        }
    }
}

/// `this` may follow `prev`: `prev` is unbounded on both sides, or it ends
/// no later than `this` starts (an open end lies past every line, an open
/// start at 0).
pub open spec fn may_follow(prev: Pattern, this: Pattern) -> bool {
    prev.start is None && prev.end is None || (prev.end matches Some(e) && e <= (
    match this.start {
        Some(s) => s as int,
        None => 0,
    }))
}

/// The first position from `i` on whose range may not follow its predecessor.
pub open spec fn first_disorder(ps: Seq<Pattern>, i: int) -> Option<int>
    decreases ps.len() - i,
{
    if i <= 0 || i >= ps.len() {
        None
    } else if !may_follow(ps[i - 1], ps[i]) {
        Some(i)
    } else {
        first_disorder(ps, i + 1)
    }
}

/// Every range of the list may follow its predecessor.
pub open spec fn in_order(ps: Seq<Pattern>) -> bool {
    forall|i: int| 0 < i < ps.len() ==> may_follow(#[trigger] ps[i - 1], ps[i])
}

/// What a comma-separated pattern list means: its ranges, or the first error
/// and the token it concerns.
pub open spec fn list_meaning(s: Seq<char>) -> Result<Seq<Pattern>, (ErrorKind, Seq<char>)> {
    let toks = pieces(s, ',');
    match parse_all(toks) {
        Err(e) => Err(e),
        Ok(ps) => match first_disorder(ps, 1) {
            Some(i) => Err((ErrorKind::OutOfOrder, toks[i])),
            None => Ok(ps),
        },
    }
}

proof fn lemma_pieces_step<T>(s: Seq<T>, sep: T, i: int)
    requires
        0 <= i < s.len(),
    ensures
        pieces(s.take(i + 1), sep) == if s[i] == sep {
            pieces(s.take(i), sep).push(Seq::empty())
        } else {
            let p = pieces(s.take(i), sep);
            p.update(p.len() - 1, p.last().push(s[i]))
        },
{
    assert(s.take(i + 1).drop_last() == s.take(i));
}

proof fn lemma_pieces_len<T>(s: Seq<T>, sep: T)
    ensures
        pieces(s, sep).len() >= 1,
    decreases s.len(),
{
    if s.len() > 0 {
        lemma_pieces_len(s.drop_last(), sep);
    }
}

/// All but the last piece of a prefix are pieces of the whole.
proof fn lemma_pieces_prefix<T>(s: Seq<T>, sep: T, i: int)
    requires
        0 <= i <= s.len(),
    ensures
        pieces(s.take(i), sep).len() <= pieces(s, sep).len(),
        forall|j: int|
            0 <= j < pieces(s.take(i), sep).len() - 1 ==> #[trigger] pieces(s.take(i), sep)[j]
                == pieces(s, sep)[j],
    decreases s.len() - i,
{
    if i == s.len() {
        assert(s.take(i) == s);
    } else {
        lemma_pieces_prefix(s, sep, i + 1);
        lemma_pieces_step(s, sep, i);
        lemma_pieces_len(s.take(i), sep);
        let a = pieces(s.take(i), sep);
        let b = pieces(s.take(i + 1), sep);
        assert forall|j: int| 0 <= j < a.len() - 1 implies #[trigger] a[j] == pieces(s, sep)[j] by {
            assert(a[j] == b[j]);
        }
    }
}

proof fn lemma_parse_all_stops(toks: Seq<Seq<char>>, m: int)
    requires
        0 <= m <= toks.len(),
        parse_all(toks.take(m)) is Err,
    ensures
        parse_all(toks) == parse_all(toks.take(m)),
    decreases toks.len(),
{
    if m == toks.len() {
        assert(toks.take(m) == toks);
    } else {
        assert(toks.drop_last().take(m) == toks.take(m));
        lemma_parse_all_stops(toks.drop_last(), m);
    }
}

proof fn lemma_first_disorder_none(ps: Seq<Pattern>, i: int)
    requires
        1 <= i,
        first_disorder(ps, i) is None,
    ensures
        forall|j: int| i <= j < ps.len() ==> may_follow(#[trigger] ps[j - 1], ps[j]),
    decreases ps.len() - i,
{
    if i < ps.len() {
        lemma_first_disorder_none(ps, i + 1);
    }
}

/// Whether `this` may follow `prev` in a pattern list.
fn may_follow_exec(prev: &Pattern, this: &Pattern) -> (r: bool)
    ensures
        r == may_follow(*prev, *this),
{
    if prev.start.is_none() && prev.end.is_none() {
        return true;
    }
    match prev.end {
        None => false,
        Some(e) => {
            let this_start: usize = match this.start {
                Some(s) => s,
                None => 0,
            };
            e <= this_start
        },
    }
}

/// Parses a comma-separated pattern list and checks that its ranges come in
/// order, before any line is read.
pub fn parse_patterns(patterns: &str) -> (r: Result<Vec<Pattern>, PatternError>)
    ensures
        match list_meaning(patterns@) {
            Ok(ps) => r is Ok && r->Ok_0@ == ps && in_order(ps) && forall|i: int|
                0 <= i < ps.len() ==> (#[trigger] ps[i]).wf(),
            Err((k, t)) => r is Err && r->Err_0.kind == k && r->Err_0.token@ == t,
        },
{
    let c = crate::pattern::to_chars(patterns);
    let n = c.len();
    let ghost whole = pieces(c@, ',');
    let ghost toks: Seq<Seq<char>> = Seq::empty();
    let mut spans: Vec<(usize, usize)> = Vec::new();
    let mut ps: Vec<Pattern> = Vec::new();
    let mut st: usize = 0;
    let mut i: usize = 0;
    assert(c@.take(0) == Seq::<char>::empty());
    assert(c@.subrange(0, 0) == Seq::<char>::empty());
    while i < n
        invariant
            n == c@.len(),
            c@ == patterns@,
            whole == pieces(c@, ','),
            st <= i <= n,
            pieces(c@.take(i as int), ',') == toks.push(c@.subrange(st as int, i as int)),
            spans@.len() == toks.len(),
            ps@.len() == toks.len(),
            forall|j: int|
                0 <= j < toks.len() ==> (#[trigger] spans@[j]).0 <= spans@[j].1 <= n && toks[j]
                    == c@.subrange(spans@[j].0 as int, spans@[j].1 as int),
            parse_all(toks) == Ok::<Seq<Pattern>, (ErrorKind, Seq<char>)>(ps@),
            forall|k: int| 0 <= k < ps@.len() ==> (#[trigger] ps@[k]).wf(),
        decreases n - i,
    {
        proof {
            lemma_pieces_step(c@, ',', i as int);
        }
        if c[i] == ',' {
            let ghost tok = c@.subrange(st as int, i as int);
            assert(toks.push(tok).drop_last() == toks);
            match parse_token(&c, st, i) {
                Err(kind) => {
                    proof {
                        lemma_pieces_prefix(c@, ',', i + 1);
                        let ghost upto = pieces(c@.take(i + 1), ',');
                        assert(upto == toks.push(tok).push(Seq::empty()));
                        assert forall|k: int| 0 <= k < toks.len() + 1 implies whole[k]
                            == toks.push(tok)[k] by {
                            assert(upto[k] == whole[k]);
                        }
                        assert(whole.take(toks.len() as int + 1) =~= toks.push(tok));
                        lemma_parse_all_stops(whole, toks.len() as int + 1);
                    }
                    let token = String::from_str(patterns.substring_char(st, i));
                    return Err(PatternError { kind, token });
                },
                Ok(p) => {
                    ps.push(p);
                    spans.push((st, i));
                    proof {
                        toks = toks.push(tok);
                    }
                    st = i + 1;
                },
            }
        }
        i = i + 1;
        assert(c@.subrange(st as int, i as int) == if st == i {
            Seq::<char>::empty()
        } else {
            c@.subrange(st as int, i - 1).push(c@[i - 1])
        });
    }
    assert(c@.take(n as int) == c@);
    let ghost tok = c@.subrange(st as int, n as int);
    assert(toks.push(tok).drop_last() == toks);
    match parse_token(&c, st, n) {
        Err(kind) => {
            let token = String::from_str(patterns.substring_char(st, n));
            return Err(PatternError { kind, token });
        },
        Ok(p) => {
            ps.push(p);
            spans.push((st, n));
            proof {
                toks = toks.push(tok);
            }
        },
    }
    assert(toks == whole);
    let mut j: usize = 1;
    while j < ps.len()
        invariant
            1 <= j,
            toks == whole,
            whole == pieces(c@, ','),
            spans@.len() == toks.len(),
            ps@.len() == toks.len(),
            n == c@.len(),
            c@ == patterns@,
            forall|k: int|
                0 <= k < toks.len() ==> (#[trigger] spans@[k]).0 <= spans@[k].1 <= n && toks[k]
                    == c@.subrange(spans@[k].0 as int, spans@[k].1 as int),
            parse_all(toks) == Ok::<Seq<Pattern>, (ErrorKind, Seq<char>)>(ps@),
            first_disorder(ps@, 1) == first_disorder(ps@, j as int),
            forall|k: int| 0 <= k < ps@.len() ==> (#[trigger] ps@[k]).wf(),
        decreases ps@.len() - j,
    {
        if !may_follow_exec(&ps[j - 1], &ps[j]) {
            let (a, b) = spans[j];
            assert(first_disorder(ps@, j as int) == Some(j as int));
            assert(toks[j as int] == c@.subrange(spans@[j as int].0 as int, spans@[j as int].1 as int));
            let token = String::from_str(patterns.substring_char(a, b));
            assert(token@ == toks[j as int]);
            assert(list_meaning(patterns@) == Err::<Seq<Pattern>, (ErrorKind, Seq<char>)>(
                (ErrorKind::OutOfOrder, toks[j as int]),
            ));
            return Err(PatternError { kind: ErrorKind::OutOfOrder, token });
        }
        j = j + 1;
    }
    proof {
        lemma_first_disorder_none(ps@, 1);
    }
    Ok(ps)
}

/// The decimal digits of `n` as ASCII bytes.
pub open spec fn decimal_bytes(n: nat) -> Seq<u8>
    decreases n,
{
    if n < 10 {
        seq![(48 + n) as u8]
    } else {
        decimal_bytes(n / 10).push((48 + n % 10) as u8)
    }
}

/// One emitted copy of line `n`: optionally its number and a tab, then the
/// text and a newline.
pub open spec fn record(n: nat, line: Seq<u8>, show_line_number: bool) -> Seq<u8> {
    (if show_line_number {
        decimal_bytes(n).push(9u8)
    } else {
        Seq::empty()
    }) + line.push(10u8)
}

/// What line `n` yields: one record for each range of `ps` that holds it, in
/// the order of the list.
pub open spec fn emitted(ps: Seq<Pattern>, n: int, line: Seq<u8>, show_line_number: bool) -> Seq<
    u8,
>
    decreases ps.len(),
{
    if ps.len() == 0 {
        Seq::empty()
    } else {
        emitted(ps.drop_last(), n, line, show_line_number) + if ps.last().includes(n) {
            record(n as nat, line, show_line_number)
        } else {
            Seq::empty()
        }
    }
}

/// The whole output for the given lines, numbered from 1.
pub open spec fn output_of(ps: Seq<Pattern>, lines: Seq<Seq<u8>>, show_line_number: bool) -> Seq<
    u8,
>
    decreases lines.len(),
{
    if lines.len() == 0 {
        Seq::empty()
    } else {
        output_of(ps, lines.drop_last(), show_line_number) + emitted(
            ps,
            lines.len() as int,
            lines.last(),
            show_line_number,
        )
    }
}

/// No range of `ps` holds a line after line `n`.
pub open spec fn finished(ps: Seq<Pattern>, n: int) -> bool {
    forall|i: int| 0 <= i < ps.len() ==> (#[trigger] ps[i].end matches Some(e) && e <= n)
}

/// How lines are written.
pub struct Options {
    /// Put each line's number and a tab before its text.
    pub show_line_number: bool,
}

impl Default for Options {
    fn default() -> (r: Options)
        ensures
            !r.show_line_number,
    {
        Options { show_line_number: false }
    }
}

/// Appends the decimal digits of `n`.
fn push_decimal(n: usize, out: &mut Vec<u8>)
    ensures
        final(out)@ == old(out)@ + decimal_bytes(n as nat),
    decreases n,
{
    if n >= 10 {
        push_decimal(n / 10, out);
    }
    out.push(48u8 + (n % 10) as u8);
}

/// Appends `input[lo..hi]`.
fn push_span(input: &[u8], lo: usize, hi: usize, out: &mut Vec<u8>)
    requires
        lo <= hi <= input@.len(),
    ensures
        final(out)@ == old(out)@ + input@.subrange(lo as int, hi as int),
{
    let ghost start = out@;
    let mut i: usize = lo;
    while i < hi
        invariant
            lo <= i <= hi <= input@.len(),
            out@ == start + input@.subrange(lo as int, i as int),
        decreases hi - i,
    {
        out.push(input[i]);
        i = i + 1;
        assert(input@.subrange(lo as int, i as int) == input@.subrange(lo as int, i - 1).push(
            input@[i - 1],
        ));
    }
}

/// Writes every copy of line `n` that `ps` asks for, with text
/// `input[lo..hi]`, and tells whether a later line may still be selected.
fn emit_line(
    ps: &Vec<Pattern>,
    show_line_number: bool,
    n: usize,
    input: &[u8],
    lo: usize,
    hi: usize,
    out: &mut Vec<u8>,
) -> (more: bool)
    requires
        lo <= hi <= input@.len(),
    ensures
        final(out)@ == old(out)@ + emitted(
            ps@,
            n as int,
            input@.subrange(lo as int, hi as int),
            show_line_number,
        ),
        more == !finished(ps@, n as int),
{
    let ghost line = input@.subrange(lo as int, hi as int);
    let ghost start = out@;
    let mut more = false;
    let mut j: usize = 0;
    while j < ps.len()
        invariant
            j <= ps@.len(),
            lo <= hi <= input@.len(),
            line == input@.subrange(lo as int, hi as int),
            out@ == start + emitted(ps@.take(j as int), n as int, line, show_line_number),
            more == !finished(ps@.take(j as int), n as int),
        decreases ps@.len() - j,
    {
        let p = ps[j];
        assert(ps@.take(j + 1).drop_last() == ps@.take(j as int));
        if p.is_included(n) {
            if show_line_number {
                push_decimal(n, out);
                out.push(9u8);
            }
            push_span(input, lo, hi, out);
            out.push(10u8);
            assert(out@ == start + emitted(ps@.take(j as int), n as int, line, show_line_number)
                + record(n as nat, line, show_line_number));
        }
        match p.end {
            Some(e) => if e > n {
                more = true;
            },
            None => {
                more = true;
            },
        }
        j = j + 1;
        assert(finished(ps@.take(j as int), n as int) == (finished(ps@.take(j - 1), n as int)
            && (ps@[j - 1].end matches Some(e) && e <= n))) by {
            let a = ps@.take(j as int);
            if finished(ps@.take(j - 1), n as int) && (ps@[j - 1].end matches Some(e) && e <= n) {
                assert forall|i: int| 0 <= i < a.len() implies (#[trigger] a[i].end matches Some(e)
                    && e <= n) by {
                    if i < j - 1 {
                        assert(a[i] == ps@.take(j - 1)[i]);
                    }
                }
            }
            if finished(a, n as int) {
                assert(a[j - 1] == ps@[j - 1]);
                assert forall|i: int| 0 <= i < j - 1 implies (#[trigger] ps@.take(j - 1)[i].end matches Some(e)
                    && e <= n) by {
                    assert(a[i] == ps@.take(j - 1)[i]);
                }
            }
        }
    }
    assert(ps@.take(ps@.len() as int) == ps@);
    more
}

/// The selection state of one forward pass over a stream.
pub struct Selector {
    /// The ranges to select, in order.
    pub patterns: Vec<Pattern>,
    pub show_line_number: bool,
    /// How many lines have been handed in so far.
    pub lines_read: usize,
}

impl Selector {
    /// Parses and checks the pattern list; no line has been read yet.
    pub fn new(patterns: &str, options: Options) -> (r: Result<Selector, PatternError>)
        ensures
            match list_meaning(patterns@) {
                Ok(ps) => r is Ok && r->Ok_0.patterns@ == ps && r->Ok_0.show_line_number
                    == options.show_line_number && r->Ok_0.lines_read == 0 && in_order(ps) && (
                forall|i: int| 0 <= i < ps.len() ==> (#[trigger] ps[i]).wf()),
                Err((k, t)) => r is Err && r->Err_0.kind == k && r->Err_0.token@ == t,
            },
    {
        let ps = parse_patterns(patterns)?;
        Ok(Selector { patterns: ps, show_line_number: options.show_line_number, lines_read: 0 })
    }

    /// Takes the next line of the stream (without its newline), writes what
    /// the patterns select of it, and tells whether any later line may still
    /// be selected; once it says no, the rest of the stream need not be read.
    pub fn select_line(&mut self, line: &[u8], out: &mut Vec<u8>) -> (more: bool)
        requires
            old(self).lines_read < usize::MAX,
        ensures
            final(self).patterns@ == old(self).patterns@,
            final(self).show_line_number == old(self).show_line_number,
            final(self).lines_read == old(self).lines_read + 1,
            final(out)@ == old(out)@ + emitted(
                old(self).patterns@,
                final(self).lines_read as int,
                line@,
                old(self).show_line_number,
            ),
            more == !finished(old(self).patterns@, final(self).lines_read as int),
    {
        self.lines_read = self.lines_read + 1;
        assert(line@.subrange(0, line@.len() as int) == line@);
        emit_line(&self.patterns, self.show_line_number, self.lines_read, line, 0, line.len(), out)
    }
}

/// Writes to `out` the lines of `input` that the pattern list selects, each
/// once per range that holds it. A bad pattern list is reported before
/// anything is written.
pub fn write_lines(input: &[u8], out: &mut Vec<u8>, patterns: &str, options: Options) -> (r: Result<
    (),
    PatternError,
>)
    ensures
        match list_meaning(patterns@) {
            Ok(ps) => r is Ok && final(out)@ == old(out)@ + output_of(
                ps,
                lines_of(input@),
                options.show_line_number,
            ),
            Err((k, t)) => r is Err && r->Err_0.kind == k && r->Err_0.token@ == t && final(out)@
                == old(out)@,
        },
{
    let ps = parse_patterns(patterns)?;
    let show = options.show_line_number;
    let ghost start = out@;
    let ghost done: Seq<Seq<u8>> = Seq::empty();
    let n = input.len();
    let mut count: usize = 0;
    let mut st: usize = 0;
    let mut i: usize = 0;
    assert(input@.take(0) == Seq::<u8>::empty());
    assert(input@.subrange(0, 0) == Seq::<u8>::empty());
    while i < n
        invariant
            n == input@.len(),
            st <= i <= n,
            count as int == done.len(),
            count <= st,
            st == 0 || input@[st - 1] == 10u8,
            i > 0 && input@[i - 1] == 10u8 ==> st == i,
            pieces(input@.take(i as int), 10u8) == done.push(input@.subrange(st as int, i as int)),
            out@ == start + output_of(ps@, done, show),
        decreases n - i,
    {
        proof {
            lemma_pieces_step(input@, 10u8, i as int);
        }
        if input[i] == 10u8 {
            let ghost line = input@.subrange(st as int, i as int);
            count = count + 1;
            // The whole input is at hand, so reading on after the last
            // selected line costs no I/O.
            emit_line(&ps, show, count, input, st, i, out);
            proof {
                assert(done.push(line).drop_last() == done);
                done = done.push(line);
            }
            st = i + 1;
        }
        i = i + 1;
        assert(input@.subrange(st as int, i as int) == if st == i {
            Seq::<u8>::empty()
        } else {
            input@.subrange(st as int, i - 1).push(input@[i - 1])
        });
    }
    assert(input@.take(n as int) == input@);
    if st < n {
        let ghost line = input@.subrange(st as int, n as int);
        count = count + 1;
        emit_line(&ps, show, count, input, st, n, out);
        proof {
            assert(done.push(line).drop_last() == done);
            done = done.push(line);
        }
        assert(lines_of(input@) == done);
    } else if n > 0 {
        proof {
            lemma_pieces_step(input@, 10u8, n - 1);
            assert(input@.take(n - 1) == input@.drop_last());
            assert(pieces(input@.drop_last(), 10u8) == done) by {
                let p = pieces(input@.drop_last(), 10u8);
                assert(p.push(Seq::empty()).drop_last() == p);
                assert(done.push(Seq::empty()).drop_last() == done);
            }
        }
    } else {
        assert(done.push(Seq::empty()).len() == 1);
    }
    Ok(())
}

/// The lines, each followed by a newline.
pub open spec fn joined(lines: Seq<Seq<u8>>) -> Seq<u8>
    decreases lines.len(),
{
    if lines.len() == 0 {
        Seq::empty()
    } else {
        joined(lines.drop_last()) + lines.last().push(10u8)
    }
}

/// The pattern list `..` selects every line of any input once, unchanged
/// and in order.
pub proof fn lemma_select_everything(input: Seq<u8>)
    ensures
        list_meaning(seq!['.', '.']) == Ok::<Seq<Pattern>, (ErrorKind, Seq<char>)>(
            seq![Pattern { start: None, end: None }],
        ),
        output_of(seq![Pattern { start: None, end: None }], lines_of(input), false) == joined(
            lines_of(input),
        ),
{
    let s = seq!['.', '.'];
    let s1 = s.drop_last();
    assert(s1.drop_last() =~= Seq::<char>::empty());
    let p0 = pieces(s1.drop_last(), ',');
    assert(p0 == seq![Seq::<char>::empty()]);
    assert(p0.update(0, p0[0].push('.')) =~= seq![seq!['.']]);
    assert(pieces(s1, ',') == seq![seq!['.']]);
    let p1 = pieces(s1, ',');
    assert(seq!['.'].push('.') =~= s);
    assert(p1.update(0, p1[0].push('.')) =~= seq![s]);
    assert(pieces(s, ',') == seq![s]);
    lemma_full_range();
    assert(seq![s].drop_last() == Seq::<Seq<char>>::empty());
    assert(Seq::<Pattern>::empty().push(Pattern { start: None, end: None }) == seq![
        Pattern { start: None, end: None },
    ]);
    assert(parse_all(Seq::<Seq<char>>::empty()) == Ok::<Seq<Pattern>, (ErrorKind, Seq<char>)>(
        Seq::empty(),
    ));
    assert(seq![s].last() == s);
    assert(parse_all(seq![s]) == Ok::<Seq<Pattern>, (ErrorKind, Seq<char>)>(
        seq![Pattern { start: None, end: None }],
    ));
    assert(first_disorder(seq![Pattern { start: None, end: None }], 1) is None);
    lemma_output_of_full(lines_of(input));
}

proof fn lemma_output_of_full(lines: Seq<Seq<u8>>)
    ensures
        output_of(seq![Pattern { start: None, end: None }], lines, false) == joined(lines),
    decreases lines.len(),
{
    let ps = seq![Pattern { start: None, end: None }];
    if lines.len() > 0 {
        lemma_output_of_full(lines.drop_last());
        assert(ps.drop_last() == Seq::<Pattern>::empty());
        let l = lines.last();
        assert(emitted(ps.drop_last(), lines.len() as int, l, false) == Seq::<u8>::empty());
        assert(ps.last().includes(lines.len() as int));
        assert(Seq::<u8>::empty() + (Seq::<u8>::empty() + l.push(10u8)) =~= l.push(10u8));
        assert(emitted(ps, lines.len() as int, l, false) == l.push(10u8));
    }
}

/// An empty input yields no output, whatever the patterns.
pub proof fn lemma_empty_input(ps: Seq<Pattern>, show_line_number: bool)
    ensures
        lines_of(Seq::empty()) == Seq::<Seq<u8>>::empty(),
        output_of(ps, lines_of(Seq::empty()), show_line_number) == Seq::<u8>::empty(),
{
}

proof fn lemma_emitted_none(ps: Seq<Pattern>, n: int, line: Seq<u8>, show_line_number: bool)
    requires
        forall|i: int| 0 <= i < ps.len() ==> !(#[trigger] ps[i]).includes(n),
    ensures
        emitted(ps, n, line, show_line_number) == Seq::<u8>::empty(),
    decreases ps.len(),
{
    if ps.len() > 0 {
        assert(forall|i: int| 0 <= i < ps.len() - 1 ==> ps.drop_last()[i] == ps[i]);
        lemma_emitted_none(ps.drop_last(), n, line, show_line_number);
        assert(!ps[ps.len() - 1].includes(n));
    }
}

/// Once no range holds a line after line `k`, the lines after it add nothing
/// to the output: a pass may stop reading there.
pub proof fn lemma_stop_early(ps: Seq<Pattern>, lines: Seq<Seq<u8>>, k: int, show_line_number: bool)
    requires
        0 <= k <= lines.len(),
        finished(ps, k),
    ensures
        output_of(ps, lines, show_line_number) == output_of(ps, lines.take(k), show_line_number),
    decreases lines.len(),
{
    if lines.len() == k {
        assert(lines.take(k) == lines);
    } else {
        assert(lines.drop_last().take(k) == lines.take(k));
        lemma_stop_early(ps, lines.drop_last(), k, show_line_number);
        assert forall|i: int| 0 <= i < ps.len() implies !(#[trigger] ps[i]).includes(
            lines.len() as int,
        ) by {
            assert(ps[i].end matches Some(e) && e <= k);
        }
        lemma_emitted_none(ps, lines.len() as int, lines.last(), show_line_number);
    }
}

} // verus!
