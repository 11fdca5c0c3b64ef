use line::{parse_patterns, write_lines, ErrorKind, Options, Pattern, PatternError, Selector};

fn select(input: &str, patterns: &str, options: Options) -> Result<Vec<u8>, PatternError> {
    let mut fout = Vec::new();
    write_lines(input.as_bytes(), &mut fout, patterns, options)?;
    Ok(fout)
}

fn selected_lines(input: &str, patterns: &str) -> Vec<String> {
    let fout = select(input, patterns, Options::default()).unwrap();
    let text = String::from_utf8(fout).unwrap();
    text.lines().map(|l| l.to_string()).collect()
}

#[test]
fn lines_must_be_specified_in_order() {
    let failing_patterns = [
        ("4,4", false),
        ("4,5", false),
        ("5,4", true),
        ("1..9,4", true),
        ("8..9,4", true),
        ("2..4,1", true),
        ("2..4,4", false),
        ("2..=4,4", false),
    ];

    for tv in failing_patterns {
        let patterns = tv.0;
        let should_error = tv.1;
        assert_eq!(should_error, select("Foo\nBar\nBaz", patterns, Default::default()).is_err());
    }
}

#[test]
fn select_lines() {
    let tvs: &[(&str, &str, &[&str])] = &[
        ("", "1,2,2", &[]),
        ("Foo\nBar", "1,2,2", &["Foo", "Bar", "Bar"]),
        ("Foo\nBar\nBaz", "..", &["Foo", "Bar", "Baz"]),
        ("Foo\nBar\nBaz", "1..", &["Foo", "Bar", "Baz"]),
        ("Foo\nBar\nBaz", "2..", &["Bar", "Baz"]),
        ("Foo\nBar\nBaz", "2..3", &["Bar"]),
        ("Foo\nBar\nBaz", "2..=3", &["Bar", "Baz"]),
        ("Foo\nBar\nBaz", "..=3", &["Foo", "Bar", "Baz"]),
        ("Foo\nBar\nBaz", "..3", &["Foo", "Bar"]),
        ("Foo\nBar\nBaz", "..3,3,3", &["Foo", "Bar", "Baz", "Baz"]),
        ("Foo\nBar", "..", &["Foo", "Bar"]),
        ("Foo\nBar\n", "..", &["Foo", "Bar"]),
        ("Foo\nBar\n\n", "..", &["Foo", "Bar", ""]),
        ("Foo\nBar\nBaz", "1,2..", &["Foo", "Bar", "Baz"]),
    ];

    for tv in tvs {
        let actual_lines = selected_lines(tv.0, tv.1);
        for (expected_line, actual_line) in tv.2.iter().zip(actual_lines.iter()) {
            assert_eq!(expected_line, actual_line);
        }
        assert_eq!(tv.2.len(), actual_lines.len());
    }
}

#[test]
fn pattern_parsing() {
    let p = Pattern::parse("1").unwrap();
    assert_eq!(p.start.unwrap(), 1);
    assert_eq!(p.end.unwrap(), 1);

    let p = Pattern::parse("..").unwrap();
    assert_eq!(p.start, None);
    assert_eq!(p.end, None);

    let p = Pattern::parse("5..").unwrap();
    assert_eq!(p.start.unwrap(), 5);
    assert_eq!(p.end, None);

    let p = Pattern::parse("42..100").unwrap();
    assert_eq!(p.start.unwrap(), 42);
    assert_eq!(p.end.unwrap(), 99);

    let p = Pattern::parse("..2").unwrap();
    assert_eq!(p.start, None);
    assert_eq!(p.end.unwrap(), 1);

    let p = Pattern::parse("..=2").unwrap();
    assert_eq!(p.start, None);
    assert_eq!(p.end.unwrap(), 2);

    let p = Pattern::parse("1..=1").unwrap();
    assert_eq!(p.start.unwrap(), 1);
    assert_eq!(p.end.unwrap(), 1);

    let p = Pattern::parse("5..=100").unwrap();
    assert_eq!(p.start.unwrap(), 5);
    assert_eq!(p.end.unwrap(), 100);

    assert!(Pattern::parse("0..5").is_err());
    assert!(Pattern::parse("..0").is_err());
    assert!(Pattern::parse("..1").is_err());
    assert!(Pattern::parse("0").is_err());
}

#[test]
fn single_numbers_select_one_line() {
    for n in [1usize, 7, 42, 1000, usize::MAX] {
        let p = Pattern::parse(&n.to_string()).unwrap();
        assert_eq!(p, Pattern { start: Some(n), end: Some(n) });
    }
}

#[test]
fn full_range_includes_every_line() {
    let p = Pattern::parse("..").unwrap();
    for n in [0usize, 1, 2, 1000, usize::MAX] {
        assert!(p.is_included(n));
    }
}

#[test]
fn exclusive_and_inclusive_ends() {
    for (a, b) in [(1usize, 2usize), (3, 10), (99, 100)] {
        let p = Pattern::parse(&format!("{a}..{b}")).unwrap();
        assert_eq!(p, Pattern { start: Some(a), end: Some(b - 1) });
        let p = Pattern::parse(&format!("{a}..={b}")).unwrap();
        assert_eq!(p, Pattern { start: Some(a), end: Some(b) });
    }
}

#[test]
fn rejected_tokens_and_their_kinds() {
    let cases = [
        ("0", ErrorKind::Syntax),
        ("0..5", ErrorKind::Syntax),
        ("..0", ErrorKind::ExclusiveEndTooSmall),
        ("..1", ErrorKind::ExclusiveEndTooSmall),
        ("..=0", ErrorKind::Syntax),
        ("9..=5", ErrorKind::Reversed),
        ("5..5", ErrorKind::Reversed),
        ("", ErrorKind::Syntax),
        ("abc", ErrorKind::Syntax),
        ("1.5", ErrorKind::Syntax),
        ("x..3", ErrorKind::Syntax),
        ("3..x", ErrorKind::Syntax),
        ("-1", ErrorKind::Syntax),
        ("+", ErrorKind::Syntax),
        ("++5", ErrorKind::Syntax),
        ("+0", ErrorKind::Syntax),
        ("+..3", ErrorKind::Syntax),
        ("2..+", ErrorKind::Syntax),
        ("..+1", ErrorKind::ExclusiveEndTooSmall),
        ("99999999999999999999999", ErrorKind::Syntax),
    ];
    for (token, kind) in cases {
        let e = Pattern::parse(token).unwrap_err();
        assert_eq!(e.kind, kind, "{token}");
        assert_eq!(e.token, token);
    }
}

#[test]
fn numbers_may_carry_a_plus_sign() {
    let p = Pattern::parse("+5").unwrap();
    assert_eq!(p, Pattern { start: Some(5), end: Some(5) });
    let p = Pattern::parse("2..+4").unwrap();
    assert_eq!(p, Pattern { start: Some(2), end: Some(3) });
    let p = Pattern::parse("..=+3").unwrap();
    assert_eq!(p, Pattern { start: None, end: Some(3) });
    let p = Pattern::parse("+2..=+2").unwrap();
    assert_eq!(p, Pattern { start: Some(2), end: Some(2) });
    assert_eq!(selected_lines("Foo\nBar\nBaz", "+1,2..+4"), vec!["Foo", "Bar", "Baz"]);
}

#[test]
fn inclusion_bounds() {
    let p = Pattern { start: Some(3), end: Some(5) };
    assert!(!p.is_included(2));
    assert!(p.is_included(3));
    assert!(p.is_included(5));
    assert!(!p.is_included(6));
    let p = Pattern { start: None, end: Some(2) };
    assert!(p.is_included(1));
    assert!(!p.is_included(3));
}

#[test]
fn list_order_errors_name_the_token() {
    let e = parse_patterns("1..9,4").unwrap_err();
    assert_eq!(e.kind, ErrorKind::OutOfOrder);
    assert_eq!(e.token, "4");
    let e = parse_patterns("3..,5").unwrap_err();
    assert_eq!(e.kind, ErrorKind::OutOfOrder);
    assert_eq!(e.token, "5");
    let e = parse_patterns("1,2,,3").unwrap_err();
    assert_eq!(e.kind, ErrorKind::Syntax);
    assert_eq!(e.token, "");
    let e = parse_patterns("2,..=5").unwrap_err();
    assert_eq!(e.kind, ErrorKind::OutOfOrder);
    assert_eq!(e.token, "..=5");
}

#[test]
fn list_in_order_is_kept_in_order() {
    let ps = parse_patterns("..,1,3..=4,4,6..").unwrap();
    assert_eq!(
        ps,
        vec![
            Pattern { start: None, end: None },
            Pattern { start: Some(1), end: Some(1) },
            Pattern { start: Some(3), end: Some(4) },
            Pattern { start: Some(4), end: Some(4) },
            Pattern { start: Some(6), end: None },
        ]
    );
}

#[test]
fn bad_list_writes_nothing() {
    let mut fout = b"kept".to_vec();
    assert!(write_lines(b"a\nb\n", &mut fout, "2,1", Options::default()).is_err());
    assert_eq!(fout, b"kept".to_vec());
}

#[test]
fn full_range_reproduces_input() {
    for input in ["", "a", "a\nb", "a\nb\n", "\n", "\n\n", "x\r\ny\r\n", "one\n\nthree"] {
        let fout = select(input, "..", Options::default()).unwrap();
        let mut expected = input.to_string();
        if !expected.is_empty() && !expected.ends_with('\n') {
            expected.push('\n');
        }
        assert_eq!(String::from_utf8(fout).unwrap(), expected);
    }
}

#[test]
fn repeated_line_is_written_per_range() {
    assert_eq!(selected_lines("Foo\nBar", "1,2,2"), vec!["Foo", "Bar", "Bar"]);
    let fout = select("Foo\nBar", "1,2,2", Options::default()).unwrap();
    assert_eq!(fout, b"Foo\nBar\nBar\n".to_vec());
}

#[test]
fn empty_input_yields_nothing() {
    for patterns in ["..", "1", "1,2,2", "3..", "..=7"] {
        assert_eq!(select("", patterns, Options::default()).unwrap(), Vec::<u8>::new());
    }
}

#[test]
fn trailing_blank_line_is_a_line() {
    let fout = select("Foo\nBar\n\n", "..", Options::default()).unwrap();
    assert_eq!(fout, b"Foo\nBar\n\n".to_vec());
    assert_eq!(selected_lines("Foo\nBar\n\n", ".."), vec!["Foo", "Bar", ""]);
}

#[test]
fn scenarios() {
    assert_eq!(selected_lines("Foo\nBar\nBaz", "2..3"), vec!["Bar"]);
    assert_eq!(selected_lines("Foo\nBar\nBaz", "2..=3"), vec!["Bar", "Baz"]);
    assert_eq!(selected_lines("Foo\nBar\nBaz", "..3,3,3"), vec!["Foo", "Bar", "Baz", "Baz"]);
    assert_eq!(selected_lines("Foo\nBar\nBaz", "1,2.."), vec!["Foo", "Bar", "Baz"]);
}

#[test]
fn line_numbers_are_shown() {
    let fout = select("Foo\nBar", "1,2", Options { show_line_number: true }).unwrap();
    assert_eq!(String::from_utf8(fout).unwrap(), "1\tFoo\n2\tBar\n");
    let input: String = (1..=12).map(|i| format!("l{i}\n")).collect();
    let fout = select(&input, "10..=11", Options { show_line_number: true }).unwrap();
    assert_eq!(String::from_utf8(fout).unwrap(), "10\tl10\n11\tl11\n");
}

#[test]
fn selector_stops_after_last_range() {
    let mut sel = Selector::new("2..=3", Options::default()).unwrap();
    let mut out = Vec::new();
    assert!(sel.select_line(b"a", &mut out));
    assert!(sel.select_line(b"b", &mut out));
    assert!(!sel.select_line(b"c", &mut out));
    assert_eq!(out, b"b\nc\n".to_vec());
    assert_eq!(sel.lines_read, 3);

    let mut sel = Selector::new("2..", Options { show_line_number: true }).unwrap();
    let mut out = Vec::new();
    assert!(sel.select_line(b"a", &mut out));
    assert!(sel.select_line(b"b", &mut out));
    assert_eq!(out, b"2\tb\n".to_vec());
}
