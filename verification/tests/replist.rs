use text_mirror::replist::parse_replacements;

#[test]
fn splits_each_line_at_the_first_comma() {
    let pairs = parse_replacements("foo,bar,baz");
    assert_eq!(pairs, vec![("foo".to_string(), "bar,baz".to_string())]);
}

#[test]
fn skips_lines_without_a_comma() {
    let pairs = parse_replacements("nocomma\na,b\nalso no comma");
    assert_eq!(pairs, vec![("a".to_string(), "b".to_string())]);
}

#[test]
fn several_pairs_keep_their_order() {
    let pairs = parse_replacements("a,b\nc,d\ne,f\n");
    assert_eq!(
        pairs,
        vec![
            ("a".to_string(), "b".to_string()),
            ("c".to_string(), "d".to_string()),
            ("e".to_string(), "f".to_string()),
        ]
    );
}

#[test]
fn strips_carriage_returns_before_newlines() {
    let pairs = parse_replacements("a,b\r\nc,d");
    assert_eq!(
        pairs,
        vec![("a".to_string(), "b".to_string()), ("c".to_string(), "d".to_string())]
    );
}

#[test]
fn empty_file_yields_no_pairs() {
    assert_eq!(parse_replacements(""), Vec::new());
    assert_eq!(parse_replacements("\n\n"), Vec::new());
}

#[test]
fn leading_comma_yields_an_empty_pattern() {
    let pairs = parse_replacements(",x");
    assert_eq!(pairs, vec![("".to_string(), "x".to_string())]);
}
