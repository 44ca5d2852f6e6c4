use re::compile::compile;
use re::parse::ParseError;

#[test]
fn unterminated_group() {
    assert_eq!(compile("(abc"), Err(ParseError::UnexpectedEndOfInput));
}

#[test]
fn leading_quantifier() {
    assert_eq!(compile("*abc"), Err(ParseError::UnexpectedChar('*', 0)));
}

#[test]
fn trailing_backslash() {
    assert_eq!(compile("ab\\"), Err(ParseError::UnexpectedEndOfInput));
}

#[test]
fn misplaced_metacharacters_report_their_position() {
    assert_eq!(compile("ab)"), Err(ParseError::UnexpectedChar(')', 2)));
    assert_eq!(compile("a||b"), Err(ParseError::UnexpectedChar('|', 2)));
    assert_eq!(compile("a**"), Err(ParseError::UnexpectedChar('*', 2)));
    assert_eq!(compile("(+)"), Err(ParseError::UnexpectedChar('+', 1)));
    assert_eq!(compile("|a"), Err(ParseError::UnexpectedChar('|', 0)));
    assert_eq!(compile("(a|)"), Err(ParseError::UnexpectedChar(')', 3)));
}

#[test]
fn positions_count_characters() {
    assert_eq!(compile("éé?+"), Err(ParseError::UnexpectedChar('+', 3)));
}

#[test]
fn engine_compile_reports_errors() {
    assert!(matches!(
        re::re::compile("a(b"),
        Err(ParseError::UnexpectedEndOfInput)
    ));
    assert!(matches!(
        re::re::compile("?"),
        Err(ParseError::UnexpectedChar('?', 0))
    ));
}
