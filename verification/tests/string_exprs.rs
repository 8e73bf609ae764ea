use ron_reboot::ast::Expr;
use ron_reboot::error::BaseErrorKind;
use ron_reboot::error::ErrorTree;
use ron_reboot::error::Expectation;
use ron_reboot::ron;

fn parse_expr(s: &str) -> Expr {
    ron(s).ok().unwrap().expr.value
}

fn base_of(t: &ErrorTree) -> &ErrorTree {
    match t {
        ErrorTree::Stack { base, .. } => base_of(base),
        other => other,
    }
}

#[test]
fn plain_string_is_zero_escape() {
    match parse_expr("\"hello world\"") {
        Expr::Str(t) => assert_eq!(t, "hello world"),
        _ => panic!("expected a plain string"),
    }
}

#[test]
fn empty_string() {
    match parse_expr("\"\"") {
        Expr::Str(t) => assert_eq!(t, ""),
        _ => panic!("expected a plain string"),
    }
}

#[test]
fn escaped_string_is_unescaped() {
    match parse_expr("\"a\\nb\\t\\\\c\\\"d\"") {
        Expr::String(t) => assert_eq!(t, "a\nb\t\\c\"d"),
        _ => panic!("expected an escaped string"),
    }
}

#[test]
fn unicode_escape() {
    match parse_expr("\"he\\u{2764}llo\"") {
        Expr::String(t) => assert_eq!(t, "he\u{2764}llo"),
        _ => panic!("expected an escaped string"),
    }
}

#[test]
fn escaped_whitespace_is_discarded() {
    match parse_expr("\"a\\   b\"") {
        Expr::String(t) => assert_eq!(t, "ab"),
        _ => panic!("expected an escaped string"),
    }
}

#[test]
fn surrogate_escape_is_fatal() {
    let r = ron("\"\\u{D800}\"");
    match r {
        Err(t) => match base_of(&t) {
            ErrorTree::Base { kind, .. } => match kind {
                BaseErrorKind::Expected(Expectation::UnicodeHexSequence { got }) => {
                    assert_eq!(*got, 0xD800);
                }
                _ => panic!("expected a unicode-sequence error"),
            },
            _ => panic!("expected a base error"),
        },
        Ok(_) => panic!("expected a surrogate error"),
    }
}

#[test]
fn empty_unicode_escape_is_fatal() {
    let r = ron("\"\\u{}\"");
    match r {
        Err(t) => match base_of(&t) {
            ErrorTree::Base { kind, .. } => {
                assert!(matches!(
                    kind,
                    BaseErrorKind::Expected(Expectation::HexDigit)
                ));
            }
            _ => panic!("expected a base error"),
        },
        Ok(_) => panic!("expected a hex-digit error"),
    }
}

#[test]
fn unknown_escape_is_an_error() {
    assert!(ron("\"a\\qb\"").is_err());
}

#[test]
fn unterminated_string_is_an_error() {
    assert!(ron("\"abc").is_err());
}
