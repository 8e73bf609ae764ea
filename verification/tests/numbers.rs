use ron_reboot::ast::Expr;
use ron_reboot::ast::Integer;
use ron_reboot::ast::Sign;
use ron_reboot::error::BaseErrorKind;
use ron_reboot::error::ErrorTree;
use ron_reboot::ron;

fn parse_expr(s: &str) -> Expr {
    ron(s).ok().unwrap().expr.value
}

#[test]
fn unsigned_round_trip_values() {
    for n in [0u64, 1, 9, 10, 42, 12345678901234567890, u64::MAX] {
        match parse_expr(&n.to_string()) {
            Expr::Integer(Integer::Unsigned(u)) => assert_eq!(u.number, n),
            _ => panic!("expected an unsigned integer"),
        }
    }
}

#[test]
fn signed_integers() {
    match parse_expr("-7") {
        Expr::Integer(Integer::Signed(si)) => {
            assert_eq!(si.sign, Sign::Negative);
            assert_eq!(si.number, 7);
        }
        _ => panic!("expected a signed integer"),
    }
    match parse_expr("+3") {
        Expr::Integer(Integer::Signed(si)) => {
            assert_eq!(si.sign, Sign::Positive);
            assert_eq!(si.number, 3);
        }
        _ => panic!("expected a signed integer"),
    }
}

#[test]
fn decimal_with_exponent() {
    match parse_expr("1.5e-3") {
        Expr::Decimal(d) => {
            assert_eq!(d.sign, None);
            assert_eq!(d.whole, Some(1));
            assert_eq!(d.fractional, 5);
            assert_eq!(d.exponent, Some((Some(Sign::Negative), 3)));
        }
        _ => panic!("expected a decimal"),
    }
}

#[test]
fn decimal_forms() {
    match parse_expr(".5") {
        Expr::Decimal(d) => {
            assert_eq!(d.sign, None);
            assert_eq!(d.whole, None);
            assert_eq!(d.fractional, 5);
            assert_eq!(d.exponent, None);
        }
        _ => panic!("expected a decimal"),
    }
    match parse_expr("2.") {
        Expr::Decimal(d) => {
            assert_eq!(d.whole, Some(2));
            assert_eq!(d.fractional, 0);
            assert_eq!(d.exponent, None);
        }
        _ => panic!("expected a decimal"),
    }
    match parse_expr("1e5") {
        Expr::Decimal(d) => {
            assert_eq!(d.whole, Some(1));
            assert_eq!(d.fractional, 0);
            assert_eq!(d.exponent, Some((None, 5)));
        }
        _ => panic!("expected a decimal"),
    }
    match parse_expr("-1.25") {
        Expr::Decimal(d) => {
            assert_eq!(d.sign, Some(Sign::Negative));
            assert_eq!(d.whole, Some(1));
            assert_eq!(d.fractional, 25);
        }
        _ => panic!("expected a decimal"),
    }
}

fn base_of(t: &ErrorTree) -> &ErrorTree {
    match t {
        ErrorTree::Stack { base, .. } => base_of(base),
        other => other,
    }
}

#[test]
fn integer_overflow_is_fatal_external() {
    let r = ron("99999999999999999999");
    match r {
        Err(t) => match base_of(&t) {
            ErrorTree::Base { kind, .. } => {
                assert!(matches!(kind, BaseErrorKind::External(_)));
            }
            _ => panic!("expected a base error"),
        },
        Ok(_) => panic!("expected a numeric overflow error"),
    }
}

#[test]
fn exponent_overflow_is_fatal_external() {
    let r = ron("1e65536");
    match r {
        Err(t) => match base_of(&t) {
            ErrorTree::Base { kind, .. } => {
                assert!(matches!(kind, BaseErrorKind::External(_)));
            }
            _ => panic!("expected a base error"),
        },
        Ok(_) => panic!("expected an exponent overflow error"),
    }
}
