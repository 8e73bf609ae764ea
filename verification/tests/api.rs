use ron_reboot::ast::Attribute;
use ron_reboot::ast::Decimal;
use ron_reboot::ast::Expr;
use ron_reboot::ast::Extension;
use ron_reboot::ast::Ident;
use ron_reboot::ast::Integer;
use ron_reboot::ast::List;
use ron_reboot::ast::RonMap;
use ron_reboot::ast::Sign;
use ron_reboot::ast::SignedInteger;
use ron_reboot::ast::Spanned;
use ron_reboot::ast::Struct;
use ron_reboot::ast::UnsignedInteger;
use ron_reboot::Input;

#[test]
fn sign_from_char() {
    assert_eq!(Sign::from_char('+'), Some(Sign::Positive));
    assert_eq!(Sign::from_char('-'), Some(Sign::Negative));
    assert_eq!(Sign::from_char('x'), None);
}

#[test]
fn integer_constructors() {
    assert_eq!(
        Integer::new_test(None, 5),
        Integer::Unsigned(UnsignedInteger::new(5))
    );
    assert_eq!(
        Integer::new_test(Some(Sign::Negative), 5),
        Integer::Signed(SignedInteger::new_test(Sign::Negative, 5))
    );
    assert!(matches!(
        UnsignedInteger::new(7).to_expr(),
        Expr::Integer(Integer::Unsigned(UnsignedInteger { number: 7 }))
    ));
    assert!(matches!(
        SignedInteger::new_test(Sign::Positive, 2).to_expr(),
        Expr::Integer(Integer::Signed(SignedInteger { sign: Sign::Positive, number: 2 }))
    ));
    assert!(matches!(
        Integer::new_test(None, 1).to_expr(),
        Expr::Integer(Integer::Unsigned(UnsignedInteger { number: 1 }))
    ));
}

#[test]
fn decimal_constructor() {
    let d = Decimal::new(Some(Sign::Negative), Some(1), 25, Some((None, 2)));
    assert_eq!(d.sign, Some(Sign::Negative));
    assert_eq!(d.whole, Some(1));
    assert_eq!(d.fractional, 25);
    assert_eq!(d.exponent, Some((None, 2)));
    assert!(matches!(d.to_expr(), Expr::Decimal(_)));
}

#[test]
fn expr_take_leaves_unit() {
    let mut e = Expr::Bool(true);
    let taken = e.take();
    assert!(matches!(taken, Expr::Bool(true)));
    assert!(matches!(e, Expr::Unit));
}

#[test]
fn spanned_test_builder() {
    let sp = Spanned::new_test(3u64);
    assert_eq!(sp.start, 0);
    assert_eq!(sp.end, 0);
    assert_eq!(sp.value, 3);
}

#[test]
fn spanned_equality_ignores_spans() {
    let a = Spanned::new(2, Integer::new_test(None, 42), 4);
    let b = Spanned::new_test(Integer::new_test(None, 42));
    assert!(a == b);
    let c = Spanned::new_test(Integer::new_test(Some(Sign::Negative), 42));
    assert!(a != c);
}

#[test]
fn attribute_test_builder() {
    let a = Attribute::enables_test(vec![Extension::ImplicitSome]);
    match a {
        Attribute::Enable(exts) => {
            assert_eq!(exts.value.len(), 1);
            assert_eq!(exts.value[0].value, Extension::ImplicitSome);
        }
    }
}

#[test]
fn container_test_builders() {
    let st = Struct::new_test(Some("Foo"), vec![("a", Expr::Bool(true))]);
    assert_eq!(st.ident.unwrap().value.0, "Foo");
    assert_eq!(st.fields.value.len(), 1);
    assert_eq!(st.fields.value[0].value.key.value.0, "a");
    assert!(matches!(
        st.fields.value[0].value.value.value,
        Expr::Bool(true)
    ));

    let anon = Struct::new_test(None, vec![]);
    assert!(anon.ident.is_none());
    assert_eq!(anon.fields.value.len(), 0);

    let m = RonMap::new_test(vec![(Expr::Bool(false), Expr::Unit)]);
    assert_eq!(m.entries.value.len(), 1);
    assert!(matches!(m.entries.value[0].value.key.value, Expr::Bool(false)));

    let l = List::new_test(vec![Expr::Unit, Expr::Bool(true)]);
    assert_eq!(l.elements.len(), 2);
}

#[test]
fn ident_from_input_copies_the_fragment() {
    let src: Vec<char> = "hello".chars().collect();
    let input = Input::new(&src);
    let id = Ident::from_input(input);
    assert_eq!(id.0, "hello");
}
