use ron_reboot::ast::Attribute;
use ron_reboot::ast::Expr;
use ron_reboot::ast::Extension;
use ron_reboot::ast::Integer;
use ron_reboot::ast::Sign;
use ron_reboot::error::BaseErrorKind;
use ron_reboot::error::ErrorTree;
use ron_reboot::error::Expectation;
use ron_reboot::ron;

fn unsigned_of(e: &Expr) -> u64 {
    match e {
        Expr::Integer(Integer::Unsigned(u)) => u.number,
        _ => panic!("expected an unsigned integer"),
    }
}

#[test]
fn empty_struct() {
    let d = ron("()").ok().unwrap();
    match d.expr.value {
        Expr::Struct(s) => {
            assert!(s.ident.is_none());
            assert_eq!(s.fields.value.len(), 0);
        }
        _ => panic!("expected a struct"),
    }
}

#[test]
fn anonymous_struct_with_trailing_comma() {
    let d = ron("(a: 1, b: -2,)").ok().unwrap();
    match d.expr.value {
        Expr::Struct(s) => {
            assert!(s.ident.is_none());
            assert_eq!(s.fields.value.len(), 2);
            assert_eq!(s.fields.value[0].value.key.value.0, "a");
            assert_eq!(unsigned_of(&s.fields.value[0].value.value.value), 1);
            assert_eq!(s.fields.value[1].value.key.value.0, "b");
            assert!(s.fields.value[0].end <= s.fields.value[1].start);
            match &s.fields.value[1].value.value.value {
                Expr::Integer(Integer::Signed(si)) => {
                    assert_eq!(si.sign, Sign::Negative);
                    assert_eq!(si.number, 2);
                }
                _ => panic!("expected a signed integer"),
            }
        }
        _ => panic!("expected a struct"),
    }
}

#[test]
fn named_struct_with_list() {
    let d = ron("Foo(x: [1, 2, 3])").ok().unwrap();
    match d.expr.value {
        Expr::Struct(s) => {
            assert_eq!(s.ident.as_ref().unwrap().value.0, "Foo");
            assert_eq!(s.fields.value.len(), 1);
            assert_eq!(s.fields.value[0].value.key.value.0, "x");
            match &s.fields.value[0].value.value.value {
                Expr::List(l) => {
                    let ns: Vec<u64> = l.elements.iter().map(|e| unsigned_of(&e.value)).collect();
                    assert_eq!(ns, vec![1, 2, 3]);
                }
                _ => panic!("expected a list"),
            }
        }
        _ => panic!("expected a struct"),
    }
}

#[test]
fn enable_attributes() {
    let d = ron("#![enable(unwrap_newtypes, implicit_some)]\ntrue").ok().unwrap();
    assert_eq!(d.attributes.len(), 1);
    match &d.attributes[0].value {
        Attribute::Enable(exts) => {
            let got: Vec<Extension> = exts.value.iter().map(|e| e.value).collect();
            assert_eq!(got, vec![Extension::UnwrapNewtypes, Extension::ImplicitSome]);
        }
    }
    assert!(matches!(d.expr.value, Expr::Bool(true)));
}

#[test]
fn attribute_with_trailing_comma() {
    let d = ron("#![enable(implicit_some,)] false").ok().unwrap();
    assert_eq!(d.attributes.len(), 1);
    assert!(matches!(d.expr.value, Expr::Bool(false)));
}

#[test]
fn comments_around_expression() {
    let d = ron("/* a /* b */ c */ 42").ok().unwrap();
    assert_eq!(unsigned_of(&d.expr.value), 42);

    // past the outer comment, a stray closer is left over: an error
    assert!(ron("/* a /* b */ c */ 42 */").is_err());
}

#[test]
fn eol_comments_are_whitespace() {
    let d = ron("// leading\n42 // trailing").ok().unwrap();
    assert_eq!(unsigned_of(&d.expr.value), 42);
}

#[test]
fn tuple_not_struct() {
    let d = ron("(1, 2, 3)").ok().unwrap();
    match d.expr.value {
        Expr::Tuple(l) => {
            let ns: Vec<u64> = l.elements.iter().map(|e| unsigned_of(&e.value)).collect();
            assert_eq!(ns, vec![1, 2, 3]);
        }
        _ => panic!("expected a tuple"),
    }
}

#[test]
fn trailing_comma_same_elements() {
    let a = ron("(1, 2, 3)").ok().unwrap();
    let b = ron("(1, 2, 3,)").ok().unwrap();
    let ns = |d: &ron_reboot::ast::Ron| -> Vec<u64> {
        match &d.expr.value {
            Expr::Tuple(l) => l.elements.iter().map(|e| unsigned_of(&e.value)).collect(),
            _ => panic!("expected a tuple"),
        }
    };
    assert_eq!(ns(&a), ns(&b));
}

#[test]
fn map_entries_in_source_order() {
    let d = ron("{\"b\": 2, \"a\": 1}").ok().unwrap();
    match d.expr.value {
        Expr::RonMap(m) => {
            assert_eq!(m.entries.value.len(), 2);
            match &m.entries.value[0].value.key.value {
                Expr::Str(k) => assert_eq!(k, "b"),
                _ => panic!("expected a string key"),
            }
            match &m.entries.value[1].value.key.value {
                Expr::Str(k) => assert_eq!(k, "a"),
                _ => panic!("expected a string key"),
            }
            assert!(m.entries.value[0].end <= m.entries.value[1].start);
        }
        _ => panic!("expected a map"),
    }
}

#[test]
fn spans_cover_the_expression() {
    let d = ron("  42  ").ok().unwrap();
    assert_eq!(d.expr.start, 2);
    assert_eq!(d.expr.end, 4);
}

#[test]
fn struct_field_without_colon_is_fatal() {
    let r = ron("(a 1)");
    match r {
        Err(ErrorTree::Stack { base, contexts }) => {
            match *base {
                ErrorTree::Base { location, kind } => {
                    assert_eq!(location, 3);
                    assert!(matches!(
                        kind,
                        BaseErrorKind::Expected(Expectation::Char(':'))
                    ));
                }
                _ => panic!("expected a base error under the context"),
            }
            assert!(contexts.iter().any(|(_, label)| label == "expression"));
        }
        _ => panic!("expected a context-wrapped error"),
    }
}

#[test]
fn leftover_input_expects_eof() {
    let r = ron("true garbage");
    match r {
        Err(ErrorTree::Base { location, kind }) => {
            assert_eq!(location, 5);
            assert!(matches!(kind, BaseErrorKind::Expected(Expectation::Eof)));
        }
        _ => panic!("expected an end-of-input error"),
    }
}

#[test]
fn unknown_attribute_name_is_fatal() {
    assert!(ron("#![disable(implicit_some)] true").is_err());
}

#[test]
fn unknown_extension_is_fatal() {
    assert!(ron("#![enable(bogus)] true").is_err());
}

#[test]
fn attribute_tokens_may_be_spaced() {
    let d = ron("# ! [ enable ( implicit_some ) ] true").ok().unwrap();
    assert_eq!(d.attributes.len(), 1);
    match &d.attributes[0].value {
        Attribute::Enable(exts) => {
            assert_eq!(exts.value.len(), 1);
            assert_eq!(exts.value[0].value, Extension::ImplicitSome);
        }
    }
    assert!(matches!(d.expr.value, Expr::Bool(true)));
}

#[test]
fn struct_with_string_field() {
    let d = ron("\n(\n    foo: false,\n    bar: \"bar\",\n\n    extension_baz: true,\n)\n        ").ok().unwrap();
    match d.expr.value {
        Expr::Struct(s) => {
            assert!(s.ident.is_none());
            assert_eq!(s.fields.value.len(), 3);
            assert_eq!(s.fields.value[0].value.key.value.0, "foo");
            assert!(matches!(s.fields.value[0].value.value.value, Expr::Bool(false)));
            assert_eq!(s.fields.value[1].value.key.value.0, "bar");
            match &s.fields.value[1].value.value.value {
                Expr::Str(x) => assert_eq!(x, "bar"),
                _ => panic!("expected a plain string value"),
            }
            assert_eq!(s.fields.value[2].value.key.value.0, "extension_baz");
            assert!(matches!(s.fields.value[2].value.value.value, Expr::Bool(true)));
        }
        _ => panic!("expected a struct"),
    }
}

#[test]
fn struct_with_decimal_field() {
    let d = ron("(rate: 1.5e-3)").ok().unwrap();
    match d.expr.value {
        Expr::Struct(s) => {
            assert_eq!(s.fields.value.len(), 1);
            match &s.fields.value[0].value.value.value {
                Expr::Decimal(dc) => {
                    assert_eq!(dc.whole, Some(1));
                    assert_eq!(dc.fractional, 5);
                    assert_eq!(dc.exponent, Some((Some(Sign::Negative), 3)));
                }
                _ => panic!("expected a decimal value"),
            }
        }
        _ => panic!("expected a struct"),
    }
}
