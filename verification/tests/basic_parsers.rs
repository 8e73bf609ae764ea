use ron_reboot::ast::Extension;
use ron_reboot::basic::eol_comment;
use ron_reboot::basic::multispace0;
use ron_reboot::basic::multispace1;
use ron_reboot::basic::nothing;
use ron_reboot::basic::one_char;
use ron_reboot::basic::one_of_chars;
use ron_reboot::basic::one_of_tags;
use ron_reboot::basic::tag;
use ron_reboot::error::InputParseErr;
use ron_reboot::Input;

fn chars(s: &str) -> Vec<char> {
    s.chars().collect()
}

#[test]
fn nothing_consumes_nothing() {
    let src = chars("abc");
    let (rest, taken) = nothing(Input::new(&src)).ok().unwrap();
    assert_eq!(rest.pos, 0);
    assert_eq!(taken.fragment_string(), "");
}

#[test]
fn multispace_runs() {
    let src = chars("  \t\nx");
    let (rest, taken) = multispace0(Input::new(&src)).ok().unwrap();
    assert_eq!(rest.pos, 4);
    assert_eq!(taken.fragment_string(), "  \t\n");

    let src = chars("x");
    let (rest, _) = multispace0(Input::new(&src)).ok().unwrap();
    assert_eq!(rest.pos, 0);
    assert!(matches!(
        multispace1(Input::new(&src)),
        Err(InputParseErr::Recoverable(_))
    ));
}

#[test]
fn eol_comment_stops_before_line_break() {
    let src = chars("// note\nrest");
    let (rest, taken) = eol_comment(Input::new(&src)).ok().unwrap();
    assert_eq!(taken.fragment_string(), "// note");
    assert_eq!(rest.pos, 7);
}

#[test]
fn tag_matches_literals() {
    let src = chars("enable(x)");
    let (rest, taken) = tag("enable", Input::new(&src)).ok().unwrap();
    assert_eq!(taken.fragment_string(), "enable");
    assert_eq!(rest.pos, 6);
    assert!(matches!(
        tag("disable", Input::new(&src)),
        Err(InputParseErr::Recoverable(_))
    ));
}

#[test]
fn one_char_is_fatal_on_mismatch() {
    let src = chars(":x");
    let (rest, c) = one_char(':', Input::new(&src)).ok().unwrap();
    assert_eq!(c, ':');
    assert_eq!(rest.pos, 1);
    assert!(matches!(
        one_char(';', Input::new(&src)),
        Err(InputParseErr::Fatal(_))
    ));
}

#[test]
fn one_of_chars_maps_by_position() {
    let src = chars("-5");
    let r: Result<_, _> = one_of_chars("+-", &[1u8, 2u8], Input::new(&src));
    let (rest, v) = r.ok().unwrap();
    assert_eq!(v, 2);
    assert_eq!(rest.pos, 1);
    let src = chars("x");
    assert!(matches!(
        one_of_chars("+-", &[1u8, 2u8], Input::new(&src)),
        Err(InputParseErr::Fatal(_))
    ));
}

#[test]
fn one_of_tags_takes_the_first_match() {
    let src = chars("implicit_some)");
    let tags: [&str; 2] = ["unwrap_newtypes", "implicit_some"];
    let mapping: [Extension; 2] = [Extension::UnwrapNewtypes, Extension::ImplicitSome];
    let (rest, v) = one_of_tags(&tags, &mapping, Input::new(&src)).ok().unwrap();
    assert_eq!(v, Extension::ImplicitSome);
    assert_eq!(rest.pos, 13);
    let src = chars("neither");
    assert!(matches!(
        one_of_tags(&tags, &mapping, Input::new(&src)),
        Err(InputParseErr::Fatal(_))
    ));
}

#[test]
fn line_and_column() {
    let src = chars("ab\ncd");
    let input = Input::new(&src).advance(4);
    assert_eq!(input.location(), (2, 2));
    let start = Input::new(&src);
    assert_eq!(start.location(), (1, 1));
}
