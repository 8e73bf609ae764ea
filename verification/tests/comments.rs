use ron_reboot::basic::block_comment;
use ron_reboot::error::BaseErrorKind;
use ron_reboot::error::ErrorTree;
use ron_reboot::error::Expectation;
use ron_reboot::error::InputParseErr;
use ron_reboot::Input;

fn chars(s: &str) -> Vec<char> {
    s.chars().collect()
}

#[test]
fn basic_block_comment() {
    let src = chars("/* Hello I am a block comment! */");
    let (_, taken) = block_comment(Input::new(&src)).ok().unwrap();
    assert_eq!(
        taken.fragment_string(),
        "/* Hello I am a block comment! */"
    );

    let src = chars("/* Hello I am a\n block comment! */ parser ignores this */ /*");
    let (_, taken) = block_comment(Input::new(&src)).ok().unwrap();
    assert_eq!(taken.fragment_string(), "/* Hello I am a\n block comment! */");
}

#[test]
fn nested_block_comment() {
    let src = chars("/* Hello I am /* a nested */ block comment! */");
    let (_, taken) = block_comment(Input::new(&src)).ok().unwrap();
    assert_eq!(
        taken.fragment_string(),
        "/* Hello I am /* a nested */ block comment! */"
    );
}

#[test]
fn unterminated_block_comment_is_fatal() {
    let src = chars("/* unterminated");
    let r = block_comment(Input::new(&src));
    match r {
        Err(InputParseErr::Fatal(ErrorTree::Base { location, kind })) => {
            assert_eq!(location, src.len());
            assert!(matches!(
                kind,
                BaseErrorKind::Expected(Expectation::BlockCommentEnd)
            ));
        }
        _ => panic!("expected a fatal missing-comment-end error"),
    }
}

#[test]
fn missing_opener_is_recoverable() {
    let src = chars("not a comment");
    let r = block_comment(Input::new(&src));
    assert!(matches!(r, Err(InputParseErr::Recoverable(_))));
}
