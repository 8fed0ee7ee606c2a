use ozes::parser::parse;
use ozes::parser::Command;

fn build_commands(input: &str) -> Result<Vec<Command>, ozes::parser::ParseError> {
    parse(input.as_bytes().to_vec())
}

#[test]
fn given_valid_expresion_should_be_return_command() {
    let cases = [
        (
            "subscribe foo with group bar",
            Command::Subscriber { queue_name: b"foo".to_vec(), group_name: b"bar".to_vec() },
        ),
        (
            "subscribe foo with group bar;",
            Command::Subscriber { queue_name: b"foo".to_vec(), group_name: b"bar".to_vec() },
        ),
        ("publisher foo", Command::Publisher { queue_name: b"foo".to_vec() }),
        ("publisher foo;", Command::Publisher { queue_name: b"foo".to_vec() }),
        (
            "message +l16 #\"baz\"",
            Command::Message { message: b"baz".to_vec(), len: 16 },
        ),
        (
            "message +l16 #\"baz\";",
            Command::Message { message: b"baz".to_vec(), len: 16 },
        ),
    ];
    for (input, expected) in cases {
        let parsed = build_commands(input);
        match parsed {
            Ok(commands) => {
                let command = &commands[0];
                assert_eq!(&expected, command, "expected {expected:?} but got {command:?}");
            }
            Err(e) => assert!(
                false,
                "fail to parse the command, expected {expected:?}, but got error {:?}",
                String::from_utf8_lossy(e.message())
            ),
        }
    }
}

#[test]
fn given_mutli_valid_expresion_should_be_return_command() {
    let cases = [
        (
            "subscribe foo with group bar",
            Command::Subscriber { queue_name: b"foo".to_vec(), group_name: b"bar".to_vec() },
        ),
        (
            "publisher foo; message +l16 #\"baz\";",
            Command::Publisher { queue_name: b"foo".to_vec() },
        ),
        (
            "message +l16 #\"baz\"",
            Command::Message { message: b"baz".to_vec(), len: 16 },
        ),
    ];
    for (input, expected) in cases {
        let parsed = build_commands(input);
        match parsed {
            Ok(commands) => {
                let command = &commands[0];
                assert_eq!(&expected, command, "expected {expected:?} but got {command:?}");
            }
            Err(e) => assert!(
                false,
                "fail to parse the command, expected {expected:?}, but got error {:?}",
                String::from_utf8_lossy(e.message())
            ),
        }
    }
}

#[test]
fn a_frame_may_hold_several_commands() {
    let commands = build_commands("publisher foo; message +l16 #\"baz\"").unwrap();
    assert_eq!(commands.len(), 2);
    assert_eq!(commands[0], Command::Publisher { queue_name: b"foo".to_vec() });
    assert_eq!(commands[1], Command::Message { message: b"baz".to_vec(), len: 16 });
}

#[test]
fn ok_and_error_commands_parse() {
    let commands = build_commands("ok +l42 #").unwrap();
    assert_eq!(commands, vec![Command::Okay { len: 42 }]);
    let commands = build_commands("error \"boom\"").unwrap();
    assert_eq!(commands, vec![Command::Error { message: b"boom".to_vec() }]);
}

#[test]
fn the_declared_length_is_recorded_verbatim() {
    let commands = build_commands("message +l5 #\"hello\"").unwrap();
    assert_eq!(commands, vec![Command::Message { message: b"hello".to_vec(), len: 5 }]);
}

#[test]
fn a_command_may_not_start_with_a_name() {
    let err = build_commands("foo bar").unwrap_err();
    assert_eq!(
        err.message().as_slice(),
        b"miss expression, expression cannot start with name"
    );
}

#[test]
fn a_message_without_its_length_marker_is_refused() {
    let err = build_commands("message \"baz\"").unwrap_err();
    assert_eq!(err.message().as_slice(), b"expected a +l length marker");
    let err = build_commands("message +l12x #\"baz\"").unwrap_err();
    assert_eq!(err.message().as_slice(), b"expected a +l length marker");
    let err = build_commands("message +l12 \"baz\"").unwrap_err();
    assert_eq!(err.message().as_slice(), b"expected # after the length marker");
}

#[test]
fn a_subscribe_missing_its_group_is_refused() {
    let err = build_commands("subscribe foo bar").unwrap_err();
    assert_eq!(err.message().as_slice(), b"expected with but got name");
    let err = build_commands("subscribe foo with bar").unwrap_err();
    assert_eq!(err.message().as_slice(), b"expected group but got name");
    let err = build_commands("subscribe foo with group").unwrap_err();
    assert_eq!(err.message().as_slice(), b"expected name but got eof");
}

#[test]
fn a_doubled_semicolon_is_refused() {
    let err = build_commands("publisher foo;; publisher bar").unwrap_err();
    assert_eq!(
        err.message().as_slice(),
        b"miss expression, expression cannot start with ;"
    );
}

#[test]
fn an_empty_input_parses_to_no_commands() {
    assert_eq!(build_commands("").unwrap(), vec![]);
    assert_eq!(build_commands("   ").unwrap(), vec![]);
}

#[test]
fn an_oversized_declared_length_is_refused() {
    let err = build_commands("message +l99999999999999999999999 #\"x\"").unwrap_err();
    assert_eq!(err.message().as_slice(), b"expected a +l length marker");
}
