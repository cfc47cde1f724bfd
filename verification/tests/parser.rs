use firn::parser::{Node, NodeParseResult};

fn chars(s: &str) -> Vec<char> {
    s.chars().collect()
}

#[test]
fn test_parse_c0() {
    let text = String::from("\x07world");
    let result = Node::parse(&chars(&text), 0);
    assert!(matches!(result, NodeParseResult::Match(_, Node::C0Control('\x07'))));
}

#[test]
fn test_parse_c1() {
    let text = String::from("\x1B\x40world");
    let result = Node::parse(&chars(&text), 0);
    assert!(matches!(result, NodeParseResult::Match(_, Node::C1Control('\x40'))));
}

#[test]
fn test_parse_control_sequence() {
    let text = String::from("\x1B[0;1;2!mworld");
    let result = Node::parse(&chars(&text), 0);
    assert!(matches!(
        result,
        NodeParseResult::Match(
            _,
            Node::ControlSequence {
                parameter_bytes: Some(parameter_bytes),
                intermediate_bytes: Some(intermediate_bytes),
                final_byte
            }
        ) if parameter_bytes == "0;1;2" && intermediate_bytes == "!" && final_byte == 'm'
    ));
}

#[test]
fn test_parse_control_sequence_without_parameter_bytes() {
    let text = String::from("\x1B[!mworld");
    let result = Node::parse(&chars(&text), 0);
    assert!(matches!(
        result,
        NodeParseResult::Match(
            _,
            Node::ControlSequence {
                parameter_bytes: None,
                intermediate_bytes: Some(intermediate_bytes),
                final_byte
            }
        ) if intermediate_bytes == "!" && final_byte == 'm'
    ));
}

#[test]
fn test_parse_control_sequence_without_intermediate_bytes() {
    let text = String::from("\x1B[0;1;2mworld");
    let result = Node::parse(&chars(&text), 0);
    assert!(matches!(
        result,
        NodeParseResult::Match(
            _,
            Node::ControlSequence {
                parameter_bytes: Some(parameter_bytes),
                intermediate_bytes: None,
                final_byte
            }
        ) if parameter_bytes == "0;1;2" && final_byte == 'm'
    ));
}

#[test]
fn test_parse_independent_control_function() {
    let text = String::from("\x1B\x60world");
    let result = Node::parse(&chars(&text), 0);
    assert!(matches!(
        result,
        NodeParseResult::Match(_, Node::IndependentControlFunction('\x60'))
    ));
}

#[test]
fn test_parse_text() {
    let text = String::from("Hello, world");
    let result = Node::parse(&chars(&text), 0);
    assert!(matches!(
        result,
        NodeParseResult::Match(_, Node::Text(text)) if text == "Hello, world"
    ));
}

#[test]
fn test_parse_control_string() {
    let text = String::from("\x1B]0;Hello\x07world");
    let result = Node::parse(&chars(&text), 0);
    assert!(matches!(
        result,
        NodeParseResult::Match(_, Node::ControlString { opening: ']', character_string })
            if character_string == "0;Hello"
    ));
}

#[test]
fn control_sequence_leaves_rest_unconsumed() {
    // "\x1B[0;1;2!m" is nine characters; "REST" must stay unconsumed
    let text = chars("\x1B[0;1;2!mREST");
    match Node::parse(&text, 0) {
        NodeParseResult::Match(next, Node::ControlSequence { .. }) => assert_eq!(next, 9),
        other => panic!("unexpected parse outcome: {:?}", other),
    }
}

#[test]
fn control_string_leaves_rest_unconsumed() {
    // ESC, ']', "0;titl", BEL: nine characters in all
    let text = chars("\x1B]0;titl\x07REST");
    match Node::parse(&text, 0) {
        NodeParseResult::Match(next, Node::ControlString { opening, character_string }) => {
            assert_eq!(opening, ']');
            assert_eq!(character_string, "0;titl");
            assert_eq!(next, 9);
        },
        other => panic!("unexpected parse outcome: {:?}", other),
    }
}

#[test]
fn control_string_terminated_by_st() {
    let text = chars("\x1B]body\x1B\x5Cafter");
    match Node::parse(&text, 0) {
        NodeParseResult::Match(next, Node::ControlString { opening, character_string }) => {
            assert_eq!(opening, ']');
            assert_eq!(character_string, "body");
            assert_eq!(next, 8);
        },
        other => panic!("unexpected parse outcome: {:?}", other),
    }
}

#[test]
fn truncated_inputs_are_indeterminate() {
    for s in ["", "\x1B", "\x1B[", "\x1B[0;1", "\x1B[0;1;2!", "\x1B]0;tit", "\x1B]0;tit\x1B"] {
        let text = chars(s);
        assert!(
            matches!(Node::parse(&text, 0), NodeParseResult::Indeterminate),
            "expected indeterminate for {:?}",
            s
        );
    }
}

#[test]
fn text_matches_at_end_of_input() {
    // a text run at the end of the buffer is matched, not held back
    let text = chars("abc");
    assert!(matches!(
        Node::parse(&text, 0),
        NodeParseResult::Match(3, Node::Text(t)) if t == "abc"
    ));
}

#[test]
fn unknown_matches_a_single_stray_character() {
    // DEL is a control character but fits no other classification
    let text = chars("\x7Fxyz");
    assert!(matches!(Node::parse(&text, 0), NodeParseResult::Match(1, Node::Unknown('\x7F'))));
}

#[test]
fn parse_resumes_mid_buffer() {
    let text = chars("ab\x07cd");
    match Node::parse(&text, 0) {
        NodeParseResult::Match(next, Node::Text(t)) => {
            assert_eq!(t, "ab");
            assert_eq!(next, 2);
            assert!(matches!(
                Node::parse(&text, next),
                NodeParseResult::Match(3, Node::C0Control('\x07'))
            ));
        },
        other => panic!("unexpected parse outcome: {:?}", other),
    }
}
