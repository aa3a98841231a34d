use snippet_library::modulo::{
    action_outcome, decode_action, strip_nul, unit_reply, write_result, LibraryRequest,
    LIBRARY_ACTION_DELETE, LIBRARY_ACTION_SAVE, LIBRARY_ACTION_SET_STARTUP,
};

fn read(buffer: &[u8]) -> String {
    let end = buffer.iter().position(|b| *b == 0).expect("missing NUL terminator");
    String::from_utf8(buffer[..end].to_vec()).unwrap()
}

#[test]
fn write_result_copies_short_messages() {
    let mut buffer = vec![1u8; 16];
    write_result(&mut buffer, 16, "saved");
    assert_eq!(read(&buffer), "saved");
}

#[test]
fn write_result_truncates_on_char_boundaries() {
    let mut buffer = vec![1u8; 6];
    write_result(&mut buffer, 6, "ab\u{e9}cd");
    assert_eq!(read(&buffer), "ab\u{e9}c");
}

#[test]
fn write_result_ignores_invalid_buffers() {
    let mut buffer = vec![1u8; 1];
    write_result(&mut buffer, 0, "ignored");
    write_result(&mut buffer, -1, "ignored");
    assert_eq!(buffer[0], 1);
}

#[test]
fn write_result_backs_off_inside_a_character() {
    // "é" takes two bytes; with room for three bytes the cut falls inside it.
    let mut buffer = vec![7u8; 4];
    write_result(&mut buffer, 4, "a\u{e9}z");
    assert_eq!(buffer, vec![b'a', 0xc3, 0xa9, 0]);
    let mut buffer = vec![7u8; 3];
    write_result(&mut buffer, 3, "a\u{e9}z");
    assert_eq!(buffer, vec![b'a', 0, 7]);
    let mut buffer = vec![7u8; 1];
    write_result(&mut buffer, 1, "abc");
    assert_eq!(buffer, vec![0]);
}

#[test]
fn decodes_window_actions() {
    let s = |v: &str| v.to_string();
    assert_eq!(
        decode_action(LIBRARY_ACTION_SAVE, None, s(":t"), s("r"), s("l"), 0, false),
        LibraryRequest::Save { id: None, trigger: s(":t"), replacement: s("r"), label: s("l") }
    );
    assert_eq!(
        decode_action(LIBRARY_ACTION_DELETE, Some(s("4")), s(""), s(""), s(""), 0, false),
        LibraryRequest::Delete { id: s("4") }
    );
    assert_eq!(
        decode_action(LIBRARY_ACTION_DELETE, None, s(""), s(""), s(""), 0, false),
        LibraryRequest::Rejected { message: s("missing snippet id") }
    );
    assert_eq!(
        decode_action(LIBRARY_ACTION_SET_STARTUP, None, s(""), s(""), s(""), 2, true),
        LibraryRequest::SetStartup { enabled: true }
    );
    assert_eq!(
        decode_action(LIBRARY_ACTION_SET_STARTUP, None, s(""), s(""), s(""), 0, true),
        LibraryRequest::SetStartup { enabled: false }
    );
    assert_eq!(
        decode_action(LIBRARY_ACTION_SET_STARTUP, None, s(""), s(""), s(""), 1, false),
        LibraryRequest::Rejected { message: s("startup control is not supported on this platform") }
    );
    assert_eq!(
        decode_action(9, None, s(""), s(""), s(""), 0, true),
        LibraryRequest::Rejected { message: s("unknown library action: 9") }
    );
    assert_eq!(
        decode_action(-17, None, s(""), s(""), s(""), 0, true),
        LibraryRequest::Rejected { message: s("unknown library action: -17") }
    );
    assert_eq!(
        decode_action(i32::MIN, None, s(""), s(""), s(""), 0, true),
        LibraryRequest::Rejected { message: s("unknown library action: -2147483648") }
    );
}

#[test]
fn outcomes_become_codes() {
    assert_eq!(action_outcome(Some(Ok("7".to_string()))), (0, "7".to_string()));
    assert_eq!(action_outcome(Some(Err("bad".to_string()))), (1, "bad".to_string()));
    assert_eq!(
        action_outcome(None),
        (1, "an internal error occurred while processing the request".to_string())
    );
    assert_eq!(unit_reply(Ok(())), Ok(String::new()));
    assert_eq!(unit_reply(Err("no".to_string())), Err("no".to_string()));
}

#[test]
fn nul_characters_are_dropped() {
    assert_eq!(strip_nul("a\0b\0\0c"), "abc");
    assert_eq!(strip_nul("plain"), "plain");
    assert_eq!(strip_nul(""), "");
}
