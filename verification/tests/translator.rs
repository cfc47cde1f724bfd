use firn::data::{DataComponent, Position};
use firn::translator::Translator;

#[test]
fn test_write_text() {
    let mut data = DataComponent::new();
    let mut translator = Translator::new();
    translator.write(b"hello world", &mut data);
    assert_eq!(data.render(10), "hello world");
    assert_eq!(data.get_active_position(), Position { row: 0, col: 10 });
}

#[test]
fn test_write_text_incomplete_utf8() {
    let mut data = DataComponent::new();
    let mut translator = Translator::new();

    let bytes = b"\xd0";
    // `bytes` is not valid utf8 (at least on its own...)
    assert!(matches!(String::from_utf8(bytes.to_vec()), Err(_)));

    translator.write(b"\xd0", &mut data);
    assert_eq!(data.render(10), "");
    assert_eq!(data.get_active_position(), Position { row: 0, col: 0 });
}

#[test]
fn test_split_utf8() {
    let mut data = DataComponent::new();
    let mut translator = Translator::new();

    let first_byte = b"\xd0";
    assert!(matches!(String::from_utf8(first_byte.to_vec()), Err(_)));

    let second_byte = b"\xa3";
    assert!(matches!(String::from_utf8(second_byte.to_vec()), Err(_)));

    assert_eq!(b"\xd0\xa3", "У".as_bytes());

    translator.write(first_byte, &mut data);
    translator.write(second_byte, &mut data);
    assert_eq!(data.render(10), "У");
    assert_eq!(data.get_active_position(), Position { row: 0, col: 0 });
}

#[test]
fn invalid_byte_becomes_replacement_character() {
    let mut data = DataComponent::new();
    let mut translator = Translator::new();
    translator.write(b"\xFF", &mut data);
    assert_eq!(data.render(10), "\u{FFFD}");
    // the stream keeps going after the damage
    translator.write(b"ok", &mut data);
    assert_eq!(data.render(10), "\u{FFFD}ok");
    assert_eq!(data.get_active_position(), Position { row: 0, col: 2 });
}

#[test]
fn invalid_sequence_mid_chunk_is_one_replacement() {
    let mut data = DataComponent::new();
    let mut translator = Translator::new();
    // 0xE0 0xA0 is the maximal subpart of one damaged scalar
    translator.write(b"a\xE0\xA0zb", &mut data);
    assert_eq!(data.render(10), "a\u{FFFD}zb");
}

#[test]
fn escape_sequence_split_across_writes() {
    let mut data = DataComponent::new();
    let mut translator = Translator::new();
    translator.write(b"hi", &mut data);
    translator.write(b"\x1B", &mut data);
    // the lone ESC is retained: nothing is guessed
    assert_eq!(data.render(10), "hi");
    translator.write(b"[", &mut data);
    assert_eq!(data.render(10), "hi");
    translator.write(b"C", &mut data);
    // ESC [ C is cursor-forward: the cursor moved onto a fresh blank cell
    assert_eq!(data.get_active_position(), Position { row: 0, col: 2 });
    assert_eq!(data.render(10), "hi");
}

#[test]
fn control_string_is_consumed_silently() {
    let mut data = DataComponent::new();
    let mut translator = Translator::new();
    translator.write(b"\x1B]0;title\x07hi", &mut data);
    assert_eq!(data.render(10), "hi");
}

#[test]
fn line_feed_starts_a_new_line() {
    let mut data = DataComponent::new();
    let mut translator = Translator::new();
    translator.write(b"ab\ncd", &mut data);
    assert_eq!(data.render(10), "ab\ncd");
    assert_eq!(data.get_active_position(), Position { row: 1, col: 1 });
    // the window keeps only the last lines
    assert_eq!(data.render(1), "cd");
}

#[test]
fn split_combining_mark_joins_its_base() {
    let mut data = DataComponent::new();
    let mut translator = Translator::new();
    translator.write(b"e", &mut data);
    assert_eq!(data.get_active_position(), Position { row: 0, col: 0 });
    // U+0301, a combining acute accent, joins the cluster already in the cell
    translator.write(b"\xCC\x81", &mut data);
    assert_eq!(data.render(10), "e\u{301}");
    assert_eq!(data.get_active_position(), Position { row: 0, col: 0 });
}

#[test]
fn read_then_drain_in_two_steps() {
    let mut data = DataComponent::new();
    let mut translator = Translator::new();
    translator.read_bytes_to_buffer(b"ab\x08");
    // nothing reaches the grid until the buffer is drained
    assert_eq!(data.render(10), "");
    translator.write_buffer_to_data(&mut data);
    assert_eq!(data.render(10), "ab");
    assert_eq!(data.get_active_position(), Position { row: 0, col: 0 });
}

#[test]
fn render_trims_trailing_whitespace_only() {
    let mut data = DataComponent::new();
    let mut translator = Translator::new();
    translator.write(b"a b  ", &mut data);
    assert_eq!(data.render(10), "a b");
    assert_eq!(data.get_active_position(), Position { row: 0, col: 4 });
}

fn feed_in_chunks(bytes: &[u8], size: usize) -> (String, Position) {
    let mut data = DataComponent::new();
    let mut translator = Translator::new();
    for chunk in bytes.chunks(size) {
        translator.write(chunk, &mut data);
    }
    (data.render(100), data.get_active_position())
}

#[test]
fn chunking_does_not_change_the_render() {
    // splits fall inside UTF-8 sequences, escape sequences and control strings
    let stream: &[u8] =
        "пример\x1B[0;1;2!m text\x1B[K\x1B]0;title\x07plus\x0D\x0Aконец\x1B[1K!".as_bytes();
    let (whole, whole_pos) = feed_in_chunks(stream, stream.len());
    for size in 1..12 {
        let (chunked, chunked_pos) = feed_in_chunks(stream, size);
        assert_eq!(chunked, whole, "chunk size {} changed the render", size);
        assert_eq!(chunked_pos, whole_pos, "chunk size {} moved the cursor", size);
    }
}
