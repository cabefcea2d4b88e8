use cc_switch::sse::append_utf8_safe;

#[test]
fn cut_utf8_sequence_waits_for_the_next_chunk() {
    let mut buffer = String::new();
    let mut pending: Vec<u8> = Vec::new();
    let bytes = "aé".as_bytes();
    append_utf8_safe(&mut buffer, &mut pending, &bytes[..2]);
    assert_eq!(buffer, "a");
    assert_eq!(pending, vec![bytes[1]]);
    append_utf8_safe(&mut buffer, &mut pending, &bytes[2..]);
    assert_eq!(buffer, "aé");
    assert!(pending.is_empty());
}

#[test]
fn invalid_utf8_is_decoded_lossily() {
    let mut buffer = String::from("x");
    let mut pending: Vec<u8> = Vec::new();
    append_utf8_safe(&mut buffer, &mut pending, &[b'o', b'k', 0xFF, b'z']);
    assert_eq!(buffer, "xok\u{FFFD}z");
    assert!(pending.is_empty());
}
