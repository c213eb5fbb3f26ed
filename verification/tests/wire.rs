use onnx_adapter::wire::{append_all_signed, append_bytes, append_messages, append_number};
use onnx_adapter::wire::{append_signed, append_text, append_texts, append_word};

#[test]
fn numbers_are_written_in_groups_of_seven_bits() {
    let mut out = vec![];
    append_number(1, 150, &mut out);
    assert_eq!(out, [0x08, 0x96, 0x01]);
    append_number(2, 0, &mut out);
    assert_eq!(out[3..], [0x10, 0x00]);
}

#[test]
fn negative_numbers_take_ten_bytes() {
    let mut out = vec![];
    append_signed(1, -1, &mut out);
    assert_eq!(out.len(), 11);
    assert_eq!(out[10], 0x01);
    assert!(out[1..10].iter().all(|b| *b == 0xff));
}

#[test]
fn texts_bytes_and_words_carry_their_kind() {
    let mut out = vec![];
    append_text(2, "testing", &mut out);
    assert_eq!(out, b"\x12\x07testing");
    let mut out = vec![];
    append_bytes(16, &[1, 2], &mut out);
    assert_eq!(out, [0x82, 0x01, 2, 1, 2]);
    let mut out = vec![];
    append_word(2, 0x3f80_0000, &mut out);
    assert_eq!(out, [0x15, 0, 0, 0x80, 0x3f]);
}

#[test]
fn repeated_fields_are_written_one_by_one() {
    let mut out = vec![];
    append_texts(1, &vec!["a".to_string(), "b".to_string()], &mut out);
    append_all_signed(8, &vec![1, 2], &mut out);
    append_messages(3, &vec![vec![9]], &mut out);
    assert_eq!(out, [0x0a, 1, b'a', 0x0a, 1, b'b', 0x40, 1, 0x40, 2, 0x1a, 1, 9]);
}
