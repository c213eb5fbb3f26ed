use onnx_adapter::order::{at_most, holds_name, name_set, sort_i64, sort_named_counts, sort_strings};
use onnx_adapter::text::{contains_text, decimal, first_line_of, first_line_trimmed, hex};
use onnx_adapter::text::{integer, integers, is_whitespace, join, last_line_clipped, same_text};

fn owned(parts: &[&str]) -> Vec<String> {
    parts.iter().map(|p| p.to_string()).collect()
}

#[test]
fn numbers_are_written_as_std_writes_them() {
    for n in [0, 7, 10, 99, 100, 12_345, u64::MAX] {
        assert_eq!(decimal(n), n.to_string());
    }
    for n in [0, -1, 42, i64::MIN, i64::MAX] {
        assert_eq!(integer(n), n.to_string());
    }
    for n in [0u64, 0xdead_beef, u64::MAX] {
        assert_eq!(hex(n, 8), format!("{n:08x}"));
        assert_eq!(hex(n, 16), format!("{n:016x}"));
    }
    assert_eq!(integers(&vec![1, -2, 3]), format!("{:?}", [1, -2, 3]));
    assert_eq!(integers(&vec![]), "[]");
}

#[test]
fn parts_are_joined_and_found() {
    assert_eq!(join(&owned(&["a", "b", "c"]), ", "), "a, b, c");
    assert_eq!(join(&owned(&["a"]), ", "), "a");
    assert_eq!(join(&vec![], ", "), "");
    assert!(contains_text("abcabd", "abd"));
    assert!(contains_text("x", ""));
    assert!(!contains_text("abcabd", "abe"));
    assert!(same_text("a\u{e9}", "a\u{e9}") && !same_text("a", "b"));
}

#[test]
fn lines_are_taken_as_std_takes_them() {
    for text in ["", "one", "one\ntwo", "one\r\ntwo", "\n x", "  a  \nb"] {
        assert_eq!(first_line_of(text), text.lines().next().unwrap_or(""), "{text:?}");
        assert_eq!(first_line_trimmed(text), text.lines().next().unwrap_or("").trim());
    }
    assert_eq!(last_line_clipped("a\n  long line  \n\n \n", 4), "long");
    assert_eq!(last_line_clipped("\n \n", 4), "");
}

#[test]
fn white_space_is_what_unicode_says() {
    for c in '\u{0}'..='\u{3001}' {
        assert_eq!(is_whitespace(c), c.is_whitespace(), "{c:?}");
    }
}

#[test]
fn texts_are_sorted_as_std_sorts_them() {
    let parts = owned(&["b", "a\u{10000}", "a\u{ffff}", "", "ab", "a", "b"]);
    let mut expected = parts.clone();
    expected.sort();
    assert_eq!(sort_strings(&parts), expected);
    assert!(at_most("a", "ab") && !at_most("ab", "a") && at_most("", ""));
    expected.dedup();
    assert_eq!(name_set(&parts), expected);
    assert!(holds_name(&parts, "ab") && !holds_name(&parts, "abc"));
}

#[test]
fn numbers_and_counts_are_sorted() {
    assert_eq!(sort_i64(&vec![3, -1, 3, i64::MIN]), vec![i64::MIN, -1, 3, 3]);
    let counts = vec![("b".to_string(), 2), ("a".to_string(), 2), ("c".to_string(), 9)];
    let mut expected = counts.clone();
    expected.sort();
    assert_eq!(sort_named_counts(&counts).len(), expected.len());
}
