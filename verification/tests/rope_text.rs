use cosmic_text::rope_text::{LineEnding, RopeText};

#[test]
fn test_basic_operations() {
    let rope = RopeText::from_str("Hello\nWorld\n");
    assert_eq!(rope.line_count(), 3);
    assert_eq!(rope.line_text(0).unwrap().as_str(), "Hello");
    assert_eq!(rope.line_text(1).unwrap().as_str(), "World");
    assert_eq!(rope.line_text(2).unwrap().as_str(), "");
}

#[test]
fn test_insert() {
    let mut rope = RopeText::from_str("Hello World");
    rope.insert(5, ",");
    assert_eq!(rope.to_string(), "Hello, World");
}

#[test]
fn test_delete() {
    let mut rope = RopeText::from_str("Hello, World");
    rope.delete(5, 7);
    assert_eq!(rope.to_string(), "HelloWorld");
}

#[test]
fn test_line_endings() {
    let mut rope = RopeText::from_str("Line1\nLine2\r\nLine3\rLine4");
    assert_eq!(rope.line_ending(0), LineEnding::Lf);
    assert_eq!(rope.line_ending(1), LineEnding::CrLf);
    assert_eq!(rope.line_ending(2), LineEnding::Cr);
    assert_eq!(rope.line_ending(3), LineEnding::NoEnding);
}

#[test]
fn empty_text_has_one_empty_line() {
    let rope = RopeText::new();
    assert_eq!(rope.line_count(), 1);
    assert!(rope.is_empty());
    assert_eq!(rope.len_bytes(), 0);
    assert_eq!(rope.line_text(0).unwrap(), "");
    assert_eq!(rope.line_text(1), None);
    assert_eq!(rope.line(1), None);
}

#[test]
fn unicode_line_breaks_count_as_lines() {
    // CRLF is one break; LS (U+2028) and NEL (U+0085) are breaks too.
    let rope = RopeText::from_str("a\r\nb\u{2028}c\u{85}d");
    assert_eq!(rope.line_count(), 4);
    assert_eq!(rope.line(0).unwrap(), "a\r\n");
    assert_eq!(rope.line(1).unwrap(), "b\u{2028}");
    assert_eq!(rope.line_text(0).unwrap(), "a");
    assert_eq!(rope.line_text(3).unwrap(), "d");
}

#[test]
fn line_and_byte_offsets() {
    let rope = RopeText::from_str("ab\ncd\n\u{e9}f");
    assert_eq!(rope.line_to_byte(0), 0);
    assert_eq!(rope.line_to_byte(1), 3);
    assert_eq!(rope.line_to_byte(2), 6);
    assert_eq!(rope.line_to_byte(3), 9);
    assert_eq!(rope.try_line_to_byte(3), Some(9));
    assert_eq!(rope.try_line_to_byte(4), None);
    assert_eq!(rope.line_to_char(2), 6);
    assert_eq!(rope.byte_to_line(4), 1);
    // Byte 7 is inside the two-byte e-acute on the last line.
    assert_eq!(rope.byte_to_line(7), 2);
    assert_eq!(rope.char_to_line(2), 0);
    assert_eq!(rope.char_to_line(3), 1);
    assert_eq!(rope.slice(3, 5), "cd");
    assert_eq!(rope.slice(6, 9), "\u{e9}f");
}

#[test]
fn char_to_line_between_cr_and_lf_is_still_the_first_line() {
    let rope = RopeText::from_str("a\r\nb");
    assert_eq!(rope.char_to_line(2), 0);
    assert_eq!(rope.char_to_line(3), 1);
}

#[test]
fn insert_newlines_shifts_cached_endings() {
    let mut rope = RopeText::from_str("one\ntwo\nthree");
    assert_eq!(rope.line_ending(2), LineEnding::NoEnding);
    rope.set_line_ending(1, LineEnding::CrLf);
    // Two new lines inside line 0: later cached entries move down by two.
    rope.insert(1, "x\ny\nz");
    assert_eq!(rope.to_string(), "ox\ny\nzne\ntwo\nthree");
    assert_eq!(rope.line_count(), 5);
    assert_eq!(rope.line_ending(3), LineEnding::CrLf);
    assert_eq!(rope.line_ending(4), LineEnding::NoEnding);
    assert_eq!(rope.line_ending(0), LineEnding::Lf);
}

#[test]
fn delete_across_lines_drops_cached_endings() {
    let mut rope = RopeText::from_str("aa\nbb\ncc\ndd");
    rope.set_line_ending(3, LineEnding::Cr);
    rope.delete(1, 7);
    assert_eq!(rope.to_string(), "ac\ndd");
    assert_eq!(rope.line_count(), 2);
    // The entry of the old last line moved to line 1.
    assert_eq!(rope.line_ending(1), LineEnding::Cr);
    assert_eq!(rope.line_ending(0), LineEnding::Lf);
    // An empty range changes nothing.
    rope.delete(2, 2);
    assert_eq!(rope.to_string(), "ac\ndd");
}

#[test]
fn detect_and_clear_endings() {
    let mut rope = RopeText::from_str("x\n\ry");
    assert_eq!(rope.detect_line_ending(0), LineEnding::Lf);
    assert_eq!(rope.detect_line_ending(1), LineEnding::Cr);
    assert_eq!(rope.detect_line_ending(9), LineEnding::NoEnding);
    rope.set_line_ending(0, LineEnding::LfCr);
    assert_eq!(rope.line_ending(0), LineEnding::LfCr);
    rope.clear_line_endings_cache();
    assert_eq!(rope.line_ending(0), LineEnding::Lf);
    rope.set_text("p\r\nq");
    assert_eq!(rope.line_ending(0), LineEnding::CrLf);
    assert_eq!(rope.rope().len_lines(), 2);
    assert_eq!(LineEnding::default(), LineEnding::Lf);
}
