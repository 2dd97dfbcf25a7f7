use cosmic_text::attrs::{Attrs, Family};
use cosmic_text::bidi_para::BidiParagraphs;
use cosmic_text::buffer_line::BufferLine;
use cosmic_text::layout::Shaping;
use cosmic_text::rich_text::{set_rich_text, set_text};

fn texts(lines: &[BufferLine]) -> Vec<String> {
    lines.iter().map(|l| l.text().to_string()).collect()
}

fn span_ranges(line: &BufferLine) -> Vec<(usize, usize)> {
    line.attrs_list().spans().iter().map(|(s, e, _)| (*s, *e)).collect()
}

#[test]
fn rich_text_spans_become_line_attributes() {
    let attrs = Attrs::new().family(Family::Serif);
    let mono = attrs.family(Family::Monospace);
    let mut lines = Vec::new();
    set_rich_text(&mut lines, &vec![("hello, ", attrs), ("cosmic\ntext", mono)], attrs, Shaping::Advanced);
    assert_eq!(texts(&lines), vec!["hello, cosmic", "text"]);
    assert_eq!(span_ranges(&lines[0]), vec![(7, 13)]);
    assert_eq!(lines[0].attrs_list().get_span(8), mono);
    assert_eq!(lines[0].attrs_list().get_span(2), attrs);
    assert_eq!(span_ranges(&lines[1]), vec![(0, 4)]);
    assert_eq!(lines[1].attrs_list().defaults(), attrs);
}

#[test]
fn plain_text_splits_at_paragraph_separators() {
    let attrs = Attrs::new();
    let mut lines = Vec::new();
    set_text(&mut lines, "a\nbé\u{2029}c", attrs, Shaping::Basic);
    assert_eq!(texts(&lines), vec!["a", "bé", "c"]);
    assert!(span_ranges(&lines[1]).is_empty());
    // a carriage return and a newline are two separators
    set_text(&mut lines, "x\r\ny\n", attrs, Shaping::Basic);
    assert_eq!(texts(&lines), vec!["x", "", "y"]);
    // nothing at all gives one empty line
    set_text(&mut lines, "", attrs, Shaping::Basic);
    assert_eq!(texts(&lines), vec![""]);
    set_rich_text(&mut lines, &vec![], attrs, Shaping::Basic);
    assert_eq!(texts(&lines), vec![""]);
}

#[test]
fn empty_and_default_spans_add_nothing() {
    let attrs = Attrs::new();
    let bold = attrs.family(Family::Cursive);
    let mut lines = Vec::new();
    set_rich_text(&mut lines, &vec![("ab", attrs), ("", bold), ("c\nd", bold), ("e", attrs)], attrs, Shaping::Advanced);
    assert_eq!(texts(&lines), vec!["abc", "de"]);
    assert_eq!(span_ranges(&lines[0]), vec![(2, 3)]);
    assert_eq!(span_ranges(&lines[1]), vec![(0, 1)]);
}

#[test]
fn paragraphs_iterate_without_separators() {
    let mut paras = BidiParagraphs::new("one\ntwo\n\nthree");
    assert_eq!(paras.next(), Some("one"));
    assert_eq!(paras.next(), Some("two"));
    assert_eq!(paras.next(), Some(""));
    assert_eq!(paras.next(), Some("three"));
    assert_eq!(paras.next(), None);
    let mut ranges = BidiParagraphs::new("ab\ncd");
    assert_eq!(ranges.next_range(), Some((0, 2)));
    assert_eq!(ranges.next_range(), Some((3, 5)));
    assert_eq!(ranges.next_range(), None);
}
