use cosmic_text::shape_words::span_words;

#[test]
fn words_and_their_trailing_whitespace() {
    assert_eq!(span_words("hello world", &vec![6, 11]), vec![(0, 5, false), (5, 6, true), (6, 11, false)]);
    assert_eq!(
        span_words("a  b", &vec![3, 4]),
        vec![(0, 1, false), (1, 2, true), (2, 3, true), (3, 4, false)]
    );
}

#[test]
fn whitespace_only_pieces_and_bytes() {
    assert_eq!(span_words("   ", &vec![3]), vec![(0, 1, true), (1, 2, true), (2, 3, true)]);
    assert_eq!(span_words("é x", &vec![3, 4]), vec![(0, 2, false), (2, 3, true), (3, 4, false)]);
    assert_eq!(span_words("abc", &vec![]), vec![]);
    // an empty piece gives no words
    assert_eq!(span_words("ab", &vec![0, 2]), vec![(0, 2, false)]);
}
