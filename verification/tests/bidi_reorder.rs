use cosmic_text::bidi_reorder::BidiClass::{B, L, R, RLE, S, WS};
use cosmic_text::bidi_reorder::{adjust_levels, reorder};

#[test]
fn left_to_right_lines_keep_their_order() {
    assert_eq!(reorder(&vec![0]), vec![0..1]);
    assert_eq!(reorder(&vec![0, 0, 1, 1, 0]), vec![0..2, 2..4, 4..5]);
    // the lowest odd level above an even-only line is above its highest: nothing moves
    assert_eq!(reorder(&vec![2, 2]), vec![0..2]);
}

#[test]
fn right_to_left_lines_are_reversed() {
    assert_eq!(reorder(&vec![1]), vec![0..1]);
    assert_eq!(reorder(&vec![1, 1, 2, 2, 1]), vec![4..5, 2..4, 0..2]);
    assert_eq!(reorder(&vec![1, 2, 2, 1]), vec![3..4, 1..3, 0..1]);
}

#[test]
fn nested_levels_reverse_inside_out() {
    assert_eq!(reorder(&vec![0, 1, 2, 1, 0]), vec![0..1, 3..4, 2..3, 1..2, 4..5]);
    assert_eq!(reorder(&vec![0, 1, 1, 2, 3, 0]), vec![0..1, 3..4, 4..5, 1..3, 5..6]);
}


#[test]
fn separators_and_the_whitespace_before_them_take_the_paragraph_level() {
    assert_eq!(adjust_levels("a b\t", &vec![2, 2, 2, 2], &vec![L, WS, L, S], 0), vec![2, 2, 2, 0]);
    assert_eq!(adjust_levels("a  \t", &vec![2, 2, 2, 2], &vec![L, WS, WS, S], 0), vec![2, 0, 0, 0]);
    // a separator at the start, after nothing but whitespace
    assert_eq!(adjust_levels(" \n", &vec![2, 2], &vec![WS, B], 0), vec![0, 0]);
}

#[test]
fn trailing_whitespace_takes_the_paragraph_level() {
    assert_eq!(adjust_levels("ab  ", &vec![1, 1, 1, 1], &vec![R, R, WS, WS], 0), vec![1, 1, 0, 0]);
    // leading whitespace before other text keeps its level
    assert_eq!(adjust_levels("  x", &vec![1, 1, 2], &vec![WS, WS, L], 1), vec![1, 1, 2]);
    // levels and types are per byte
    assert_eq!(adjust_levels("é ", &vec![1, 1, 1], &vec![L, L, WS], 0), vec![1, 1, 0]);
    // characters removed by rule X9 neither start nor end a stretch of whitespace
    assert_eq!(
        adjust_levels("a\u{202B} ", &vec![2, 2, 2, 2, 2], &vec![L, RLE, RLE, RLE, WS], 0),
        vec![2, 2, 2, 2, 0]
    );
    assert_eq!(
        adjust_levels(" \u{202B}", &vec![2, 2, 2, 2], &vec![WS, RLE, RLE, RLE], 0),
        vec![0, 0, 0, 0]
    );
}
