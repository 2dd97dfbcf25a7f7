use cosmic_text::line_cache::{LayoutCache, LineCache, ShapeCache};

// A cached shaped line stands here by the handle it is kept under.
const SHAPE: u64 = 0;

#[test]
fn test_shape_cache_basic() {
    let mut cache = ShapeCache::new(10);
    assert!(cache.is_empty());

    let shape = SHAPE;
    cache.insert(5, shape);
    assert_eq!(cache.len(), 1);
    assert!(cache.contains(5));
    assert!(!cache.contains(0));

    cache.remove(5);
    assert!(cache.is_empty());
}

#[test]
fn test_shift_lines() {
    let mut cache = ShapeCache::new(10);
    cache.insert(0, SHAPE);
    cache.insert(5, SHAPE);
    cache.insert(10, SHAPE);

    // Insert 2 lines at position 3
    cache.shift_lines(3, 2);

    assert!(cache.contains(0)); // Unchanged
    assert!(!cache.contains(5)); // Moved
    assert!(cache.contains(7)); // Was 5
    assert!(!cache.contains(10)); // Moved
    assert!(cache.contains(12)); // Was 10
}

#[test]
fn test_invalidate_from() {
    let mut cache = ShapeCache::new(10);
    cache.insert(0, SHAPE);
    cache.insert(5, SHAPE);
    cache.insert(10, SHAPE);

    cache.invalidate_from(5);

    assert!(cache.contains(0));
    assert!(!cache.contains(5));
    assert!(!cache.contains(10));
}

#[test]
fn least_recently_used_line_goes_first() {
    let mut cache = LayoutCache::new(2);
    cache.insert(1, 10);
    cache.insert(2, 20);
    assert_eq!(cache.get(1), Some(&10));
    cache.insert(3, 30);
    assert!(cache.contains(1));
    assert!(!cache.contains(2));
    assert!(cache.contains(3));
    assert_eq!(cache.len(), 2);
}

#[test]
fn values_are_kept_and_replaced() {
    let mut cache = ShapeCache::new(4);
    cache.insert(7, 70);
    assert_eq!(cache.get(7), Some(&70));
    cache.insert(7, 71);
    assert_eq!(cache.len(), 1);
    assert_eq!(cache.get(7), Some(&71));
    if let Some(v) = cache.get_mut(7) {
        *v = 72;
    }
    assert_eq!(cache.get(7), Some(&72));
    assert_eq!(cache.get(8), None);
    assert_eq!(cache.remove(7), Some(72));
    assert_eq!(cache.remove(7), None);
}

#[test]
fn shifting_down_drops_lines_shifted_out_of_range() {
    let mut cache = ShapeCache::new(10);
    cache.insert(1, 10);
    cache.insert(4, 40);
    cache.insert(6, 60);
    // remove 3 lines from line 2 on: 6 moves to 3 and 4 to 1, where the line that
    // was at 1, put back after it, stays
    cache.shift_lines(2, -3);
    assert_eq!(cache.len(), 2);
    assert_eq!(cache.get(1), Some(&10));
    assert_eq!(cache.get(3), Some(&60));
    // a line shifted below zero goes
    cache.shift_lines(0, -2);
    assert_eq!(cache.len(), 1);
    assert_eq!(cache.get(1), Some(&60));
    // shifting by nothing changes nothing
    cache.shift_lines(0, 0);
    assert_eq!(cache.get(1), Some(&60));
}

#[test]
fn resizing_keeps_the_most_recent_lines() {
    let mut cache = LayoutCache::new(0);
    cache.insert(1, 1);
    cache.insert(2, 2);
    assert_eq!(cache.len(), 1);
    assert!(cache.contains(2));
    cache.resize(3);
    cache.insert(3, 3);
    cache.insert(4, 4);
    cache.resize(2);
    assert_eq!(cache.len(), 2);
    assert!(cache.contains(3) && cache.contains(4));
    assert!(!cache.contains(2));
}

#[test]
fn line_cache_invalidates_both() {
    let mut cache = LineCache::new(8);
    cache.shape.insert(1, 1);
    cache.layout.insert(1, 1);
    cache.shape.insert(4, 4);
    cache.layout.insert(4, 4);
    cache.invalidate_layout(1);
    assert!(cache.shape.contains(1));
    assert!(!cache.layout.contains(1));
    cache.invalidate_line(4);
    assert!(!cache.shape.contains(4) && !cache.layout.contains(4));
    cache.shift_lines(0, 3);
    assert!(cache.shape.contains(4));
    cache.invalidate_from(2);
    assert!(cache.shape.is_empty());
    cache.layout.insert(9, 9);
    cache.clear_layout();
    assert!(cache.layout.is_empty());
    cache.shape.insert(2, 2);
    cache.resize(1);
    cache.clear();
    assert!(cache.shape.is_empty() && cache.layout.is_empty());
    let d = LineCache::default();
    assert!(d.shape.is_empty());
    let s = ShapeCache::default();
    assert_eq!(s.len(), 0);
}
