use cosmic_text::attrs::{Attrs, AttrsList, AttrsOwned, Family, FamilyOwned, Stretch, Style, Weight};
use cosmic_text::color::Color;
use cosmic_text::font_index::FaceInfo;

#[test]
fn attrs_builders_and_compatibility() {
    let a = Attrs::new();
    assert_eq!(a.color_opt, None);
    assert_eq!(a.family, Family::SansSerif);
    assert_eq!(a.weight, Weight(400));
    let b = a.color(Color::rgb(1, 2, 3)).family(Family::Name("Fira")).weight(Weight(700)).metadata(5);
    assert_eq!(b.color_opt, Some(Color::rgb(1, 2, 3)));
    assert_eq!(b.family, Family::Name("Fira"));
    assert_eq!(b.metadata, 5);
    assert!(!a.compatible(&b));
    let c = b.color(Color::rgb(9, 9, 9)).metadata(1);
    assert!(b.compatible(&c));
    let d = c.style(Style::Italic).stretch(Stretch::Condensed);
    assert!(!c.compatible(&d));
}

#[test]
fn face_matching() {
    let face = |ps: &str, style: Style, weight: u16| FaceInfo {
        path: None,
        index: 0,
        families: vec![],
        post_script_name: ps.to_string(),
        style,
        weight: Weight(weight),
        stretch: Stretch::Normal,
        monospaced: false,
    };
    let a = Attrs::new();
    assert!(a.matches(&face("Sans", Style::Normal, 400)));
    assert!(!a.matches(&face("Sans", Style::Italic, 400)));
    assert!(!a.matches(&face("Sans", Style::Normal, 700)));
    assert!(a.matches(&face("NotoColorEmoji", Style::Italic, 700)));
}

#[test]
fn owned_family_and_attrs() {
    let f = FamilyOwned::new(Family::Name("Mono"));
    assert_eq!(f, FamilyOwned::Name("Mono".to_string()));
    assert_eq!(f.as_family(), Family::Name("Mono"));
    assert_eq!(FamilyOwned::new(Family::Serif).as_family(), Family::Serif);
    let a = Attrs::new().family(Family::Name("X")).metadata(3);
    let owned = AttrsOwned::new(a);
    assert_eq!(owned.as_attrs(), a);
}

#[test]
fn spans_read_back_and_defaults() {
    let defaults = Attrs::new();
    let bold = Attrs::new().weight(Weight(700));
    let mut list = AttrsList::new(defaults);
    list.add_span(2, 5, bold);
    list.add_span(7, 7, bold);
    assert_eq!(list.get_span(1), defaults);
    assert_eq!(list.get_span(2), bold);
    assert_eq!(list.get_span(4), bold);
    assert_eq!(list.get_span(5), defaults);
    assert_eq!(list.get_span(7), defaults);
    assert_eq!(list.defaults(), defaults);
    let spans = list.spans();
    assert_eq!(spans.len(), 1);
    assert_eq!((spans[0].0, spans[0].1), (2, 5));
    list.clear_spans();
    assert_eq!(list.get_span(3), defaults);
}

#[test]
fn split_off_moves_later_spans() {
    let defaults = Attrs::new();
    let red = Attrs::new().color(Color::rgb(255, 0, 0));
    let blue = Attrs::new().color(Color::rgb(0, 0, 255));
    let green = Attrs::new().color(Color::rgb(0, 255, 0));
    let mut list = AttrsList::new(defaults);
    list.add_span(0, 2, red);
    list.add_span(3, 8, blue);
    list.add_span(10, 12, green);
    let tail = list.split_off(5);
    assert_eq!(list.get_span(1), red);
    assert_eq!(list.get_span(4), blue);
    assert_eq!(list.get_span(5), defaults);
    assert_eq!(list.get_span(11), defaults);
    assert_eq!(tail.get_span(0), blue);
    assert_eq!(tail.get_span(2), blue);
    assert_eq!(tail.get_span(3), defaults);
    assert_eq!(tail.get_span(5), green);
    assert_eq!(tail.get_span(6), green);
    assert_eq!(tail.get_span(7), defaults);
    assert_eq!(tail.defaults(), defaults);
}
