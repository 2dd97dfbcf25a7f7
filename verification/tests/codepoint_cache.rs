use cosmic_text::codepoint_cache::{
    supported_codepoints_in_word, FontCachedCodepointSupportInfo, NOT_SUPPORTED_MAX_SZ,
    SUPPORTED_MAX_SZ,
};

#[test]
fn lookups_answer_from_the_font_and_are_remembered() {
    let font = [0x41u32, 0x42, 0x43, 0x263A];
    let mut cache = FontCachedCodepointSupportInfo::new();
    assert!(cache.has_codepoint(&font, 0x42));
    assert!(!cache.has_codepoint(&font, 0x44));
    // Answers come from the cache now, even against another codepoint list.
    assert!(cache.has_codepoint(&[], 0x42));
    assert!(!cache.has_codepoint(&[0x44], 0x44));
    // A codepoint never seen is looked up in the list given.
    assert!(cache.has_codepoint(&[0x45], 0x45));
}

#[test]
fn unknown_lookup_inserts_at_the_given_position() {
    let mut cache = FontCachedCodepointSupportInfo::new();
    assert!(cache.unknown_has_codepoint(&[7, 9], 9, 0, 0));
    assert!(cache.unknown_has_codepoint(&[7, 9], 7, 0, 0));
    assert!(!cache.unknown_has_codepoint(&[7, 9], 8, 2, 0));
    assert!(cache.has_codepoint(&[], 7));
    assert!(cache.has_codepoint(&[], 9));
    assert!(!cache.has_codepoint(&[8], 8));
}

#[test]
fn cache_stays_bounded() {
    let font: Vec<u32> = (0..2000).collect();
    let mut cache = FontCachedCodepointSupportInfo::new();
    for cp in 0..2000u32 {
        assert!(cache.has_codepoint(&font, cp));
    }
    for cp in 5000..7000u32 {
        assert!(!cache.has_codepoint(&font, cp));
    }
    // The smallest remembered codepoints are kept; later ones fall off the end.
    assert!(cache.has_codepoint(&[], 10));
    assert!(!cache.has_codepoint(&[], 1999));
    // A remembered refusal wins over the list given.
    assert!(!cache.has_codepoint(&[5000], 5000));
    // The largest refusals fall off once the list is full.
    assert!(cache.has_codepoint(&[6999], 6999));
    assert_eq!(SUPPORTED_MAX_SZ, 512);
    assert_eq!(NOT_SUPPORTED_MAX_SZ, 1024);
}

#[test]
fn counting_supported_characters() {
    let font = [u32::from('a'), u32::from('b'), u32::from('\u{e9}')];
    let mut cache = FontCachedCodepointSupportInfo::new();
    assert_eq!(supported_codepoints_in_word(&mut cache, &font, "abc\u{e9}a"), 4);
    assert_eq!(supported_codepoints_in_word(&mut cache, &font, ""), 0);
    assert_eq!(supported_codepoints_in_word(&mut cache, &font, "xyz"), 0);
}
