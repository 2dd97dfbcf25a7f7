use cosmic_text::fallback::platform_han_fallback;

#[test]
fn test_platform_han_fallback() {
    let zh_hans = "zh_hans";
    let zh_hant_tw = "zh_hant_tw";
    let zh_hant_hk = "zh_hant_hk";
    let ja = "ja";
    let ko = "ko";
    let han = |locale: &str| platform_han_fallback(locale, zh_hans, zh_hant_tw, zh_hant_hk, ja, ko);

    assert_eq!(han(""), zh_hans);
    assert_eq!(han("en"), zh_hans);
    assert_eq!(han("-"), zh_hans);

    assert_eq!(han("ja"), ja);
    assert_eq!(han("ko"), ko);

    assert_eq!(han("zh"), zh_hans);

    assert_eq!(han("zh-Hans"), zh_hans);
    assert_eq!(han("zh-Hans-CN"), zh_hans);
    assert_eq!(han("zh-Hans-HK"), zh_hans);
    assert_eq!(han("zh-Hans-TW"), zh_hans);
    assert_eq!(han("zh-Hans-SG"), zh_hans);

    assert_eq!(han("zh-Hant"), zh_hant_tw);
    assert_eq!(han("zh-Hant-CN"), zh_hant_tw);
    assert_eq!(han("zh-Hant-HK"), zh_hant_hk);
    assert_eq!(han("zh-Hant-TW"), zh_hant_tw);
    assert_eq!(han("zh-Hant-SG"), zh_hant_tw);

    assert_eq!(han("zh-CN"), zh_hans);
    assert_eq!(han("zh-HK"), zh_hant_hk);
    assert_eq!(han("zh-TW"), zh_hant_tw);
    assert_eq!(han("zh-SG"), zh_hans);
}

#[test]
fn han_fallback_is_case_insensitive_and_checks_later_subtags_only() {
    let han = |locale: &str| platform_han_fallback(locale, "hans", "tw", "hk", "ja", "ko");
    assert_eq!(han("JA-JP"), "ja");
    assert_eq!(han("Ko-KR"), "ko");
    // The language subtag itself is not a region or script.
    assert_eq!(han("hk"), "hans");
    assert_eq!(han("tw"), "hans");
    assert_eq!(han("en-HK"), "hk");
    assert_eq!(han("x-TW-hans"), "hans");
    assert_eq!(han("zh--hk"), "hk");
    assert_eq!(han("ja-Hant"), "ja");
}
