use subsets_rs::classify::{classify, area_from_rank, Area, NUM_AREAS};

#[test]
fn basic_latin_classifies() {
    assert_eq!(classify(0x41), Area::BasicLatin);
    assert_eq!(classify(0x7A), Area::BasicLatin);
    assert_eq!(classify(0xFF), Area::BasicLatin);
}

#[test]
fn latin_extended_classifies() {
    assert_eq!(classify(0x100), Area::LatinExtended);
    assert_eq!(classify(0x24F), Area::LatinExtended);
}

#[test]
fn greek_and_cyrillic_classify() {
    assert_eq!(classify(0x370), Area::Greek);
    assert_eq!(classify(0x3FF), Area::Greek);
    assert_eq!(classify(0x400), Area::Cyrillic);
    assert_eq!(classify(0x4FF), Area::Cyrillic);
}

#[test]
fn kana_classifies() {
    assert_eq!(classify(0x3042), Area::Hiragana);
    assert_eq!(classify(0x30A2), Area::Katakana);
}

#[test]
fn hangul_and_cjk_classify() {
    assert_eq!(classify(0xAC00), Area::Hangul);
    assert_eq!(classify(0x4E2D), Area::CjkCommon);
}

#[test]
fn everything_else_is_unclassified() {
    assert_eq!(classify(0x2603), Area::Unclassified);
    assert_eq!(classify(0x1F600), Area::Unclassified);
}

#[test]
fn ranks_cover_every_area_once() {
    let mut seen = Vec::new();
    for r in 0..NUM_AREAS {
        let a = area_from_rank(r);
        assert!(!seen.contains(&a));
        seen.push(a);
    }
    assert_eq!(seen.len(), NUM_AREAS);
}
