use subsets_rs::errors::SubsetError;
use subsets_rs::font::{parse, serialize, CmapEntry, FontModel, Glyph};
use subsets_rs::subset::{glyph_closure, glyph_for, serialize_subset, subset_font};

fn sample_font() -> FontModel {
    FontModel {
        cmap: vec![
            CmapEntry { cp: 0x41, gid: 1 },
            CmapEntry { cp: 0x42, gid: 0 },
            CmapEntry { cp: 0x43, gid: 2 },
        ],
        glyphs: vec![
            Glyph { refs: vec![], data: vec![1, 2, 3] },
            Glyph { refs: vec![0], data: vec![4] },
            Glyph { refs: vec![], data: vec![] },
        ],
        meta: vec![9, 9],
    }
}

fn fonts_equal(a: &FontModel, b: &FontModel) -> bool {
    a.cmap == b.cmap && a.meta == b.meta && a.glyphs.len() == b.glyphs.len()
        && a.glyphs.iter().zip(b.glyphs.iter()).all(|(x, y)| x.refs == y.refs && x.data == y.data)
}

#[test]
fn serialize_parse_round_trip() {
    let f = sample_font();
    let bytes = serialize(&f);
    let g = parse(&bytes).expect("parse");
    assert!(fonts_equal(&f, &g));
}

#[test]
fn serialization_is_deterministic() {
    let f = sample_font();
    assert_eq!(serialize(&f), serialize(&f));
}

#[test]
fn corrupt_checksum_is_malformed() {
    let f = sample_font();
    let mut bytes = serialize(&f);
    let n = bytes.len();
    bytes[n - 1] = bytes[n - 1].wrapping_add(1);
    assert_eq!(parse(&bytes).unwrap_err(), SubsetError::MalformedFont);
}

#[test]
fn corrupt_payload_is_malformed() {
    let f = sample_font();
    let mut bytes = serialize(&f);
    bytes[12] = bytes[12].wrapping_add(1);
    assert!(parse(&bytes).is_err());
}

#[test]
fn truncated_input_is_malformed() {
    let f = sample_font();
    let mut bytes = serialize(&f);
    bytes.pop();
    assert_eq!(parse(&bytes).unwrap_err(), SubsetError::MalformedFont);
}

#[test]
fn bad_tag_is_malformed() {
    let mut bytes = serialize(&sample_font());
    bytes[0] = 0x00;
    assert_eq!(parse(&bytes).unwrap_err(), SubsetError::MalformedFont);
}

#[test]
fn unordered_cmap_is_malformed() {
    let f = FontModel {
        cmap: vec![CmapEntry { cp: 0x41, gid: 0 }, CmapEntry { cp: 0x42, gid: 0 }],
        glyphs: vec![Glyph { refs: vec![], data: vec![] }],
        meta: vec![],
    };
    let mut bytes = serialize(&f);
    // swap the two six-byte character-map records; the byte sum, and so
    // the checksum, is unchanged, but the codepoints are now descending
    for i in 0..6 {
        bytes.swap(10 + i, 16 + i);
    }
    assert_eq!(parse(&bytes).unwrap_err(), SubsetError::MalformedFont);
}

#[test]
fn glyph_lookup_finds_mapped_codepoints() {
    let f = sample_font();
    assert_eq!(glyph_for(&f, 0x41), Some(1));
    assert_eq!(glyph_for(&f, 0x42), Some(0));
    assert_eq!(glyph_for(&f, 0x5A), None);
}

#[test]
fn closure_includes_composite_references() {
    let f = sample_font();
    assert_eq!(glyph_closure(&f, &vec![1]), vec![0, 1]);
    assert_eq!(glyph_closure(&f, &vec![2]), vec![2]);
    assert_eq!(glyph_closure(&f, &vec![2, 1]), vec![0, 1, 2]);
    assert_eq!(glyph_closure(&f, &vec![]), Vec::<u16>::new());
}

#[test]
fn subset_renumbers_glyphs_and_cmap() {
    let f = sample_font();
    let sub = subset_font(&f, &vec![0, 1], false);
    assert_eq!(sub.glyphs.len(), 2);
    // 'A' -> glyph 1 stays at position 1, 'B' -> glyph 0 at position 0,
    // 'C' -> glyph 2 is dropped
    assert_eq!(sub.cmap, vec![CmapEntry { cp: 0x41, gid: 1 }, CmapEntry { cp: 0x42, gid: 0 }]);
    assert_eq!(sub.glyphs[1].refs, vec![0]);
    assert_eq!(sub.glyphs[0].data, vec![1, 2, 3]);
    assert_eq!(sub.meta, vec![9, 9]);
}

#[test]
fn minify_drops_metadata() {
    let f = sample_font();
    let sub = subset_font(&f, &vec![0], true);
    assert!(sub.meta.is_empty());
}

#[test]
fn subset_binary_is_standalone() {
    // the emitted subset parses on its own and references only glyphs of
    // its own table
    let f = sample_font();
    let keep = glyph_closure(&f, &vec![1]);
    let bytes = serialize_subset(&f, &keep, false);
    let sub = parse(&bytes).expect("subset parses");
    for g in &sub.glyphs {
        for r in &g.refs {
            assert!((*r as usize) < sub.glyphs.len());
        }
    }
}

#[test]
fn subset_build_is_deterministic() {
    let f = sample_font();
    let keep = glyph_closure(&f, &vec![1, 2]);
    let b1 = serialize_subset(&f, &keep, false);
    let keep2 = glyph_closure(&f, &vec![1, 2]);
    let b2 = serialize_subset(&f, &keep2, false);
    assert_eq!(b1, b2);
}
