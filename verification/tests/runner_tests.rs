use subsets_rs::classify::Area;
use subsets_rs::config::{parse_subset_list, RequestOptions, SubsetConfig};
use subsets_rs::errors::SubsetError;
use subsets_rs::font::{parse, serialize, CmapEntry, FontModel, Glyph};
use subsets_rs::runner::{font_split, EventTag};

fn default_config() -> SubsetConfig {
    RequestOptions::empty().resolve()
}

fn make_font(cps: &[u32], data_len: usize) -> FontModel {
    let mut cps = cps.to_vec();
    cps.sort_unstable();
    cps.dedup();
    let cmap: Vec<CmapEntry> =
        cps.iter().enumerate().map(|(i, &cp)| CmapEntry { cp, gid: i as u16 }).collect();
    let glyphs: Vec<Glyph> =
        (0..cps.len()).map(|i| Glyph { refs: vec![], data: vec![i as u8; data_len] }).collect();
    FontModel { cmap, glyphs, meta: vec![7, 7, 7] }
}

#[test]
fn end_to_end_covers_repertoire() {
    let cps: Vec<u32> = (0x41..=0x5A).collect();
    let font = make_font(&cps, 8);
    let bytes = serialize(&font);
    let cfg = default_config();
    let (result, events) = font_split(&bytes, &cfg);
    let arts = result.expect("split");
    assert_eq!(arts.len(), 1);
    assert_eq!(events.len(), 4 + arts.len());
    assert_eq!(events[0].tag, EventTag::ClassifyStart);
    assert_eq!(events[1].tag, EventTag::ClassifyEnd);
    assert_eq!(events[2].tag, EventTag::PlanReady);
    assert_eq!(events[3].tag, EventTag::SubsetBuilt);
    assert_eq!(events[4].tag, EventTag::FinalizeDone);
    let covered: Vec<u32> = arts.iter().flat_map(|a| a.chars.iter().map(|c| c.cp)).collect();
    for cp in &cps {
        assert!(covered.contains(cp));
    }
    assert_eq!(covered.len(), cps.len());
}

#[test]
fn artifacts_parse_standalone() {
    let cps: Vec<u32> = (0x41..=0x50).collect();
    let bytes = serialize(&make_font(&cps, 4));
    let (result, _) = font_split(&bytes, &default_config());
    for a in result.expect("split") {
        let sub = parse(&a.bytes).expect("artifact parses");
        for g in &sub.glyphs {
            for r in &g.refs {
                assert!((*r as usize) < sub.glyphs.len());
            }
        }
    }
}

#[test]
fn split_is_deterministic() {
    let cps: Vec<u32> = (0x4E00..0x4E40).collect();
    let bytes = serialize(&make_font(&cps, 16));
    let cfg = default_config();
    let (r1, e1) = font_split(&bytes, &cfg);
    let (r2, e2) = font_split(&bytes, &cfg);
    let a1 = r1.expect("first run");
    let a2 = r2.expect("second run");
    assert_eq!(e1.len(), e2.len());
    assert_eq!(a1.len(), a2.len());
    for (x, y) in a1.iter().zip(a2.iter()) {
        assert_eq!(x.bytes, y.bytes);
    }
}

#[test]
fn malformed_input_halts_with_error() {
    let bytes = vec![0u8; 5];
    let (result, events) = font_split(&bytes, &default_config());
    assert_eq!(result.unwrap_err(), SubsetError::MalformedFont);
    assert_eq!(events.last().unwrap().tag, EventTag::ErrorHalt);
    assert_eq!(events.last().unwrap().detail, Some(SubsetError::MalformedFont));
}

#[test]
fn explicit_subsets_restrict_the_repertoire() {
    let cps: Vec<u32> = (0x41..=0x5A).collect();
    let bytes = serialize(&make_font(&cps, 8));
    let mut opts = RequestOptions::empty();
    opts.subsets = Some(vec![0x41, 0x42]);
    let (result, _) = font_split(&bytes, &opts.resolve());
    let arts = result.expect("split");
    let covered: Vec<u32> = arts.iter().flat_map(|a| a.chars.iter().map(|c| c.cp)).collect();
    assert_eq!(covered, vec![0x41, 0x42]);
}

#[test]
fn ceiling_one_without_auto_fails_across_areas() {
    let bytes = serialize(&make_font(&[0x41, 0x3042, 0xAC00], 8));
    let mut opts = RequestOptions::empty();
    opts.max_allow_subsets_count = Some(1);
    opts.auto_subset = Some(false);
    let (result, events) = font_split(&bytes, &opts.resolve());
    assert_eq!(result.unwrap_err(), SubsetError::PlanUnsatisfiable);
    assert_eq!(events.last().unwrap().tag, EventTag::ErrorHalt);
}

#[test]
fn remain_chars_reach_the_first_chunk_of_their_area() {
    let cps: Vec<u32> = (0x41..=0x5A).collect();
    let bytes = serialize(&make_font(&cps, 200));
    let mut opts = RequestOptions::empty();
    opts.chunk_size = Some(900);
    opts.chunk_size_tolerance = Some(90);
    opts.subset_remain_chars = Some(vec![0x5A]);
    let (result, _) = font_split(&bytes, &opts.resolve());
    let arts = result.expect("split");
    assert!(arts.len() > 1);
    let first_latin = arts
        .iter()
        .find(|a| a.chars.iter().any(|c| (0x41..=0x5A).contains(&c.cp)))
        .expect("a latin artifact");
    assert!(first_latin.chars.iter().any(|c| c.cp == 0x5A));
}

#[test]
fn language_areas_restrict_the_repertoire() {
    let bytes = serialize(&make_font(&[0x41, 0x3042, 0xAC00], 8));
    let mut opts = RequestOptions::empty();
    opts.language_areas = Some(vec![Area::Hiragana]);
    let (result, _) = font_split(&bytes, &opts.resolve());
    let arts = result.expect("split");
    let covered: Vec<u32> = arts.iter().flat_map(|a| a.chars.iter().map(|c| c.cp)).collect();
    assert_eq!(covered, vec![0x3042]);
}

#[test]
fn reduce_mins_strips_metadata_from_artifacts() {
    let cps: Vec<u32> = (0x41..=0x44).collect();
    let bytes = serialize(&make_font(&cps, 4));
    let mut opts = RequestOptions::empty();
    opts.reduce_mins = Some(true);
    let (result, _) = font_split(&bytes, &opts.resolve());
    for a in result.expect("split") {
        let sub = parse(&a.bytes).expect("artifact parses");
        assert!(sub.meta.is_empty());
    }
    let mut opts = RequestOptions::empty();
    opts.reduce_mins = Some(false);
    let (result, _) = font_split(&bytes, &opts.resolve());
    for a in result.expect("split") {
        let sub = parse(&a.bytes).expect("artifact parses");
        assert_eq!(sub.meta, vec![7, 7, 7]);
    }
}

#[test]
fn subset_list_parses_commas_away() {
    let chars: Vec<char> = "A,B,C".chars().collect();
    assert_eq!(parse_subset_list(&chars), vec![0x41, 0x42, 0x43]);
    let empty: Vec<char> = Vec::new();
    assert_eq!(parse_subset_list(&empty), Vec::<u32>::new());
}

#[test]
fn defaults_resolve_as_documented() {
    let cfg = default_config();
    assert_eq!(cfg.chunk_size, 70000);
    assert_eq!(cfg.chunk_size_tolerance, 7000);
    assert_eq!(cfg.max_allow_subsets_count, 100);
    assert!(cfg.auto_subset);
    assert!(!cfg.reduce_mins);
    assert!(cfg.subset_remain_chars.is_empty());
}

#[test]
fn error_labels_are_stable() {
    assert_eq!(SubsetError::MalformedFont.label(), "malformed font");
    assert_eq!(SubsetError::PlanUnsatisfiable.label(), "plan unsatisfiable");
    assert_eq!(SubsetError::SerializationError.label(), "serialization error");
    assert_eq!(SubsetError::CoverageGap.label(), "coverage gap");
}
