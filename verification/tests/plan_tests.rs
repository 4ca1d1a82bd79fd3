use subsets_rs::classify::Area;
use subsets_rs::errors::SubsetError;
use subsets_rs::model::{group_by_area, CharInfo};
use subsets_rs::plan::{plan, plan_area};

fn ch(cp: u32, size: u32) -> CharInfo {
    CharInfo { cp, size }
}

fn latin_chars(n: u32, size: u32) -> Vec<CharInfo> {
    (0..n).map(|i| ch(0x41 + (i % 26), size)).collect()
}

#[test]
fn basic_latin_fits_one_group() {
    // a font covering only U+0041..U+005A under a generous budget
    let rest: Vec<CharInfo> = (0x41..=0x5A).map(|cp| ch(cp, 120)).collect();
    let groups = group_by_area(&Vec::new(), &rest);
    let p = plan(&groups, 50000, 5000, 4, false).expect("plan");
    assert_eq!(p.len(), 1);
    assert_eq!(p[0].chars.len(), 26);
    assert_eq!(p[0].area, Area::BasicLatin);
    for (i, cp) in (0x41..=0x5A).enumerate() {
        assert_eq!(p[0].chars[i].cp, cp);
    }
}

#[test]
fn large_cjk_repertoire_merges_down_to_ceiling() {
    // 150 CJK characters at 1000 bytes each against a 7000-byte budget
    // would make about twenty chunks; the ceiling forces merges
    let rest: Vec<CharInfo> = (0..150).map(|i| ch(0x4E00 + i, 1000)).collect();
    let groups = group_by_area(&Vec::new(), &rest);
    let p = plan(&groups, 7000, 700, 10, true).expect("plan");
    assert!(p.len() <= 10);
    let total: usize = p.iter().map(|g| g.chars.len()).sum();
    assert_eq!(total, 150);
}

#[test]
fn disjoint_areas_with_ceiling_one_fail_without_auto() {
    // three disjoint language areas, one chunk allowed, no cross-area merge
    let rest = vec![ch(0x41, 10), ch(0x3042, 10), ch(0xAC00, 10)];
    let groups = group_by_area(&Vec::new(), &rest);
    let r = plan(&groups, 50000, 5000, 1, false);
    assert_eq!(r.unwrap_err(), SubsetError::PlanUnsatisfiable);
}

#[test]
fn disjoint_areas_with_ceiling_one_merge_with_auto() {
    let rest = vec![ch(0x41, 10), ch(0x3042, 10), ch(0xAC00, 10)];
    let groups = group_by_area(&Vec::new(), &rest);
    let p = plan(&groups, 50000, 5000, 1, true).expect("plan");
    assert_eq!(p.len(), 1);
    assert_eq!(p[0].chars.len(), 3);
}

#[test]
fn oversized_character_is_unsatisfiable() {
    let rest = vec![ch(0x41, 60000)];
    let groups = group_by_area(&Vec::new(), &rest);
    let r = plan(&groups, 50000, 5000, 4, true);
    assert_eq!(r.unwrap_err(), SubsetError::PlanUnsatisfiable);
}

#[test]
fn tolerance_window_closes_chunks() {
    // sizes of 60 against a window of [80, 120]: chunks close at two
    // characters each
    let chars: Vec<CharInfo> = (0..6).map(|i| ch(0x41 + i, 60)).collect();
    let p = plan_area(Area::BasicLatin, &chars, 0, 100, 20);
    assert_eq!(p.len(), 3);
    for g in &p {
        assert_eq!(g.chars.len(), 2);
    }
}

#[test]
fn soft_window_avoids_one_character_chunks() {
    // 30 then 100: adding the second exceeds 120, but the chunk is still
    // under 80, so it stays open
    let chars = vec![ch(0x41, 30), ch(0x42, 100), ch(0x43, 90)];
    let p = plan_area(Area::BasicLatin, &chars, 0, 100, 20);
    assert_eq!(p[0].chars.len(), 2);
}

#[test]
fn smallest_adjacent_pair_merges_first() {
    // four equal chunks must shrink to three: the first adjacent pair
    // merges (stable on ties)
    let chars: Vec<CharInfo> = (0..4).map(|i| ch(0x41 + i, 10)).collect();
    let groups = group_by_area(&Vec::new(), &chars);
    let p = plan(&groups, 10, 0, 3, false).expect("plan");
    assert_eq!(p.len(), 3);
    assert_eq!(p[0].chars.len(), 2);
    assert_eq!(p[1].chars.len(), 1);
    assert_eq!(p[2].chars.len(), 1);
}

#[test]
fn remain_chars_sit_in_first_chunk() {
    // the guaranteed character would naturally fall in a later chunk
    let remain = vec![ch(0x5A, 50)];
    let rest: Vec<CharInfo> = (0..10).map(|i| ch(0x41 + i, 50)).collect();
    let groups = group_by_area(&remain, &rest);
    let p = plan(&groups, 100, 10, 100, false).expect("plan");
    assert!(p.len() > 1);
    assert!(p[0].chars.iter().any(|c| c.cp == 0x5A));
}

#[test]
fn coverage_is_exact_in_order_per_area() {
    let rest: Vec<CharInfo> = latin_chars(10, 40);
    let groups = group_by_area(&Vec::new(), &rest);
    let p = plan(&groups, 100, 10, 100, false).expect("plan");
    let flat: Vec<u32> = p.iter().flat_map(|g| g.chars.iter().map(|c| c.cp)).collect();
    let want: Vec<u32> = rest.iter().map(|c| c.cp).collect();
    assert_eq!(flat, want);
}

#[test]
fn empty_repertoire_plans_empty() {
    let groups = group_by_area(&Vec::new(), &Vec::new());
    let p = plan(&groups, 100, 10, 0, false).expect("plan");
    assert_eq!(p.len(), 0);
}
