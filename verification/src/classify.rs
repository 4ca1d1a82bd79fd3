//! Language / script classification of codepoints.
//!
//! Every Unicode scalar value maps to exactly one named area via a fixed
//! table of codepoint ranges; codepoints outside every listed range fall
//! into the reserved `Unclassified` area. Classification is total and
//! deterministic.

use vstd::prelude::*;

verus! {

/// A named script / language area. Characters of one area are kept
/// together when the repertoire is partitioned into chunks.
#[derive(Clone, Copy, PartialEq, Eq, Structural, Debug)]
pub enum Area {
    BasicLatin,
    LatinExtended,
    Greek,
    Cyrillic,
    Hiragana,
    Katakana,
    Hangul,
    CjkCommon,
    Unclassified,
}

/// Number of distinct areas, `Unclassified` included.
pub const NUM_AREAS: usize = 9;

/// The area a codepoint belongs to. Ranges are checked from the most
/// specific block downward; the chain is total, so every codepoint gets
/// exactly one area.
pub open spec fn area_of(cp: u32) -> Area {
    if cp <= 0xFF {
        Area::BasicLatin
    } else if 0x100 <= cp <= 0x24F {
        Area::LatinExtended
    } else if 0x370 <= cp <= 0x3FF {
        Area::Greek
    } else if 0x400 <= cp <= 0x4FF {
        Area::Cyrillic
    } else if 0x3040 <= cp <= 0x309F {
        Area::Hiragana
    } else if 0x30A0 <= cp <= 0x30FF {
        Area::Katakana
    } else if 0xAC00 <= cp <= 0xD7AF {
        Area::Hangul
    } else if 0x4E00 <= cp <= 0x9FFF {
        Area::CjkCommon
    } else {
        Area::Unclassified
    }
}

/// Executable classification; agrees with `area_of` on every codepoint.
pub fn classify(cp: u32) -> (a: Area)
    ensures
        a == area_of(cp),
{
    if cp <= 0xFF {
        Area::BasicLatin
    } else if 0x100 <= cp && cp <= 0x24F {
        Area::LatinExtended
    } else if 0x370 <= cp && cp <= 0x3FF {
        Area::Greek
    } else if 0x400 <= cp && cp <= 0x4FF {
        Area::Cyrillic
    } else if 0x3040 <= cp && cp <= 0x309F {
        Area::Hiragana
    } else if 0x30A0 <= cp && cp <= 0x30FF {
        Area::Katakana
    } else if 0xAC00 <= cp && cp <= 0xD7AF {
        Area::Hangul
    } else if 0x4E00 <= cp && cp <= 0x9FFF {
        Area::CjkCommon
    } else {
        Area::Unclassified
    }
}

/// The canonical processing order of the areas: rank `r` names the area
/// that is planned and emitted in position `r`.
pub open spec fn area_at_rank(r: int) -> Area {
    if r == 0 {
        Area::BasicLatin
    } else if r == 1 {
        Area::LatinExtended
    } else if r == 2 {
        Area::Greek
    } else if r == 3 {
        Area::Cyrillic
    } else if r == 4 {
        Area::Hiragana
    } else if r == 5 {
        Area::Katakana
    } else if r == 6 {
        Area::Hangul
    } else if r == 7 {
        Area::CjkCommon
    } else {
        Area::Unclassified
    }
}

/// Executable form of `area_at_rank`.
pub fn area_from_rank(r: usize) -> (a: Area)
    requires
        r < NUM_AREAS,
    ensures
        a == area_at_rank(r as int),
{
    if r == 0 {
        Area::BasicLatin
    } else if r == 1 {
        Area::LatinExtended
    } else if r == 2 {
        Area::Greek
    } else if r == 3 {
        Area::Cyrillic
    } else if r == 4 {
        Area::Hiragana
    } else if r == 5 {
        Area::Katakana
    } else if r == 6 {
        Area::Hangul
    } else if r == 7 {
        Area::CjkCommon
    } else {
        Area::Unclassified
    }
}

/// Every area occurs at exactly one rank below `NUM_AREAS`.
pub proof fn lemma_every_area_has_rank(a: Area)
    ensures
        exists|r: int| 0 <= r < NUM_AREAS && area_at_rank(r) == a,
{
    match a {
        Area::BasicLatin => {
            assert(area_at_rank(0) == a);
        },
        Area::LatinExtended => {
            assert(area_at_rank(1) == a);
        },
        Area::Greek => {
            assert(area_at_rank(2) == a);
        },
        Area::Cyrillic => {
            assert(area_at_rank(3) == a);
        },
        Area::Hiragana => {
            assert(area_at_rank(4) == a);
        },
        Area::Katakana => {
            assert(area_at_rank(5) == a);
        },
        Area::Hangul => {
            assert(area_at_rank(6) == a);
        },
        Area::CjkCommon => {
            assert(area_at_rank(7) == a);
        },
        Area::Unclassified => {
            assert(area_at_rank(8) == a);
        },
    }
}

} // verus!
