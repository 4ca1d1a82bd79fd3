//! The configuration surface: every recognized option with an explicit
//! default, validated once at entry. Options that only steer the output
//! writer (paths, stylesheet names, preview flags) live with the caller;
//! here are the ones the core computes with. A layout-feature retention
//! list has no subject here: the compact font format carries no feature
//! tables, so that option too stays with the caller.

use vstd::prelude::*;
use crate::classify::Area;

verus! {

/// Default chunk byte budget.
pub const DEFAULT_CHUNK_SIZE: u64 = 70000;

/// Default ceiling on the number of emitted subsets.
pub const DEFAULT_MAX_SUBSETS: usize = 100;

/// The resolved configuration: every field concrete.
pub struct SubsetConfig {
    pub chunk_size: u64,
    pub chunk_size_tolerance: u64,
    pub max_allow_subsets_count: usize,
    pub auto_subset: bool,
    pub subset_remain_chars: Vec<u32>,
    pub subsets: Option<Vec<u32>>,
    pub language_areas: Option<Vec<Area>>,
    pub reduce_mins: bool,
    pub multi_threads: usize,
    pub parallel_build: bool,
}

/// The caller's request: every option may be left unset.
pub struct RequestOptions {
    pub chunk_size: Option<u64>,
    pub chunk_size_tolerance: Option<u64>,
    pub max_allow_subsets_count: Option<usize>,
    pub auto_subset: Option<bool>,
    pub subset_remain_chars: Option<Vec<u32>>,
    pub subsets: Option<Vec<u32>>,
    pub language_areas: Option<Vec<Area>>,
    pub reduce_mins: Option<bool>,
    pub multi_threads: Option<usize>,
    pub parallel_build: Option<bool>,
}

impl RequestOptions {
    /// A request with every option unset.
    pub fn empty() -> (r: RequestOptions)
        ensures
            r.chunk_size is None,
            r.chunk_size_tolerance is None,
            r.max_allow_subsets_count is None,
            r.auto_subset is None,
            r.subset_remain_chars is None,
            r.subsets is None,
            r.language_areas is None,
            r.reduce_mins is None,
            r.multi_threads is None,
            r.parallel_build is None,
    {
        RequestOptions {
            chunk_size: None,
            chunk_size_tolerance: None,
            max_allow_subsets_count: None,
            auto_subset: None,
            subset_remain_chars: None,
            subsets: None,
            language_areas: None,
            reduce_mins: None,
            multi_threads: None,
            parallel_build: None,
        }
    }

    /// Applies the defaults: the chunk budget, a tolerance of one tenth
    /// of it, the subset ceiling, auto-subset merging on, no explicit
    /// character list, no area restriction, no minification, one worker.
    pub fn resolve(self) -> (c: SubsetConfig)
        ensures
            c.chunk_size == (match self.chunk_size {
                Some(v) => v,
                None => DEFAULT_CHUNK_SIZE,
            }),
            c.chunk_size_tolerance == (match self.chunk_size_tolerance {
                Some(v) => v,
                None => c.chunk_size / 10,
            }),
            c.max_allow_subsets_count == (match self.max_allow_subsets_count {
                Some(v) => v,
                None => DEFAULT_MAX_SUBSETS,
            }),
            c.auto_subset == (match self.auto_subset {
                Some(v) => v,
                None => true,
            }),
            c.subset_remain_chars@ == (match self.subset_remain_chars {
                Some(v) => v@,
                None => Seq::<u32>::empty(),
            }),
            c.subsets == self.subsets,
            c.language_areas == self.language_areas,
            c.reduce_mins == (match self.reduce_mins {
                Some(v) => v,
                None => false,
            }),
            c.multi_threads == (match self.multi_threads {
                Some(v) => v,
                None => 1usize,
            }),
            c.parallel_build == (match self.parallel_build {
                Some(v) => v,
                None => false,
            }),
    {
        let chunk_size = match self.chunk_size {
            Some(v) => v,
            None => DEFAULT_CHUNK_SIZE,
        };
        let chunk_size_tolerance = match self.chunk_size_tolerance {
            Some(v) => v,
            None => chunk_size / 10,
        };
        let max_allow_subsets_count = match self.max_allow_subsets_count {
            Some(v) => v,
            None => DEFAULT_MAX_SUBSETS,
        };
        let auto_subset = match self.auto_subset {
            Some(v) => v,
            None => true,
        };
        let subset_remain_chars = match self.subset_remain_chars {
            Some(v) => v,
            None => Vec::new(),
        };
        let reduce_mins = match self.reduce_mins {
            Some(v) => v,
            None => false,
        };
        let multi_threads = match self.multi_threads {
            Some(v) => v,
            None => 1,
        };
        let parallel_build = match self.parallel_build {
            Some(v) => v,
            None => false,
        };
        SubsetConfig {
            chunk_size,
            chunk_size_tolerance,
            max_allow_subsets_count,
            auto_subset,
            subset_remain_chars,
            subsets: self.subsets,
            language_areas: self.language_areas,
            reduce_mins,
            multi_threads,
            parallel_build,
        }
    }
}

/// The codepoints of an explicit character list, commas dropped.
pub open spec fn cps_of(s: Seq<char>) -> Seq<u32>
    decreases s.len(),
{
    if s.len() == 0 {
        Seq::empty()
    } else {
        cps_of(s.drop_last()) + if s.last() == ',' {
            Seq::<u32>::empty()
        } else {
            seq![s.last() as u32]
        }
    }
}

/// Parses an explicit character list — the characters themselves,
/// separated by commas — into codepoints.
pub fn parse_subset_list(chars: &Vec<char>) -> (r: Vec<u32>)
    ensures
        r@ == cps_of(chars@),
{
    let mut out: Vec<u32> = Vec::new();
    let mut i: usize = 0;
    while i < chars.len()
        invariant
            i <= chars@.len(),
            out@ == cps_of(chars@.take(i as int)),
        decreases chars@.len() - i,
    {
        let c = chars[i];
        proof {
            assert(chars@.take(i + 1).drop_last() =~= chars@.take(i as int));
            assert(chars@.take(i + 1).last() == chars@[i as int]);
        }
        if c != ',' {
            out.push(c as u32);
        }
        proof {
            assert(out@ =~= cps_of(chars@.take(i + 1)));
        }
        i = i + 1;
    }
    proof {
        assert(chars@.take(chars@.len() as int) =~= chars@);
    }
    out
}

} // verus!
