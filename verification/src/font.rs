//! The font model: a binary codec for a compact sfnt-style font format,
//! plus the glyph-closure computation and glyph-subset rewriting.
//!
//! Layout of a font binary, all integers big-endian:
//! a four-byte tag; `u16` glyph count, `u16` character-map entry count,
//! `u16` metadata length; the metadata bytes; the character map as
//! `(u32 codepoint, u16 glyph id)` records with strictly increasing
//! codepoints; one record per glyph — `u8` composite-reference count, the
//! references as `u16` glyph ids, `u16` outline-data length, the data
//! bytes; and a closing `u32` checksum, the byte sum of everything before
//! it. The encoding is canonical: a parsed font re-serializes to the very
//! same bytes.
//!
//! This layout is the library's own compact sfnt-style format, not the
//! full TrueType/OpenType table set: it keeps exactly the pieces the
//! subsetting logic computes with — a character map, composite glyph
//! references with their outline data, auxiliary metadata, and a
//! checksum — so that parsing, closure, subsetting and re-serialization
//! can be specified and proved end to end.

use vstd::prelude::*;
use crate::errors::SubsetError;

verus! {

/// One character-map record: a codepoint and the glyph that renders it.
#[derive(Clone, Copy, PartialEq, Eq, Structural, Debug)]
pub struct CmapEntry {
    pub cp: u32,
    pub gid: u16,
}

/// One glyph: the glyph ids its composite definition references, and its
/// outline data.
#[derive(Debug)]
pub struct Glyph {
    pub refs: Vec<u16>,
    pub data: Vec<u8>,
}

/// The parsed font: character map, glyph table and auxiliary metadata.
#[derive(Debug)]
pub struct FontModel {
    pub cmap: Vec<CmapEntry>,
    pub glyphs: Vec<Glyph>,
    pub meta: Vec<u8>,
}

/// Mathematical view of a glyph.
#[verifier::ext_equal]
pub ghost struct GlyphS {
    pub refs: Seq<u16>,
    pub data: Seq<u8>,
}

/// Mathematical view of a font.
#[verifier::ext_equal]
pub ghost struct FontS {
    pub cmap: Seq<CmapEntry>,
    pub glyphs: Seq<GlyphS>,
    pub meta: Seq<u8>,
}

impl View for Glyph {
    type V = GlyphS;

    open spec fn view(&self) -> GlyphS {
        GlyphS { refs: self.refs@, data: self.data@ }
    }
}

impl View for FontModel {
    type V = FontS;

    open spec fn view(&self) -> FontS {
        FontS {
            cmap: self.cmap@,
            glyphs: Seq::new(self.glyphs@.len(), |i: int| self.glyphs@[i]@),
            meta: self.meta@,
        }
    }
}

/// Structural well-formedness: every count fits its field, the character
/// map is strictly ordered, and every glyph reference stays inside the
/// glyph table.
pub open spec fn font_wf(f: FontS) -> bool {
    &&& f.glyphs.len() <= 0xFFFF
    &&& f.cmap.len() <= 0xFFFF
    &&& f.meta.len() <= 0xFFFF
    &&& forall|i: int, j: int|
        0 <= i < j < f.cmap.len() ==> (#[trigger] f.cmap[i]).cp < (#[trigger] f.cmap[j]).cp
    &&& forall|i: int| 0 <= i < f.cmap.len() ==> (#[trigger] f.cmap[i]).gid < f.glyphs.len()
    &&& forall|g: int|
        0 <= g < f.glyphs.len() ==> (#[trigger] f.glyphs[g]).refs.len() <= 0xFF
            && f.glyphs[g].data.len() <= 0xFFFF
    &&& forall|g: int, r: int|
        0 <= g < f.glyphs.len() && 0 <= r < f.glyphs[g].refs.len() ==> (
        #[trigger] f.glyphs[g].refs[r]) < f.glyphs.len()
}

/// Big-endian encoding of a 16-bit integer.
pub open spec fn be16(x: u16) -> Seq<u8> {
    seq![(x / 0x100) as u8, (x % 0x100) as u8]
}

/// Big-endian encoding of a 32-bit integer.
pub open spec fn be32(x: u32) -> Seq<u8> {
    seq![
        (x / 0x100_0000) as u8,
        ((x / 0x1_0000) % 0x100) as u8,
        ((x / 0x100) % 0x100) as u8,
        (x % 0x100) as u8,
    ]
}

/// The leading tag of every font binary.
pub open spec fn magic() -> Seq<u8> {
    seq![0x53u8, 0x46u8, 0x4Eu8, 0x54u8]
}

pub open spec fn ser_cmap(s: Seq<CmapEntry>) -> Seq<u8>
    decreases s.len(),
{
    if s.len() == 0 {
        Seq::empty()
    } else {
        ser_cmap(s.drop_last()) + be32(s.last().cp) + be16(s.last().gid)
    }
}

pub open spec fn ser_refs(s: Seq<u16>) -> Seq<u8>
    decreases s.len(),
{
    if s.len() == 0 {
        Seq::empty()
    } else {
        ser_refs(s.drop_last()) + be16(s.last())
    }
}

pub open spec fn ser_glyph(g: GlyphS) -> Seq<u8> {
    seq![g.refs.len() as u8] + ser_refs(g.refs) + be16(g.data.len() as u16) + g.data
}

pub open spec fn ser_glyphs(s: Seq<GlyphS>) -> Seq<u8>
    decreases s.len(),
{
    if s.len() == 0 {
        Seq::empty()
    } else {
        ser_glyphs(s.drop_last()) + ser_glyph(s.last())
    }
}

pub open spec fn sum_bytes(s: Seq<u8>) -> int
    decreases s.len(),
{
    if s.len() == 0 {
        0
    } else {
        sum_bytes(s.drop_last()) + s.last()
    }
}

/// The checksum of a byte sequence: its byte sum, truncated to 32 bits.
pub open spec fn checksum(s: Seq<u8>) -> int {
    sum_bytes(s) % 0x1_0000_0000
}

/// Everything of the binary but the trailing checksum.
pub open spec fn ser_body(f: FontS) -> Seq<u8> {
    magic() + be16(f.glyphs.len() as u16) + be16(f.cmap.len() as u16) + be16(
        f.meta.len() as u16,
    ) + f.meta + ser_cmap(f.cmap) + ser_glyphs(f.glyphs)
}

/// The complete binary of a font.
pub open spec fn ser_font(f: FontS) -> Seq<u8> {
    ser_body(f) + be32(checksum(ser_body(f)) as u32)
}

pub proof fn lemma_sum_bytes_nonneg(s: Seq<u8>)
    ensures
        0 <= sum_bytes(s),
    decreases s.len(),
{
    if s.len() > 0 {
        lemma_sum_bytes_nonneg(s.drop_last());
    }
}

pub proof fn lemma_sum_bytes_bound(s: Seq<u8>)
    ensures
        sum_bytes(s) <= s.len() * 255,
    decreases s.len(),
{
    if s.len() > 0 {
        lemma_sum_bytes_bound(s.drop_last());
        assert((s.len() - 1) * 255 + 255 == s.len() * 255) by (nonlinear_arith);
    }
}

/// Appends the big-endian bytes of `x`.
fn push_be16(v: &mut Vec<u8>, x: u16)
    ensures
        final(v)@ == old(v)@ + be16(x),
{
    v.push((x / 0x100) as u8);
    v.push((x % 0x100) as u8);
    proof {
        assert(v@ =~= old(v)@ + be16(x));
    }
}

/// Appends the big-endian bytes of `x`.
fn push_be32(v: &mut Vec<u8>, x: u32)
    ensures
        final(v)@ == old(v)@ + be32(x),
{
    v.push((x / 0x100_0000) as u8);
    v.push(((x / 0x1_0000) % 0x100) as u8);
    v.push(((x / 0x100) % 0x100) as u8);
    v.push((x % 0x100) as u8);
    proof {
        assert(v@ =~= old(v)@ + be32(x));
    }
}

/// Appends a copy of `src`.
fn push_bytes(v: &mut Vec<u8>, src: &Vec<u8>)
    ensures
        final(v)@ == old(v)@ + src@,
{
    let mut k: usize = 0;
    while k < src.len()
        invariant
            k <= src@.len(),
            v@ == old(v)@ + src@.take(k as int),
        decreases src@.len() - k,
    {
        v.push(src[k]);
        proof {
            assert(v@ =~= old(v)@ + src@.take(k + 1));
        }
        k = k + 1;
    }
    proof {
        assert(src@.take(src@.len() as int) =~= src@);
    }
}

/// Serializes a well-formed font into its canonical binary.
pub fn serialize(f: &FontModel) -> (out: Vec<u8>)
    requires
        font_wf(f@),
    ensures
        out@ == ser_font(f@),
{
    let mut out: Vec<u8> = Vec::new();
    out.push(0x53);
    out.push(0x46);
    out.push(0x4E);
    out.push(0x54);
    proof {
        assert(out@ =~= magic());
    }
    push_be16(&mut out, f.glyphs.len() as u16);
    push_be16(&mut out, f.cmap.len() as u16);
    push_be16(&mut out, f.meta.len() as u16);
    push_bytes(&mut out, &f.meta);
    let ghost hdr = out@;
    let mut i: usize = 0;
    while i < f.cmap.len()
        invariant
            i <= f.cmap@.len(),
            out@ == hdr + ser_cmap(f.cmap@.take(i as int)),
        decreases f.cmap@.len() - i,
    {
        let e = f.cmap[i];
        push_be32(&mut out, e.cp);
        push_be16(&mut out, e.gid);
        proof {
            assert(f.cmap@.take(i + 1).drop_last() =~= f.cmap@.take(i as int));
            assert(f.cmap@.take(i + 1).last() == f.cmap@[i as int]);
            assert(out@ =~= hdr + ser_cmap(f.cmap@.take(i + 1)));
        }
        i = i + 1;
    }
    proof {
        assert(f.cmap@.take(f.cmap@.len() as int) =~= f.cmap@);
        assert(f@.cmap == f.cmap@);
    }
    let ghost with_cmap = out@;
    let mut g: usize = 0;
    while g < f.glyphs.len()
        invariant
            g <= f.glyphs@.len(),
            font_wf(f@),
            f@.glyphs.len() == f.glyphs@.len(),
            forall|x: int| 0 <= x < f.glyphs@.len() ==> f@.glyphs[x] == (#[trigger] f.glyphs@[x])@,
            out@ == with_cmap + ser_glyphs(f@.glyphs.take(g as int)),
        decreases f.glyphs@.len() - g,
    {
        let gl = &f.glyphs[g];
        proof {
            assert(f@.glyphs[g as int] == gl@);
            assert(gl@.refs.len() <= 0xFF);
            assert(gl@.data.len() <= 0xFFFF);
        }
        out.push(gl.refs.len() as u8);
        let ghost at_refs = out@;
        let mut r: usize = 0;
        while r < gl.refs.len()
            invariant
                r <= gl.refs@.len(),
                out@ == at_refs + ser_refs(gl.refs@.take(r as int)),
            decreases gl.refs@.len() - r,
        {
            push_be16(&mut out, gl.refs[r]);
            proof {
                assert(gl.refs@.take(r + 1).drop_last() =~= gl.refs@.take(r as int));
                assert(gl.refs@.take(r + 1).last() == gl.refs@[r as int]);
                assert(out@ =~= at_refs + ser_refs(gl.refs@.take(r + 1)));
            }
            r = r + 1;
        }
        proof {
            assert(gl.refs@.take(gl.refs@.len() as int) =~= gl.refs@);
        }
        push_be16(&mut out, gl.data.len() as u16);
        push_bytes(&mut out, &gl.data);
        proof {
            assert(f@.glyphs.take(g + 1).drop_last() =~= f@.glyphs.take(g as int));
            assert(f@.glyphs.take(g + 1).last() == f@.glyphs[g as int]);
            assert(ser_glyph(gl@) =~= seq![gl.refs@.len() as u8] + ser_refs(gl.refs@) + be16(
                gl.data@.len() as u16,
            ) + gl.data@);
            assert(out@ =~= with_cmap + ser_glyphs(f@.glyphs.take(g + 1)));
        }
        g = g + 1;
    }
    proof {
        assert(f@.glyphs.take(f@.glyphs.len() as int) =~= f@.glyphs);
        assert(out@ =~= ser_body(f@));
    }
    // checksum of the body
    let ghost body = out@;
    let mut sum: u128 = 0;
    let mut k: usize = 0;
    while k < out.len()
        invariant
            k <= out@.len(),
            out@ == body,
            sum == sum_bytes(out@.take(k as int)),
        decreases out@.len() - k,
    {
        proof {
            assert(out@.take(k + 1).drop_last() =~= out@.take(k as int));
            assert(out@.take(k + 1).last() == out@[k as int]);
            lemma_sum_bytes_bound(out@.take(k as int));
            vstd::std_specs::vec::axiom_spec_len(&out);
            assert(out@.take(k as int).len() * 255 <= 0xFFFF_FFFF_FFFF_FFFFu64 * 255)
                by (nonlinear_arith)
                requires
                    out@.take(k as int).len() <= 0xFFFF_FFFF_FFFF_FFFFu64,
            ;
        }
        sum = sum + out[k] as u128;
        k = k + 1;
    }
    proof {
        assert(out@.take(out@.len() as int) =~= out@);
        lemma_sum_bytes_nonneg(out@);
    }
    let cs: u32 = (sum % 0x1_0000_0000) as u32;
    proof {
        assert(cs == checksum(body) as u32);
    }
    push_be32(&mut out, cs);
    proof {
        assert(out@ =~= ser_font(f@));
    }
    out
}


/// The views of a glyph table.
pub open spec fn glyphs_view(v: Seq<Glyph>) -> Seq<GlyphS> {
    Seq::new(v.len(), |i: int| v[i]@)
}

proof fn lemma_sorted_global(s: Seq<CmapEntry>)
    requires
        forall|q: int| 0 <= q < s.len() - 1 ==> (#[trigger] s[q]).cp < s[q + 1].cp,
    ensures
        forall|i: int, j: int|
            0 <= i < j < s.len() ==> (#[trigger] s[i]).cp < (#[trigger] s[j]).cp,
    decreases s.len(),
{
    if s.len() > 1 {
        let dl = s.drop_last();
        assert forall|q: int| 0 <= q < dl.len() - 1 implies (#[trigger] dl[q]).cp < dl[q
            + 1].cp by {
            assert(dl[q] == s[q] && dl[q + 1] == s[q + 1]);
        }
        lemma_sorted_global(dl);
        assert forall|i: int, j: int|
            0 <= i < j < s.len() implies (#[trigger] s[i]).cp < (#[trigger] s[j]).cp by {
            if j < s.len() - 1 {
                assert(dl[i] == s[i] && dl[j] == s[j]);
            } else {
                if i < s.len() - 2 {
                    assert(dl[i] == s[i] && dl[s.len() - 2] == s[s.len() - 2]);
                    assert(s[i].cp < s[s.len() - 2].cp);
                }
                assert(s[s.len() - 2].cp < s[s.len() - 1].cp);
            }
        }
    }
}

/// Does some well-formed font serialize to exactly these bytes?
pub open spec fn encodes(fs: FontS, bytes: Seq<u8>) -> bool {
    font_wf(fs) && ser_font(fs) == bytes
}

pub proof fn lemma_ser_cmap_len(s: Seq<CmapEntry>)
    ensures
        ser_cmap(s).len() == 6 * s.len(),
    decreases s.len(),
{
    if s.len() > 0 {
        lemma_ser_cmap_len(s.drop_last());
    }
}

pub proof fn lemma_ser_refs_len(s: Seq<u16>)
    ensures
        ser_refs(s).len() == 2 * s.len(),
    decreases s.len(),
{
    if s.len() > 0 {
        lemma_ser_refs_len(s.drop_last());
    }
}

pub proof fn lemma_ser_glyph_len(g: GlyphS)
    ensures
        ser_glyph(g).len() == 3 + 2 * g.refs.len() + g.data.len(),
{
    lemma_ser_refs_len(g.refs);
}

proof fn lemma_ser_cmap_concat(s1: Seq<CmapEntry>, s2: Seq<CmapEntry>)
    ensures
        ser_cmap(s1 + s2) == ser_cmap(s1) + ser_cmap(s2),
    decreases s2.len(),
{
    if s2.len() == 0 {
        assert(s1 + s2 =~= s1);
        assert(ser_cmap(s1) + ser_cmap(s2) =~= ser_cmap(s1));
    } else {
        lemma_ser_cmap_concat(s1, s2.drop_last());
        assert((s1 + s2).drop_last() =~= s1 + s2.drop_last());
        assert((s1 + s2).last() == s2.last());
        assert(ser_cmap(s1) + ser_cmap(s2) =~= ser_cmap(s1 + s2));
    }
}

/// Peels the record of entry `i` off the character-map serialization.
proof fn lemma_ser_cmap_peel(s: Seq<CmapEntry>, i: int)
    requires
        0 <= i < s.len(),
    ensures
        ser_cmap(s.skip(i)) == be32(s[i].cp) + be16(s[i].gid) + ser_cmap(s.skip(i + 1)),
        ser_cmap(s) == ser_cmap(s.take(i)) + ser_cmap(s.skip(i)),
{
    assert(s =~= s.take(i) + s.skip(i));
    lemma_ser_cmap_concat(s.take(i), s.skip(i));
    assert(s.skip(i) =~= seq![s[i]] + s.skip(i + 1));
    lemma_ser_cmap_concat(seq![s[i]], s.skip(i + 1));
    assert(seq![s[i]].drop_last() =~= Seq::<CmapEntry>::empty());
    assert(ser_cmap(Seq::<CmapEntry>::empty()) == Seq::<u8>::empty());
    assert(ser_cmap(seq![s[i]]) =~= be32(s[i].cp) + be16(s[i].gid));
    assert(ser_cmap(s.skip(i)) =~= be32(s[i].cp) + be16(s[i].gid) + ser_cmap(s.skip(i + 1)));
}

proof fn lemma_ser_refs_concat(s1: Seq<u16>, s2: Seq<u16>)
    ensures
        ser_refs(s1 + s2) == ser_refs(s1) + ser_refs(s2),
    decreases s2.len(),
{
    if s2.len() == 0 {
        assert(s1 + s2 =~= s1);
        assert(ser_refs(s1) + ser_refs(s2) =~= ser_refs(s1));
    } else {
        lemma_ser_refs_concat(s1, s2.drop_last());
        assert((s1 + s2).drop_last() =~= s1 + s2.drop_last());
        assert((s1 + s2).last() == s2.last());
        assert(ser_refs(s1) + ser_refs(s2) =~= ser_refs(s1 + s2));
    }
}

/// Peels reference `i` off a reference-list serialization.
proof fn lemma_ser_refs_peel(s: Seq<u16>, i: int)
    requires
        0 <= i < s.len(),
    ensures
        ser_refs(s.skip(i)) == be16(s[i]) + ser_refs(s.skip(i + 1)),
        ser_refs(s) == ser_refs(s.take(i)) + ser_refs(s.skip(i)),
{
    assert(s =~= s.take(i) + s.skip(i));
    lemma_ser_refs_concat(s.take(i), s.skip(i));
    assert(s.skip(i) =~= seq![s[i]] + s.skip(i + 1));
    lemma_ser_refs_concat(seq![s[i]], s.skip(i + 1));
    assert(seq![s[i]].drop_last() =~= Seq::<u16>::empty());
    assert(ser_refs(Seq::<u16>::empty()) == Seq::<u8>::empty());
    assert(ser_refs(seq![s[i]]) =~= be16(s[i]));
    assert(ser_refs(s.skip(i)) =~= be16(s[i]) + ser_refs(s.skip(i + 1)));
}

proof fn lemma_ser_glyphs_concat(s1: Seq<GlyphS>, s2: Seq<GlyphS>)
    ensures
        ser_glyphs(s1 + s2) == ser_glyphs(s1) + ser_glyphs(s2),
    decreases s2.len(),
{
    if s2.len() == 0 {
        assert(s1 + s2 =~= s1);
        assert(ser_glyphs(s1) + ser_glyphs(s2) =~= ser_glyphs(s1));
    } else {
        lemma_ser_glyphs_concat(s1, s2.drop_last());
        assert((s1 + s2).drop_last() =~= s1 + s2.drop_last());
        assert((s1 + s2).last() == s2.last());
        assert(ser_glyphs(s1) + ser_glyphs(s2) =~= ser_glyphs(s1 + s2));
    }
}

/// Peels the record of glyph `g` off the glyph-table serialization.
proof fn lemma_ser_glyphs_peel(s: Seq<GlyphS>, g: int)
    requires
        0 <= g < s.len(),
    ensures
        ser_glyphs(s.skip(g)) == ser_glyph(s[g]) + ser_glyphs(s.skip(g + 1)),
        ser_glyphs(s) == ser_glyphs(s.take(g)) + ser_glyphs(s.skip(g)),
{
    assert(s =~= s.take(g) + s.skip(g));
    lemma_ser_glyphs_concat(s.take(g), s.skip(g));
    assert(s.skip(g) =~= seq![s[g]] + s.skip(g + 1));
    lemma_ser_glyphs_concat(seq![s[g]], s.skip(g + 1));
    assert(seq![s[g]].drop_last() =~= Seq::<GlyphS>::empty());
    assert(ser_glyphs(Seq::<GlyphS>::empty()) == Seq::<u8>::empty());
    assert(ser_glyphs(seq![s[g]]) =~= ser_glyph(s[g]));
    assert(ser_glyphs(s.skip(g)) =~= ser_glyph(s[g]) + ser_glyphs(s.skip(g + 1)));
}

proof fn lemma_be16_inj(x: u16, y: u16)
    requires
        be16(x) == be16(y),
    ensures
        x == y,
{
    assert(be16(x)[0] == be16(y)[0] && be16(x)[1] == be16(y)[1]);
    assert(x / 0x100 == y / 0x100 && x % 0x100 == y % 0x100);
    assert(x == y) by (bit_vector)
        requires
            x / 0x100 == y / 0x100 && x % 0x100 == y % 0x100,
    ;
}

proof fn lemma_be32_inj(x: u32, y: u32)
    requires
        be32(x) == be32(y),
    ensures
        x == y,
{
    assert(be32(x)[0] == be32(y)[0] && be32(x)[1] == be32(y)[1] && be32(x)[2] == be32(y)[2]
        && be32(x)[3] == be32(y)[3]);
    assert(x / 0x100_0000 == y / 0x100_0000 && (x / 0x1_0000) % 0x100 == (y / 0x1_0000) % 0x100
        && (x / 0x100) % 0x100 == (y / 0x100) % 0x100 && x % 0x100 == y % 0x100);
    assert(x == y) by (bit_vector)
        requires
            x / 0x100_0000 == y / 0x100_0000 && (x / 0x1_0000) % 0x100 == (y / 0x1_0000) % 0x100
                && (x / 0x100) % 0x100 == (y / 0x100) % 0x100 && x % 0x100 == y % 0x100,
    ;
}

/// The regions of a well-formed font's binary, by offset: tag, counts,
/// metadata, character map, glyph table, checksum.
#[verifier::rlimit(100)]
#[verifier::spinoff_prover]
proof fn lemma_layout(fs: FontS)
    requires
        font_wf(fs),
    ensures
        ser_font(fs).len() == 14 + fs.meta.len() + 6 * fs.cmap.len() + ser_glyphs(
            fs.glyphs,
        ).len(),
        ser_font(fs).subrange(0, 4) == magic(),
        ser_font(fs).subrange(4, 6) == be16(fs.glyphs.len() as u16),
        ser_font(fs).subrange(6, 8) == be16(fs.cmap.len() as u16),
        ser_font(fs).subrange(8, 10) == be16(fs.meta.len() as u16),
        ser_font(fs).subrange(10, 10 + fs.meta.len() as int) == fs.meta,
        ser_font(fs).subrange(
            10 + fs.meta.len() as int,
            10 + fs.meta.len() as int + 6 * fs.cmap.len() as int,
        ) == ser_cmap(fs.cmap),
        ser_font(fs).subrange(
            10 + fs.meta.len() as int + 6 * fs.cmap.len() as int,
            ser_font(fs).len() - 4,
        ) == ser_glyphs(fs.glyphs),
        ser_font(fs).take(ser_font(fs).len() - 4) == ser_body(fs),
        ser_font(fs).subrange(ser_font(fs).len() - 4, ser_font(fs).len() as int) == be32(
            checksum(ser_body(fs)) as u32,
        ),
{
    lemma_ser_cmap_len(fs.cmap);
    let body = ser_body(fs);
    let full = ser_font(fs);
    let m = fs.meta.len() as int;
    let c = fs.cmap.len() as int;
    assert(body.len() == 10 + m + 6 * c + ser_glyphs(fs.glyphs).len());
    assert(full.len() == body.len() + 4);
    assert(full.take(full.len() - 4) =~= body);
    assert(full.subrange(full.len() - 4, full.len() as int) =~= be32(checksum(body) as u32));
    assert(full.subrange(0, 4) =~= magic());
    assert(full.subrange(4, 6) =~= be16(fs.glyphs.len() as u16));
    assert(full.subrange(6, 8) =~= be16(fs.cmap.len() as u16));
    assert(full.subrange(8, 10) =~= be16(fs.meta.len() as u16));
    assert(full.subrange(10, 10 + m) =~= fs.meta);
    assert(full.subrange(10 + m, 10 + m + 6 * c) =~= ser_cmap(fs.cmap));
    assert(full.subrange(10 + m + 6 * c, full.len() - 4) =~= ser_glyphs(fs.glyphs));
}

/// The header facts every candidate font for these bytes must satisfy:
/// its counts are the ones in the header, its regions are the ones laid
/// out there.
pub open spec fn header_facts(bytes: Seq<u8>, gcount: u16, ccount: u16, mcount: u16) -> bool {
    forall|fs: FontS|
        #[trigger] encodes(fs, bytes) ==> {
            &&& fs.glyphs.len() == gcount
            &&& fs.cmap.len() == ccount
            &&& fs.meta.len() == mcount
            &&& bytes.len() == 14 + mcount + 6 * (ccount as int) + ser_glyphs(fs.glyphs).len()
            &&& fs.meta == bytes.subrange(10, 10 + mcount as int)
            &&& ser_cmap(fs.cmap) == bytes.subrange(
                10 + mcount as int,
                10 + mcount + 6 * (ccount as int),
            )
            &&& ser_glyphs(fs.glyphs) == bytes.subrange(
                10 + mcount + 6 * (ccount as int),
                bytes.len() - 4,
            )
            &&& ser_body(fs) == bytes.take(bytes.len() - 4)
            &&& bytes.subrange(bytes.len() - 4, bytes.len() as int) == be32(
                checksum(bytes.take(bytes.len() - 4)) as u32,
            )
        }
}

/// Reads a big-endian 16-bit integer.
fn read_u16(bytes: &Vec<u8>, pos: usize) -> (r: u16)
    requires
        pos + 2 <= bytes@.len(),
    ensures
        be16(r) == bytes@.subrange(pos as int, pos + 2),
{
    proof {
        vstd::std_specs::vec::axiom_spec_len(bytes);
    }
    let hi = bytes[pos];
    let lo = bytes[pos + 1];
    let r: u16 = (hi as u16) * 0x100 + (lo as u16);
    proof {
        assert(r / 0x100 == hi && r % 0x100 == lo) by (nonlinear_arith)
            requires
                r == hi * 0x100 + lo,
                lo < 0x100,
                hi < 0x100,
        ;
        assert(be16(r) =~= bytes@.subrange(pos as int, pos + 2));
    }
    r
}

/// Reads a big-endian 32-bit integer.
fn read_u32(bytes: &Vec<u8>, pos: usize) -> (r: u32)
    requires
        pos + 4 <= bytes@.len(),
    ensures
        be32(r) == bytes@.subrange(pos as int, pos + 4),
{
    proof {
        vstd::std_specs::vec::axiom_spec_len(bytes);
    }
    let b0 = bytes[pos];
    let b1 = bytes[pos + 1];
    let b2 = bytes[pos + 2];
    let b3 = bytes[pos + 3];
    let r: u32 = (b0 as u32) * 0x100_0000 + (b1 as u32) * 0x1_0000 + (b2 as u32) * 0x100 + (
    b3 as u32);
    proof {
        assert(r / 0x100_0000 == b0 && (r / 0x1_0000) % 0x100 == b1 && (r / 0x100) % 0x100 == b2
            && r % 0x100 == b3) by (nonlinear_arith)
            requires
                r == b0 * 0x100_0000 + b1 * 0x1_0000 + b2 * 0x100 + b3,
                b0 < 0x100,
                b1 < 0x100,
                b2 < 0x100,
                b3 < 0x100,
        ;
        assert(be32(r) =~= bytes@.subrange(pos as int, pos + 4));
    }
    r
}

/// The record of glyph `g`, located inside a candidate's glyph table.
#[verifier::rlimit(100)]
#[verifier::spinoff_prover]
proof fn lemma_glyph_record(
    fs: FontS,
    bytes: Seq<u8>,
    gcount: u16,
    ccount: u16,
    mcount: u16,
    g: int,
    grec_start: int,
    gv: Seq<GlyphS>,
)
    requires
        encodes(fs, bytes),
        header_facts(bytes, gcount, ccount, mcount),
        0 <= g < gcount,
        fs.glyphs.take(g) == gv,
        ser_glyphs(gv) == bytes.subrange(10 + mcount + 6 * (ccount as int), grec_start),
        grec_start == 10 + mcount + 6 * (ccount as int) + ser_glyphs(gv).len(),
    ensures
        ({
            let gg = fs.glyphs[g];
            &&& gg.refs.len() <= 0xFF
            &&& gg.data.len() <= 0xFFFF
            &&& grec_start + 3 + 2 * gg.refs.len() + gg.data.len() <= bytes.len() - 4
            &&& bytes[grec_start] == gg.refs.len() as u8
            &&& bytes.subrange(grec_start + 1, grec_start + 1 + 2 * gg.refs.len()) == ser_refs(
                gg.refs,
            )
            &&& bytes.subrange(
                grec_start + 1 + 2 * gg.refs.len(),
                grec_start + 3 + 2 * gg.refs.len(),
            ) == be16(gg.data.len() as u16)
            &&& bytes.subrange(
                grec_start + 3 + 2 * gg.refs.len(),
                grec_start + 3 + 2 * gg.refs.len() + gg.data.len(),
            ) == gg.data
        }),
{
    let gg = fs.glyphs[g];
    let gs = 10 + mcount + 6 * (ccount as int);
    let n = bytes.len() as int;
    lemma_ser_glyphs_peel(fs.glyphs, g);
    assert(ser_glyphs(fs.glyphs.take(g)) == ser_glyphs(gv));
    assert(ser_glyphs(fs.glyphs) == bytes.subrange(gs, n - 4));
    lemma_ser_glyph_len(gg);
    lemma_ser_refs_len(gg.refs);
    assert forall|q: int|
        0 <= q < ser_glyphs(fs.glyphs.skip(g)).len() implies #[trigger] bytes[grec_start + q]
        == ser_glyphs(fs.glyphs.skip(g))[q] by {
        assert(ser_glyphs(fs.glyphs)[grec_start - gs + q] == bytes.subrange(gs, n - 4)[
            grec_start - gs + q
        ]);
    }
    assert(bytes.subrange(grec_start, n - 4) =~= ser_glyphs(fs.glyphs.skip(g)));
    assert(ser_glyph(gg)[0] == gg.refs.len() as u8);
    assert(bytes[grec_start] == ser_glyph(gg)[0]);
    assert(bytes.subrange(grec_start + 1, grec_start + 1 + 2 * gg.refs.len()) =~= ser_refs(
        gg.refs,
    ));
    assert(bytes.subrange(
        grec_start + 1 + 2 * gg.refs.len(),
        grec_start + 3 + 2 * gg.refs.len(),
    ) =~= be16(gg.data.len() as u16));
    assert(bytes.subrange(
        grec_start + 3 + 2 * gg.refs.len(),
        grec_start + 3 + 2 * gg.refs.len() + gg.data.len(),
    ) =~= gg.data);
}

/// The bytes of reference `rr`, located inside a candidate's record.
#[verifier::rlimit(100)]
#[verifier::spinoff_prover]
proof fn lemma_ref_record(
    rs: Seq<u16>,
    bytes: Seq<u8>,
    grec_start: int,
    rr: int,
    pos: int,
    done: Seq<u16>,
)
    requires
        0 <= grec_start,
        0 <= rr < rs.len(),
        done == rs.take(rr),
        pos == grec_start + 1 + 2 * rr,
        ser_refs(done) == bytes.subrange(grec_start + 1, pos),
        bytes.subrange(grec_start + 1, grec_start + 1 + 2 * rs.len()) == ser_refs(rs),
        grec_start + 1 + 2 * rs.len() <= bytes.len(),
    ensures
        bytes.subrange(pos, pos + 2) == be16(rs[rr]),
{
    lemma_ser_refs_len(rs);
    lemma_ser_refs_len(rs.take(rr));
    lemma_ser_refs_peel(rs, rr);
    assert forall|q: int|
        0 <= q < 2 * rs.len() implies #[trigger] bytes[grec_start + 1 + q] == ser_refs(rs)[
            q
        ] by {
        assert(bytes.subrange(grec_start + 1, grec_start + 1 + 2 * rs.len())[q] == bytes[
            grec_start + 1 + q
        ]);
        assert(ser_refs(rs)[q] == bytes.subrange(grec_start + 1, grec_start + 1 + 2 * rs.len())[
            q
        ]);
    }
    assert(ser_refs(rs) == ser_refs(rs.take(rr)) + (be16(rs[rr]) + ser_refs(rs.skip(rr + 1))));
    assert forall|q: int| 0 <= q < 2 implies #[trigger] bytes.subrange(pos, pos + 2)[q] == be16(
        rs[rr],
    )[q] by {
        assert(bytes[pos + q] == ser_refs(rs)[2 * rr + q]);
        assert(ser_refs(rs)[2 * rr + q] == (be16(rs[rr]) + ser_refs(rs.skip(rr + 1)))[q]);
    }
    assert(bytes.subrange(pos, pos + 2) =~= be16(rs[rr]));
}

/// Parses a font binary. On success the result is well-formed and
/// re-serializes to exactly the input bytes; on failure — a bad tag, a
/// glyph id out of range, an unordered character map, trailing or missing
/// bytes, a wrong checksum — no well-formed font serializes to the input
/// at all, so success is owed on every valid binary.
#[verifier::rlimit(100)]
#[verifier::spinoff_prover]
pub fn parse(bytes: &Vec<u8>) -> (r: Result<FontModel, SubsetError>)
    ensures
        match r {
            Ok(f) => font_wf(f@) && ser_font(f@) == bytes@ && forall|fs: FontS|
                #[trigger] encodes(fs, bytes@) ==> fs == f@,
            Err(e) => e == SubsetError::MalformedFont && forall|fs: FontS|
                !(#[trigger] encodes(fs, bytes@)),
        },
{
    let n = bytes.len();
    if n < 10 {
        proof {
            assert forall|fs: FontS| !(#[trigger] encodes(fs, bytes@)) by {
                if encodes(fs, bytes@) {
                    lemma_layout(fs);
                }
            }
        }
        return Err(SubsetError::MalformedFont);
    }
    if !(bytes[0] == 0x53 && bytes[1] == 0x46 && bytes[2] == 0x4E && bytes[3] == 0x54) {
        proof {
            assert forall|fs: FontS| !(#[trigger] encodes(fs, bytes@)) by {
                if encodes(fs, bytes@) {
                    lemma_layout(fs);
                    assert(bytes@.subrange(0, 4) == magic());
                    assert(bytes@[0] == magic()[0] && bytes@[1] == magic()[1] && bytes@[2]
                        == magic()[2] && bytes@[3] == magic()[3]);
                }
            }
        }
        return Err(SubsetError::MalformedFont);
    }
    proof {
        assert(bytes@.subrange(0, 4) =~= magic());
    }
    let gcount = read_u16(bytes, 4);
    let ccount = read_u16(bytes, 6);
    let mcount = read_u16(bytes, 8);
    proof {
        assert forall|fs: FontS| #[trigger] encodes(fs, bytes@) implies {
            &&& fs.glyphs.len() == gcount
            &&& fs.cmap.len() == ccount
            &&& fs.meta.len() == mcount
            &&& bytes@.len() == 14 + mcount + 6 * (ccount as int) + ser_glyphs(fs.glyphs).len()
            &&& fs.meta == bytes@.subrange(10, 10 + mcount as int)
            &&& ser_cmap(fs.cmap) == bytes@.subrange(
                10 + mcount as int,
                10 + mcount + 6 * (ccount as int),
            )
            &&& ser_glyphs(fs.glyphs) == bytes@.subrange(
                10 + mcount + 6 * (ccount as int),
                bytes@.len() - 4,
            )
            &&& ser_body(fs) == bytes@.take(bytes@.len() - 4)
            &&& bytes@.subrange(bytes@.len() - 4, bytes@.len() as int) == be32(
                checksum(bytes@.take(bytes@.len() - 4)) as u32,
            )
        } by {
            lemma_layout(fs);
            lemma_be16_inj(gcount, fs.glyphs.len() as u16);
            lemma_be16_inj(ccount, fs.cmap.len() as u16);
            lemma_be16_inj(mcount, fs.meta.len() as u16);
        }
        assert(header_facts(bytes@, gcount, ccount, mcount));
    }
    let mut pos: usize = 10;
    // metadata
    if n - pos < mcount as usize {
        proof {
            assert forall|fs: FontS| !(#[trigger] encodes(fs, bytes@)) by {
                if encodes(fs, bytes@) {
                    assert(bytes@.len() >= 10 + mcount);
                }
            }
        }
        return Err(SubsetError::MalformedFont);
    }
    let mut meta: Vec<u8> = Vec::new();
    let mut k: usize = 0;
    while k < mcount as usize
        invariant
            k <= mcount,
            pos == 10,
            10 + mcount <= n,
            n == bytes@.len(),
            meta@ == bytes@.subrange(10, 10 + k),
        decreases mcount - k,
    {
        meta.push(bytes[pos + k]);
        proof {
            assert(meta@ =~= bytes@.subrange(10, 10 + k + 1));
        }
        k = k + 1;
    }
    pos = pos + mcount as usize;
    // character map
    let ghost cmap_start = pos as int;
    let mut cmap: Vec<CmapEntry> = Vec::new();
    let mut prev_cp: u32 = 0;
    let mut i: usize = 0;
    while i < ccount as usize
        invariant
            i <= ccount,
            n == bytes@.len(),
            pos == cmap_start + 6 * i,
            cmap_start == 10 + mcount as int,
            pos <= n,
            cmap@.len() == i,
            i > 0 ==> cmap@.last().cp == prev_cp,
            forall|q: int| 0 <= q < i - 1 ==> (#[trigger] cmap@[q]).cp < cmap@[q + 1].cp,
            forall|q: int| 0 <= q < i ==> (#[trigger] cmap@[q]).gid < gcount,
            ser_cmap(cmap@) == bytes@.subrange(cmap_start, pos as int),
            header_facts(bytes@, gcount, ccount, mcount),
            forall|fs: FontS|
                #[trigger] encodes(fs, bytes@) ==> fs.cmap.take(i as int) == cmap@,
        decreases ccount - i,
    {
        proof {
            assert forall|fs: FontS| #[trigger] encodes(fs, bytes@) implies {
                &&& bytes@.subrange(pos as int, pos + 4) == be32(fs.cmap[i as int].cp)
                &&& bytes@.subrange(pos + 4, pos + 6) == be16(fs.cmap[i as int].gid)
                &&& pos + 6 <= n - 4
            } by {
                lemma_ser_cmap_len(fs.cmap);
                lemma_ser_cmap_len(fs.cmap.take(i as int));
                lemma_ser_cmap_peel(fs.cmap, i as int);
                assert(ser_cmap(fs.cmap.take(i as int)) == bytes@.subrange(
                    cmap_start,
                    pos as int,
                ));
                assert(bytes@.subrange(pos as int, cmap_start + 6 * (ccount as int))
                    =~= ser_cmap(fs.cmap.skip(i as int)));
                assert(bytes@.subrange(pos as int, pos + 4) =~= be32(fs.cmap[i as int].cp));
                assert(bytes@.subrange(pos + 4, pos + 6) =~= be16(fs.cmap[i as int].gid));
            }
        }
        if n - pos < 6 {
            proof {
                assert forall|fs: FontS| !(#[trigger] encodes(fs, bytes@)) by {
                    if encodes(fs, bytes@) {
                        assert(pos + 6 <= n - 4);
                    }
                }
            }
            return Err(SubsetError::MalformedFont);
        }
        let cp = read_u32(bytes, pos);
        let gid = read_u16(bytes, pos + 4);
        proof {
            assert forall|fs: FontS| #[trigger] encodes(fs, bytes@) implies fs.cmap[
                i as int
            ].cp == cp && fs.cmap[i as int].gid == gid by {
                lemma_be32_inj(cp, fs.cmap[i as int].cp);
                lemma_be16_inj(gid, fs.cmap[i as int].gid);
            }
        }
        if gid >= gcount {
            proof {
                assert forall|fs: FontS| !(#[trigger] encodes(fs, bytes@)) by {
                    if encodes(fs, bytes@) {
                        assert(fs.cmap[i as int].gid < fs.glyphs.len());
                    }
                }
            }
            return Err(SubsetError::MalformedFont);
        }
        if i > 0 && cp <= prev_cp {
            proof {
                assert forall|fs: FontS| !(#[trigger] encodes(fs, bytes@)) by {
                    if encodes(fs, bytes@) {
                        assert(fs.cmap.take(i as int)[i - 1] == fs.cmap[i - 1]);
                        assert(fs.cmap[i - 1].cp == prev_cp);
                        assert(fs.cmap[i - 1].cp < fs.cmap[i as int].cp);
                    }
                }
            }
            return Err(SubsetError::MalformedFont);
        }
        let ghost cprev = cmap@;
        cmap.push(CmapEntry { cp, gid });
        proof {
            assert(cmap@.drop_last() =~= cprev);
            assert(bytes@.subrange(cmap_start, pos + 6) =~= bytes@.subrange(
                cmap_start,
                pos as int,
            ) + bytes@.subrange(pos as int, pos + 4) + bytes@.subrange(pos + 4, pos + 6));
            assert(ser_cmap(cmap@) =~= bytes@.subrange(cmap_start, pos + 6));
            assert forall|fs: FontS| #[trigger] encodes(fs, bytes@) implies fs.cmap.take(
                i + 1,
            ) == cmap@ by {
                assert(fs.cmap.take(i + 1) =~= fs.cmap.take(i as int).push(fs.cmap[i as int]));
            }
        }
        prev_cp = cp;
        pos = pos + 6;
        i = i + 1;
    }
    // glyph table
    let ghost glyphs_start = pos as int;
    let mut glyphs: Vec<Glyph> = Vec::new();
    let mut g: usize = 0;
    while g < gcount as usize
        invariant
            g <= gcount,
            n == bytes@.len(),
            glyphs_start == 10 + mcount + 6 * (ccount as int),
            pos >= glyphs_start,
            pos <= n,
            glyphs@.len() == g,
            forall|x: int|
                0 <= x < g ==> (#[trigger] glyphs@[x])@.refs.len() <= 0xFF
                    && glyphs@[x]@.data.len() <= 0xFFFF,
            forall|x: int, rr: int|
                0 <= x < g && 0 <= rr < glyphs@[x]@.refs.len() ==> (
                #[trigger] glyphs@[x]@.refs[rr]) < gcount,
            ser_glyphs(glyphs_view(glyphs@)) == bytes@.subrange(glyphs_start, pos as int),
            header_facts(bytes@, gcount, ccount, mcount),
            forall|fs: FontS|
                #[trigger] encodes(fs, bytes@) ==> glyphs_view(glyphs@) == fs.glyphs.take(
                    g as int,
                ),
        decreases gcount - g,
    {
        let ghost grec_start = pos as int;
        proof {
            assert forall|fs: FontS| #[trigger] encodes(fs, bytes@) implies {
                let gg = fs.glyphs[g as int];
                &&& gg.refs.len() <= 0xFF
                &&& gg.data.len() <= 0xFFFF
                &&& grec_start + 3 + 2 * gg.refs.len() + gg.data.len() <= n - 4
                &&& bytes@[grec_start] == gg.refs.len() as u8
                &&& bytes@.subrange(grec_start + 1, grec_start + 1 + 2 * gg.refs.len())
                    == ser_refs(gg.refs)
                &&& bytes@.subrange(
                    grec_start + 1 + 2 * gg.refs.len(),
                    grec_start + 3 + 2 * gg.refs.len(),
                ) == be16(gg.data.len() as u16)
                &&& bytes@.subrange(
                    grec_start + 3 + 2 * gg.refs.len(),
                    grec_start + 3 + 2 * gg.refs.len() + gg.data.len(),
                ) == gg.data
            } by {
                lemma_glyph_record(
                    fs,
                    bytes@,
                    gcount,
                    ccount,
                    mcount,
                    g as int,
                    grec_start,
                    glyphs_view(glyphs@),
                );
            }
        }
        if n - pos < 1 {
            proof {
                assert forall|fs: FontS| !(#[trigger] encodes(fs, bytes@)) by {
                    if encodes(fs, bytes@) {
                        assert(grec_start + 3 <= n - 4);
                    }
                }
            }
            return Err(SubsetError::MalformedFont);
        }
        let nrefs = bytes[pos];
        proof {
            assert forall|fs: FontS| #[trigger] encodes(fs, bytes@) implies fs.glyphs[
                g as int
            ].refs.len() == nrefs as int by {
                assert(bytes@[grec_start] == fs.glyphs[g as int].refs.len() as u8);
            }
        }
        pos = pos + 1;
        let mut refs: Vec<u16> = Vec::new();
        let mut rr: usize = 0;
        while rr < nrefs as usize
            invariant
                rr <= nrefs,
                n == bytes@.len(),
                g < gcount,
                grec_start >= 0,
                pos == grec_start + 1 + 2 * rr,
                pos <= n,
                refs@.len() == rr,
                forall|x: int| 0 <= x < rr ==> (#[trigger] refs@[x]) < gcount,
                ser_refs(refs@) == bytes@.subrange(grec_start + 1, pos as int),
                forall|fs: FontS|
                    #[trigger] encodes(fs, bytes@) ==> {
                        &&& fs.glyphs.len() == gcount
                        &&& fs.glyphs[g as int].refs.len() == nrefs as int
                        &&& refs@ == fs.glyphs[g as int].refs.take(rr as int)
                        &&& grec_start + 3 + 2 * (nrefs as int) + fs.glyphs[
                            g as int
                        ].data.len() <= n - 4
                        &&& bytes@.subrange(
                            grec_start + 1,
                            grec_start + 1 + 2 * (nrefs as int),
                        ) == ser_refs(fs.glyphs[g as int].refs)
                    },
            decreases nrefs - rr,
        {
            proof {
                assert forall|fs: FontS| #[trigger] encodes(fs, bytes@) implies bytes@.subrange(
                    pos as int,
                    pos + 2,
                ) == be16(fs.glyphs[g as int].refs[rr as int]) by {
                    let rs = fs.glyphs[g as int].refs;
                    assert(ser_refs(rs.take(rr as int)) == ser_refs(refs@));
                    lemma_ref_record(rs, bytes@, grec_start, rr as int, pos as int, refs@);
                }
            }
            if n - pos < 2 {
                proof {
                    assert forall|fs: FontS| !(#[trigger] encodes(fs, bytes@)) by {
                        if encodes(fs, bytes@) {
                            assert(pos + 2 <= grec_start + 1 + 2 * (nrefs as int));
                            assert(grec_start + 1 + 2 * (nrefs as int) <= n - 4);
                        }
                    }
                }
                return Err(SubsetError::MalformedFont);
            }
            let rv = read_u16(bytes, pos);
            proof {
                assert forall|fs: FontS| #[trigger] encodes(fs, bytes@) implies fs.glyphs[
                    g as int
                ].refs[rr as int] == rv by {
                    lemma_be16_inj(rv, fs.glyphs[g as int].refs[rr as int]);
                }
            }
            if rv >= gcount {
                proof {
                    assert forall|fs: FontS| !(#[trigger] encodes(fs, bytes@)) by {
                        if encodes(fs, bytes@) {
                            assert(fs.glyphs[g as int].refs[rr as int] < fs.glyphs.len());
                        }
                    }
                }
                return Err(SubsetError::MalformedFont);
            }
            let ghost rprev = refs@;
            refs.push(rv);
            proof {
                assert(refs@.drop_last() =~= rprev);
                assert(ser_refs(refs@) =~= bytes@.subrange(grec_start + 1, pos + 2));
                assert forall|fs: FontS| #[trigger] encodes(fs, bytes@) implies refs@
                    == fs.glyphs[g as int].refs.take(rr + 1) by {
                    assert(fs.glyphs[g as int].refs.take(rr + 1) =~= fs.glyphs[
                        g as int
                    ].refs.take(rr as int).push(fs.glyphs[g as int].refs[rr as int]));
                }
            }
            pos = pos + 2;
            rr = rr + 1;
        }
        proof {
            assert forall|fs: FontS| #[trigger] encodes(fs, bytes@) implies refs@ == fs.glyphs[
                g as int
            ].refs && bytes@.subrange(pos as int, pos + 2) == be16(
                fs.glyphs[g as int].data.len() as u16,
            ) && pos + 2 + fs.glyphs[g as int].data.len() <= n - 4 by {
                let gg = fs.glyphs[g as int];
                assert(gg.refs.take(gg.refs.len() as int) =~= gg.refs);
            }
        }
        if n - pos < 2 {
            proof {
                assert forall|fs: FontS| !(#[trigger] encodes(fs, bytes@)) by {
                    if encodes(fs, bytes@) {
                        assert(pos + 2 + fs.glyphs[g as int].data.len() <= n - 4);
                    }
                }
            }
            return Err(SubsetError::MalformedFont);
        }
        let dlen = read_u16(bytes, pos);
        proof {
            assert forall|fs: FontS| #[trigger] encodes(fs, bytes@) implies fs.glyphs[
                g as int
            ].data.len() == dlen as int by {
                lemma_be16_inj(dlen, fs.glyphs[g as int].data.len() as u16);
            }
        }
        pos = pos + 2;
        if n - pos < dlen as usize {
            proof {
                assert forall|fs: FontS| !(#[trigger] encodes(fs, bytes@)) by {
                    if encodes(fs, bytes@) {
                        assert(pos + fs.glyphs[g as int].data.len() <= n - 4);
                    }
                }
            }
            return Err(SubsetError::MalformedFont);
        }
        let ghost data_start = pos as int;
        let mut data: Vec<u8> = Vec::new();
        let mut dk: usize = 0;
        while dk < dlen as usize
            invariant
                dk <= dlen,
                n == bytes@.len(),
                data_start >= 0,
                data_start + dlen <= n,
                pos == data_start,
                data@ == bytes@.subrange(data_start, data_start + dk),
            decreases dlen - dk,
        {
            data.push(bytes[pos + dk]);
            proof {
                assert(data@ =~= bytes@.subrange(data_start, data_start + dk + 1));
            }
            dk = dk + 1;
        }
        pos = pos + dlen as usize;
        let ghost gprev = glyphs@;
        let gl = Glyph { refs, data };
        proof {
            assert(gl@.refs.len() == nrefs);
            assert(gl@.data.len() == dlen);
            assert(ser_glyph(gl@) =~= bytes@.subrange(grec_start, pos as int)) by {
                assert(seq![gl@.refs.len() as u8] =~= bytes@.subrange(
                    grec_start,
                    grec_start + 1,
                ));
                assert(ser_refs(gl@.refs) == bytes@.subrange(
                    grec_start + 1,
                    grec_start + 1 + 2 * (nrefs as int),
                ));
                assert(be16(gl@.data.len() as u16) == bytes@.subrange(
                    grec_start + 1 + 2 * (nrefs as int),
                    grec_start + 3 + 2 * (nrefs as int),
                ));
                assert(gl@.data == bytes@.subrange(data_start, data_start + dlen));
            }
        }
        glyphs.push(gl);
        proof {
            assert(glyphs_view(glyphs@).drop_last() =~= glyphs_view(gprev));
            assert(glyphs_view(glyphs@).last() == gl@);
            assert(ser_glyphs(glyphs_view(glyphs@)) =~= bytes@.subrange(
                glyphs_start,
                pos as int,
            ));
            assert forall|fs: FontS| #[trigger] encodes(fs, bytes@) implies glyphs_view(
                glyphs@,
            ) == fs.glyphs.take(g + 1) by {
                let gg = fs.glyphs[g as int];
                assert(gl@.data == bytes@.subrange(data_start, data_start + dlen));
                assert(gg.data == bytes@.subrange(
                    grec_start + 3 + 2 * gg.refs.len(),
                    grec_start + 3 + 2 * gg.refs.len() + gg.data.len(),
                ));
                assert(gl@ =~= gg);
                assert(fs.glyphs.take(g + 1) =~= fs.glyphs.take(g as int).push(gg));
                assert(glyphs_view(glyphs@) =~= glyphs_view(gprev).push(gl@));
            }
        }
        g = g + 1;
    }
    // checksum
    if n - pos != 4 {
        proof {
            assert forall|fs: FontS| !(#[trigger] encodes(fs, bytes@)) by {
                if encodes(fs, bytes@) {
                    assert(glyphs_view(glyphs@) == fs.glyphs.take(gcount as int));
                    assert(fs.glyphs.take(gcount as int) =~= fs.glyphs);
                    assert(ser_glyphs(fs.glyphs) == bytes@.subrange(glyphs_start, n - 4));
                    assert(ser_glyphs(glyphs_view(glyphs@)).len() == pos - glyphs_start);
                }
            }
        }
        return Err(SubsetError::MalformedFont);
    }
    let mut sum: u128 = 0;
    let mut k: usize = 0;
    while k < pos
        invariant
            k <= pos,
            pos <= n,
            n == bytes@.len(),
            sum == sum_bytes(bytes@.take(k as int)),
        decreases pos - k,
    {
        proof {
            assert(bytes@.take(k + 1).drop_last() =~= bytes@.take(k as int));
            assert(bytes@.take(k + 1).last() == bytes@[k as int]);
            lemma_sum_bytes_bound(bytes@.take(k as int));
            vstd::std_specs::vec::axiom_spec_len(bytes);
            assert(bytes@.take(k as int).len() * 255 <= 0xFFFF_FFFF_FFFF_FFFFu64 * 255)
                by (nonlinear_arith)
                requires
                    bytes@.take(k as int).len() <= 0xFFFF_FFFF_FFFF_FFFFu64,
            ;
        }
        sum = sum + bytes[k] as u128;
        k = k + 1;
    }
    let stored = read_u32(bytes, pos);
    proof {
        lemma_sum_bytes_nonneg(bytes@.take(pos as int));
    }
    if stored as u128 != sum % 0x1_0000_0000 {
        proof {
            assert forall|fs: FontS| !(#[trigger] encodes(fs, bytes@)) by {
                if encodes(fs, bytes@) {
                    assert(bytes@.subrange(pos as int, n as int) == be32(
                        checksum(bytes@.take(n - 4)) as u32,
                    ));
                    lemma_be32_inj(stored, checksum(bytes@.take(n - 4)) as u32);
                    lemma_sum_bytes_nonneg(bytes@.take(n - 4));
                    assert(bytes@.take(n - 4) == bytes@.take(pos as int));
                    assert(stored == checksum(bytes@.take(pos as int)) as u32);
                }
            }
        }
        return Err(SubsetError::MalformedFont);
    }
    let f = FontModel { cmap, glyphs, meta };
    proof {
        lemma_sorted_global(f@.cmap);
        assert(font_wf(f@));
        assert forall|fs: FontS| #[trigger] encodes(fs, bytes@) implies fs == f@ by {
            assert(fs.cmap.take(ccount as int) =~= fs.cmap);
            assert(fs.glyphs.take(gcount as int) =~= fs.glyphs);
            assert(fs.cmap == f@.cmap);
            assert(fs.glyphs == f@.glyphs);
            assert(fs.meta == f@.meta);
            assert(fs =~= f@);
        }
        let body = bytes@.subrange(0, pos as int);
        assert(ser_body(f@) =~= body) by {
            assert(f@.glyphs =~= glyphs_view(f.glyphs@));
            assert(be16(f@.glyphs.len() as u16) == bytes@.subrange(4, 6)) by {
                assert(f@.glyphs.len() as u16 == gcount);
            }
            assert(be16(f@.cmap.len() as u16) == bytes@.subrange(6, 8)) by {
                assert(f@.cmap.len() as u16 == ccount);
            }
            assert(be16(f@.meta.len() as u16) == bytes@.subrange(8, 10)) by {
                assert(f@.meta.len() as u16 == mcount);
            }
            assert(f@.meta == bytes@.subrange(10, cmap_start));
            assert(ser_cmap(f@.cmap) == bytes@.subrange(cmap_start, glyphs_start));
            assert(ser_glyphs(f@.glyphs) == bytes@.subrange(glyphs_start, pos as int));
        }
        assert(sum_bytes(body) == sum) by {
            assert(bytes@.take(pos as int) =~= body);
        }
        assert(checksum(ser_body(f@)) as u32 == stored);
        assert(ser_font(f@) =~= bytes@) by {
            assert(be32(stored) == bytes@.subrange(pos as int, pos + 4));
        }
    }
    Ok(f)
}

} // verus!
