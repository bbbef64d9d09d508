//! Which earlier morpheme candidates a new candidate can link to in the analyser's
//! lattice, and the spellings that never link.
use vstd::prelude::*;
use crate::blob::{bytes_lt, key_lt};
use crate::common::{has_prefix, slice_range};
use crate::morph::{
    MorphCand, cheon_ok, cheon_to, is_combinable_cheon_to, is_combinable_yongon_to, pyogi_wan_ok,
    yongon_gate, yongon_ok, yongon_to, yongon_word,
};
use crate::posngram::PosBigram;
use crate::tables::{is_k_cheon_part, is_k_voice_yong_yon, is_k_yongon_to, is_to};
use crate::yongon::yong_yon_ok;

verus! {

/// The spellings of `CHEON_NO_LINKABLE`, one after another: su beB de haN c9 ma*je* nawu nyeM caM geL s9M g9 ca d9 balaM te teG ti s8 juL tu geN li giM ge maNci ceG iL fal_M qadaLG ja ba c8 jeG j__M j9 mulyeB beN dwu joGjoG qeS ya* j_G haNpyeN to* t9 paN.
pub const CHEON_NO_LINKABLE_BYTES: [u8; 148] = [
    0x73, 0x75, 0x62, 0x65, 0x42, 0x64, 0x65, 0x68, 0x61, 0x4e, 0x63, 0x39, 0x6d, 0x61, 0x2a, 0x6a,
    0x65, 0x2a, 0x6e, 0x61, 0x77, 0x75, 0x6e, 0x79, 0x65, 0x4d, 0x63, 0x61, 0x4d, 0x67, 0x65, 0x4c,
    0x73, 0x39, 0x4d, 0x67, 0x39, 0x63, 0x61, 0x64, 0x39, 0x62, 0x61, 0x6c, 0x61, 0x4d, 0x74, 0x65,
    0x74, 0x65, 0x47, 0x74, 0x69, 0x73, 0x38, 0x6a, 0x75, 0x4c, 0x74, 0x75, 0x67, 0x65, 0x4e, 0x6c,
    0x69, 0x67, 0x69, 0x4d, 0x67, 0x65, 0x6d, 0x61, 0x4e, 0x63, 0x69, 0x63, 0x65, 0x47, 0x69, 0x4c,
    0x66, 0x61, 0x6c, 0x5f, 0x4d, 0x71, 0x61, 0x64, 0x61, 0x4c, 0x47, 0x6a, 0x61, 0x62, 0x61, 0x63,
    0x38, 0x6a, 0x65, 0x47, 0x6a, 0x5f, 0x5f, 0x4d, 0x6a, 0x39, 0x6d, 0x75, 0x6c, 0x79, 0x65, 0x42,
    0x62, 0x65, 0x4e, 0x64, 0x77, 0x75, 0x6a, 0x6f, 0x47, 0x6a, 0x6f, 0x47, 0x71, 0x65, 0x53, 0x79,
    0x61, 0x2a, 0x6a, 0x5f, 0x47, 0x68, 0x61, 0x4e, 0x70, 0x79, 0x65, 0x4e, 0x74, 0x6f, 0x2a, 0x74,
    0x39, 0x70, 0x61, 0x4e,
];

/// Where each spelling of `CHEON_NO_LINKABLE_BYTES` ends.
pub const CHEON_NO_LINKABLE_ENDS: [u16; 47] = [
    2, 5, 7, 10, 12, 18, 22, 26, 29, 32, 35, 37,
    39, 41, 46, 48, 51, 53, 55, 58, 60, 63, 65, 68,
    70, 75, 78, 80, 85, 91, 93, 95, 97, 100, 104, 106,
    112, 115, 118, 124, 127, 130, 133, 140, 143, 145, 148,
];

/// The spellings of `YONGYON_NO_LINKABLE`, one after another: al8 aN aNpaG aP baL baQ bug_N byeL ci co d_* d_Lsai d8 da* da_M do*aNviG eci egaN f8muN faN fawu fawunoM galya* gaN gaqai gaT_NgeS guNd9 h8* ha iha ihu ijeN il8 in8 isa* iwi j__M jeN jiGjeN ju*yeB juyijeG miT n8 n8ji q8na qili s_s_lo si teG to* u viG ye yeha zaG zali.
pub const YONGYON_NO_LINKABLE_BYTES: [u8; 212] = [
    0x61, 0x6c, 0x38, 0x61, 0x4e, 0x61, 0x4e, 0x70, 0x61, 0x47, 0x61, 0x50, 0x62, 0x61, 0x4c, 0x62,
    0x61, 0x51, 0x62, 0x75, 0x67, 0x5f, 0x4e, 0x62, 0x79, 0x65, 0x4c, 0x63, 0x69, 0x63, 0x6f, 0x64,
    0x5f, 0x2a, 0x64, 0x5f, 0x4c, 0x73, 0x61, 0x69, 0x64, 0x38, 0x64, 0x61, 0x2a, 0x64, 0x61, 0x5f,
    0x4d, 0x64, 0x6f, 0x2a, 0x61, 0x4e, 0x76, 0x69, 0x47, 0x65, 0x63, 0x69, 0x65, 0x67, 0x61, 0x4e,
    0x66, 0x38, 0x6d, 0x75, 0x4e, 0x66, 0x61, 0x4e, 0x66, 0x61, 0x77, 0x75, 0x66, 0x61, 0x77, 0x75,
    0x6e, 0x6f, 0x4d, 0x67, 0x61, 0x6c, 0x79, 0x61, 0x2a, 0x67, 0x61, 0x4e, 0x67, 0x61, 0x71, 0x61,
    0x69, 0x67, 0x61, 0x54, 0x5f, 0x4e, 0x67, 0x65, 0x53, 0x67, 0x75, 0x4e, 0x64, 0x39, 0x68, 0x38,
    0x2a, 0x68, 0x61, 0x69, 0x68, 0x61, 0x69, 0x68, 0x75, 0x69, 0x6a, 0x65, 0x4e, 0x69, 0x6c, 0x38,
    0x69, 0x6e, 0x38, 0x69, 0x73, 0x61, 0x2a, 0x69, 0x77, 0x69, 0x6a, 0x5f, 0x5f, 0x4d, 0x6a, 0x65,
    0x4e, 0x6a, 0x69, 0x47, 0x6a, 0x65, 0x4e, 0x6a, 0x75, 0x2a, 0x79, 0x65, 0x42, 0x6a, 0x75, 0x79,
    0x69, 0x6a, 0x65, 0x47, 0x6d, 0x69, 0x54, 0x6e, 0x38, 0x6e, 0x38, 0x6a, 0x69, 0x71, 0x38, 0x6e,
    0x61, 0x71, 0x69, 0x6c, 0x69, 0x73, 0x5f, 0x73, 0x5f, 0x6c, 0x6f, 0x73, 0x69, 0x74, 0x65, 0x47,
    0x74, 0x6f, 0x2a, 0x75, 0x76, 0x69, 0x47, 0x79, 0x65, 0x79, 0x65, 0x68, 0x61, 0x7a, 0x61, 0x47,
    0x7a, 0x61, 0x6c, 0x69,
];

/// Where each spelling of `YONGYON_NO_LINKABLE_BYTES` ends.
pub const YONGYON_NO_LINKABLE_ENDS: [u16; 56] = [
    3, 5, 10, 12, 15, 18, 23, 27, 29, 31, 34, 40,
    42, 45, 49, 57, 60, 64, 69, 72, 76, 83, 89, 92,
    97, 105, 110, 113, 115, 118, 121, 125, 128, 131, 135, 138,
    142, 145, 151, 157, 164, 167, 169, 173, 177, 181, 187, 189,
    192, 195, 196, 199, 201, 205, 208, 212,
];

/// Spelling `i` of a table kept as bytes and end offsets (empty where the offsets are out
/// of order).
pub open spec fn table_entry(bytes: Seq<u8>, ends: Seq<u16>, i: int) -> Seq<u8> {
    let s = if i == 0 { 0 } else { ends[i - 1] as int };
    let e = ends[i] as int;
    if s <= e <= bytes.len() {
        bytes.subrange(s, e)
    } else {
        Seq::empty()
    }
}

/// Binary search for `key` among the spellings `lo..hi` of a table, in byte order (the
/// result the search gives, whether or not the table is sorted).
pub open spec fn bsearch_in(key: Seq<u8>, bytes: Seq<u8>, ends: Seq<u16>, lo: int, hi: int) -> bool
    decreases hi - lo,
{
    if lo < 0 || lo >= hi || hi > ends.len() {
        false
    } else {
        let mid = (lo + hi) / 2;
        let e = table_entry(bytes, ends, mid);
        if bytes_lt(key, e) {
            bsearch_in(key, bytes, ends, lo, mid)
        } else if bytes_lt(e, key) {
            bsearch_in(key, bytes, ends, mid + 1, hi)
        } else {
            true
        }
    }
}

fn entry<'t>(bytes: &'t [u8], ends: &[u16], i: usize) -> (r: &'t [u8])
    requires
        i < ends@.len(),
    ensures
        r@ == table_entry(bytes@, ends@, i as int),
{
    let s: usize = if i == 0 { 0 } else { ends[i - 1] as usize };
    let e = ends[i] as usize;
    if s <= e && e <= bytes.len() {
        slice_range(bytes, s, e)
    } else {
        slice_range(bytes, 0, 0)
    }
}

/// Binary search for `key` in a table of spellings.
pub fn bsearch_str(key: &[u8], bytes: &[u8], ends: &[u16]) -> (r: bool)
    ensures
        r == bsearch_in(key@, bytes@, ends@, 0, ends@.len() as int),
{
    let mut lo: usize = 0;
    let mut hi: usize = ends.len();
    while lo < hi
        invariant
            hi <= ends@.len(),
            bsearch_in(key@, bytes@, ends@, lo as int, hi as int) == bsearch_in(
                key@,
                bytes@,
                ends@,
                0,
                ends@.len() as int,
            ),
        decreases hi - lo,
    {
        let mid = lo + (hi - lo) / 2;
        proof {
            assert(mid == (lo + hi) / 2);
        }
        let e = entry(bytes, ends, mid);
        if key_lt(key, e) {
            hi = mid;
        } else if key_lt(e, key) {
            lo = mid + 1;
        } else {
            return true;
        }
    }
    false
}

/// A noun-like part of speech.
pub open spec fn cheon_part(tag: u8) -> bool {
    0x30 <= tag <= 0x3E || tag == 0x46 || tag == 0x48 || tag == 0x49
}

/// A voiced predicate: one of `B @ D C f`.
pub open spec fn voice_yong_yon(tag: u8) -> bool {
    tag == 0x42 || tag == 0x40 || tag == 0x44 || tag == 0x43 || tag == 0x66
}

/// May a morpheme tagged `r` spelled `s` follow one tagged `l`: a noun does not take the
/// listed bound nouns (tag `7`), an ending `_` does not take the listed ones, and after
/// `c` a spelling `n_N` needs a fourth letter.
pub open spec fn neighbour_ok(l: u8, r: u8, s: Seq<u8>) -> bool {
    let tail = if l == 0x63 && has_prefix(s, seq![0x6eu8, 0x5f, 0x4e]) {
        s.len() > 3 && s[3] != 0
    } else {
        true
    };
    if cheon_part(l) {
        if r == 0x37 && bsearch_in(s, CHEON_NO_LINKABLE_BYTES@, CHEON_NO_LINKABLE_ENDS@, 0, 47) {
            false
        } else {
            tail
        }
    } else if r == 0x37 && l == 0x5f {
        !bsearch_in(s, YONGYON_NO_LINKABLE_BYTES@, YONGYON_NO_LINKABLE_ENDS@, 0, 56)
    } else {
        tail
    }
}

/// May a morpheme tagged `b_r_tag` spelled `pch_r_str` follow one tagged `b_l_tag`.
pub fn check_neighbour_morpheme(b_l_tag: u8, b_r_tag: u8, pch_r_str: &[u8]) -> (r: bool)
    ensures
        r == neighbour_ok(b_l_tag, b_r_tag, pch_r_str@),
{
    if is_k_cheon_part(b_l_tag) {
        if b_r_tag == 0x37 && bsearch_str(pch_r_str, &CHEON_NO_LINKABLE_BYTES, &CHEON_NO_LINKABLE_ENDS) {
            return false;
        }
    } else if b_r_tag == 0x37 && b_l_tag == 0x5f {
        return !bsearch_str(pch_r_str, &YONGYON_NO_LINKABLE_BYTES, &YONGYON_NO_LINKABLE_ENDS);
    }
    if b_l_tag == 0x63 && crate::common::starts_with_bytes(pch_r_str, &[0x6e, 0x5f, 0x4e]) {
        return pch_r_str.len() > 3 && pch_r_str[3] != 0;
    }
    true
}

/// The letter a preceding root may end in for a candidate tagged `m` to follow it.
pub open spec fn m_root_letter(c: u8) -> bool {
    seq![0x4eu8, 0x44, 0x4c, 0x4d, 0x42, 0x53, 0x4a, 0x47, 0x2a, 0x43, 0x50, 0x48, 0x51, 0x56, 0x54, 0x4b].contains(c)
}

/// The byte at `i`, 0 past the end.
pub open spec fn byte_or_zero(s: Seq<u8>, i: int) -> u8 {
    if 0 <= i < s.len() { s[i] } else { 0 }
}

/// May the ending with particle bits `u` stay linked under a voiced predicate `tag` after
/// the root `gsch` (whose letter at the focus is `last`).
pub open spec fn keep_link(u: u32, gsch: Seq<u8>, last: u8, tag: u8) -> bool {
    let ebs = gsch == seq![0x65u8, 0x42, 0x53];
    let iv = gsch == seq![0x69u8, 0x56];
    let cond1 = (u & 0x100) != 0;
    let cond2 = !ebs && !iv;
    let cond3 = !(tag == 0x43 || tag == 0x44);
    let cond4 = ebs || u >= 0x80;
    let cond5 = (tag == 0x42 || tag == 0x40) && last != 0x48 && (u & 0x40) == 0;
    (cond1 || (cond2 && (cond3 || cond4))) && !cond5
}

/// The links of a candidate up to its first -1.
pub open spec fn live_links(l: Seq<i16>) -> Seq<i16>
    decreases l.len(),
{
    if l.len() == 0 || l[0] == -1 {
        Seq::empty()
    } else {
        seq![l[0]] + live_links(l.drop_first())
    }
}

/// Every live link of a candidate names a candidate.
pub open spec fn links_in_range(l: Seq<i16>, n: int) -> bool {
    forall|k: int| 0 <= k < live_links(l).len() ==> 0 <= #[trigger] live_links(l)[k] < n
}

/// The live links of a candidate that stay under a voiced predicate: those to endings
/// that `keep_link` allows.
pub open spec fn kept_links(cands: Seq<MorphCand>, l: Seq<i16>, gsch: Seq<u8>, last: u8, tag: u8) -> Seq<i16>
    decreases l.len(),
{
    if l.len() == 0 || l[0] == -1 {
        Seq::empty()
    } else {
        let t = cands[l[0] as int];
        let rest = kept_links(cands, l.drop_first(), gsch, last, tag);
        if yongon_to(t.ch_pumsa) && keep_link(t.un_to_info, gsch, last, tag) {
            seq![l[0]] + rest
        } else {
            rest
        }
    }
}

/// The context of a new candidate: the root's spelling, the focus position in it, the
/// word's spelling, the position it ends at, its tag, whether it starts a new word, and
/// whether the bigram of its tag and each tag is zero.
pub struct LinkCtx<'a> {
    pub gsch: &'a [u8],
    pub gn: usize,
    pub pyogi: &'a [u8],
    pub end: i16,
    pub tag: u8,
    pub b_new: bool,
    pub bi: &'a PosBigram,
}

/// The bigram of two tag characters is zero (tags outside the table count as zero).
pub open spec fn bigram_zero(bi: &PosBigram, l: u8, r: u8) -> bool {
    bi.get_bits_spec(tag_index(l), tag_index(r)) & 0x7fff_ffff_ffff_ffff == 0
}

/// The table index of a tag character: its distance from `'0'`, modulo 256.
pub open spec fn tag_index(t: u8) -> u8 {
    if t >= 0x30 {
        (t - 0x30) as u8
    } else {
        (t + 256 - 0x30) as u8
    }
}

fn tag_index_exec(t: u8) -> (r: u8)
    ensures
        r == tag_index(t),
{
    if t >= 0x30 {
        t - 0x30
    } else {
        (t as u16 + 256 - 0x30) as u8
    }
}

/// The tests a candidate passes before its links are looked at: it starts where the new
/// one ends, the bigram is not zero (unless the new tag is `j`), it has a root, and the
/// pair may be neighbours; a candidate tagged `m` also needs a root letter at the focus.
pub open spec fn link_pre(c: MorphCand, x: LinkCtx) -> bool {
    &&& c.w_start_pos == x.end
    &&& !(bigram_zero(x.bi, x.tag, c.ch_pumsa) && x.tag != 0x6a)
    &&& c.w_root_pos != -1
    &&& neighbour_ok(x.tag, c.ch_pumsa, c.sch_morph_str@)
    &&& (c.ch_pumsa == 0x6d ==> m_root_letter(byte_or_zero(x.gsch@, x.gn as int)))
}

/// A candidate tagged `m` under a voiced predicate gets its links filtered.
pub open spec fn filters_links(c: MorphCand, x: LinkCtx) -> bool {
    link_pre(c, x) && c.ch_pumsa == 0x6d && voice_yong_yon(x.tag)
}

/// The links a candidate has after the new candidate looked at it: filtered (and -1
/// ended) where `filters_links` holds and some stay, else as they were.
pub open spec fn new_links(cands: Seq<MorphCand>, c: MorphCand, x: LinkCtx) -> Seq<i16> {
    let k = kept_links(cands, c.sw_link_morph_idx@, x.gsch@, byte_or_zero(x.gsch@, x.gn as int), x.tag);
    if filters_links(c, x) && k.len() > 0 {
        k.push(-1i16)
    } else {
        c.sw_link_morph_idx@
    }
}

/// The new candidate links to candidate `c`: it passes `link_pre`, keeps some links when
/// they are filtered, and the particle or ending may follow the root.
pub open spec fn links_to(cands: Seq<MorphCand>, c: MorphCand, x: LinkCtx) -> bool {
    &&& link_pre(c, x)
    &&& (filters_links(c, x) ==> kept_links(cands, c.sw_link_morph_idx@, x.gsch@, byte_or_zero(x.gsch@, x.gn as int), x.tag).len() > 0)
    &&& (cheon_part(x.tag) && 0x54 <= c.ch_pumsa <= 0x68 ==> cheon_ok(
        x.gsch@,
        x.b_new,
        c.ch_pumsa,
        c.un_to_info,
        c.sch_morph_str@,
    ))
    &&& (voice_yong_yon(x.tag) && yongon_to(c.ch_pumsa) ==> yongon_ok(
        x.gsch@,
        x.tag,
        x.b_new,
        c.un_to_info,
        c.ch_pumsa,
        c.sch_morph_str@,
        x.pyogi@,
    ))
    &&& !(yongon_to(c.ch_pumsa) && x.tag == 0x62 && (c.un_to_info & 0x200) == 0)
}

/// The candidates from `i` down: (the linked indices, at most 19 in all with the `count`
/// before, the index at which the walk stopped early or -1, and the highest root position
/// among them above `root`).
pub open spec fn link_walk(cands: Seq<MorphCand>, x: LinkCtx, i: int, count: int, root: i16) -> (Seq<i16>, int, i16)
    decreases i + 1,
{
    if i < 0 {
        (Seq::empty(), -1, root)
    } else if links_to(cands, cands[i], x) {
        if count > 0x12 {
            (Seq::empty(), i, root)
        } else {
            let r2 = if cands[i].w_root_pos > root { cands[i].w_root_pos } else { root };
            let w = link_walk(cands, x, i - 1, count + 1, r2);
            (seq![i as i16] + w.0, w.1, w.2)
        }
    } else {
        link_walk(cands, x, i - 1, count, root)
    }
}

/// Nothing the walk reads is out of range: live links of filtered candidates name
/// candidates, and where an ending is checked against a predicate root the root converts
/// to Hangul with a class.
pub open spec fn link_ok(cands: Seq<MorphCand>, x: LinkCtx, n: int) -> bool {
    &&& n < cands.len()
    &&& forall|i: int| 0 <= i <= n && #[trigger] filters_links(cands[i], x) ==> links_in_range(cands[i].sw_link_morph_idx@, cands.len() as int)
    &&& forall|i: int| 0 <= i <= n && link_pre(#[trigger] cands[i], x) && voice_yong_yon(x.tag) && yongon_to(cands[i].ch_pumsa)
        && yongon_gate(x.gsch@, x.tag, x.b_new, cands[i].un_to_info) is None ==> pyogi_wan_ok(x.gsch@) && yong_yon_ok(yongon_word(x.gsch@))
}

fn kept_links_exec(cands: &Vec<MorphCand>, l: &Vec<i16>, gsch: &[u8], last: u8, tag: u8) -> (r: Vec<i16>)
    requires
        links_in_range(l@, cands@.len() as int),
    ensures
        r@ == kept_links(cands@, l@, gsch@, last, tag),
{
    let ghost full = l@;
    let mut keep: Vec<i16> = Vec::new();
    let mut k: usize = 0;
    proof {
        assert(l@.subrange(0, l@.len() as int) =~= l@);
        assert(l@.subrange(0, 0) =~= Seq::<i16>::empty());
        assert(keep@ + kept_links(cands@, l@, gsch@, last, tag) =~= kept_links(cands@, l@, gsch@, last, tag));
        assert(Seq::<i16>::empty() + live_links(l@) =~= live_links(l@));
    }
    while k < l.len() && l[k] != -1
        invariant
            full == l@,
            k <= l@.len(),
            links_in_range(l@, cands@.len() as int),
            forall|q: int| 0 <= q < k ==> l@[q] != -1,
            keep@ + kept_links(cands@, l@.subrange(k as int, l@.len() as int), gsch@, last, tag) == kept_links(
                cands@,
                l@,
                gsch@,
                last,
                tag,
            ),
            live_links(l@) == l@.subrange(0, k as int) + live_links(l@.subrange(k as int, l@.len() as int)),
        decreases l@.len() - k,
    {
        let t = l[k];
        let ghost rest = l@.subrange(k as int, l@.len() as int);
        proof {
            assert(rest[0] == t);
            assert(rest.drop_first() =~= l@.subrange(k + 1, l@.len() as int));
            assert(live_links(rest) == seq![t] + live_links(rest.drop_first()));
            assert(live_links(l@)[k as int] == t);
            assert(0 <= live_links(l@)[k as int] < cands@.len());
        }
        let tgt = &cands[t as usize];
        if is_k_yongon_to(tgt.ch_pumsa) && keep_link_exec(tgt.un_to_info, gsch, last, tag) {
            keep.push(t);
        }
        k = k + 1;
        proof {
            assert(l@.subrange(0, k as int) =~= l@.subrange(0, k - 1) + seq![t]);
        }
    }
    proof {
        let rest = l@.subrange(k as int, l@.len() as int);
        assert(kept_links(cands@, rest, gsch@, last, tag) =~= Seq::<i16>::empty());
        assert(keep@ + Seq::<i16>::empty() =~= keep@);
    }
    keep
}

fn keep_link_exec(u: u32, gsch: &[u8], last: u8, tag: u8) -> (r: bool)
    ensures
        r == keep_link(u, gsch@, last, tag),
{
    let ebs = crate::common::bytes_eq(gsch, &[0x65, 0x42, 0x53]);
    let iv = crate::common::bytes_eq(gsch, &[0x69, 0x56]);
    let cond1 = (u & 0x100) != 0;
    let cond2 = !ebs && !iv;
    let cond3 = !(tag == 0x43 || tag == 0x44);
    let cond4 = ebs || u >= 0x80;
    let cond5 = (tag == 0x42 || tag == 0x40) && last != 0x48 && (u & 0x40) == 0;
    (cond1 || (cond2 && (cond3 || cond4))) && !cond5
}

fn m_root_letter_exec(c: u8) -> (r: bool)
    ensures
        r == m_root_letter(c),
{
    let l: [u8; 16] = [0x4e, 0x44, 0x4c, 0x4d, 0x42, 0x53, 0x4a, 0x47, 0x2a, 0x43, 0x50, 0x48, 0x51, 0x56, 0x54, 0x4b];
    let mut i: usize = 0;
    while i < 16
        invariant
            i <= 16,
            l@ == seq![0x4eu8, 0x44, 0x4c, 0x4d, 0x42, 0x53, 0x4a, 0x47, 0x2a, 0x43, 0x50, 0x48, 0x51, 0x56, 0x54, 0x4b],
            forall|j: int| 0 <= j < i ==> l@[j] != c,
        decreases 16 - i,
    {
        if l[i] == c {
            proof {
                assert(l@[i as int] == c);
            }
            return true;
        }
        i = i + 1;
    }
    false
}

/// The candidate as it is after the walk: its links replaced where the walk filtered them.
pub open spec fn same_but_links(a: MorphCand, b: MorphCand) -> bool {
    a.w_start_pos == b.w_start_pos && a.w_end_pos == b.w_end_pos && a.w_root_pos == b.w_root_pos
        && a.sch_morph_str@ == b.sch_morph_str@ && a.ch_pumsa == b.ch_pumsa && a.un_to_info
        == b.un_to_info && a.b_retrieved == b.b_retrieved
}

/// Finds the candidates (from `n_curr_morph_cnt` down) that a new candidate ending at
/// `x.end` links to: their indices end with -1 in `pw_link_morph_idx`, the highest of
/// their root positions (or -1) goes to `pw_root_morph_pos`, and candidates tagged `m`
/// under a voiced predicate keep only the links that may stay.
pub fn get_link_morph_idx(
    cands: &mut Vec<MorphCand>,
    x: &LinkCtx,
    n_curr_morph_cnt: i32,
    pw_root_morph_pos: &mut i16,
    pw_link_morph_idx: &mut Vec<i16>,
)
    requires
        link_ok(old(cands)@, *x, n_curr_morph_cnt as int),
    ensures
        ({
            let w = link_walk(old(cands)@, *x, n_curr_morph_cnt as int, 0, -1i16);
            &&& final(pw_link_morph_idx)@ == w.0.push(-1i16)
            &&& *final(pw_root_morph_pos) == w.2
            &&& final(cands)@.len() == old(cands)@.len()
            &&& forall|j: int|
                0 <= j < old(cands)@.len() ==> same_but_links(#[trigger] final(cands)@[j], old(cands)@[j])
                    && final(cands)@[j].sw_link_morph_idx@ == if w.1 <= j <= n_curr_morph_cnt {
                    new_links(old(cands)@, old(cands)@[j], *x)
                } else {
                    old(cands)@[j].sw_link_morph_idx@
                }
        }),
{
    let ghost c0 = cands@;
    let ghost w = link_walk(c0, *x, n_curr_morph_cnt as int, 0, -1i16);
    let last: u8 = if x.gn < x.gsch.len() { x.gsch[x.gn] } else { 0 };
    let mut local_52: i16 = -1;
    let mut n_count: usize = 0;
    let mut links_out: Vec<i16> = Vec::new();
    let mut i: i32 = n_curr_morph_cnt;
    let mut stop: i32 = -1;
    while i >= 0
        invariant_except_break
            i <= n_curr_morph_cnt,
            stop == -1,
            links_out@ + link_walk(c0, *x, i as int, n_count as int, local_52).0 == w.0,
            link_walk(c0, *x, i as int, n_count as int, local_52).1 == w.1,
            link_walk(c0, *x, i as int, n_count as int, local_52).2 == w.2,
            forall|j: int|
                0 <= j < c0.len() ==> #[trigger] cands@[j].sw_link_morph_idx@ == if i < j <= n_curr_morph_cnt {
                    new_links(c0, c0[j], *x)
                } else {
                    c0[j].sw_link_morph_idx@
                },
        invariant
            link_ok(c0, *x, n_curr_morph_cnt as int),
            w == link_walk(c0, *x, n_curr_morph_cnt as int, 0, -1i16),
            last == byte_or_zero(x.gsch@, x.gn as int),
            n_count <= 0x13,
            cands@.len() == c0.len(),
            forall|j: int| 0 <= j < c0.len() ==> same_but_links(#[trigger] cands@[j], c0[j]),
        ensures
            links_out@ == w.0,
            local_52 == w.2,
            forall|j: int|
                0 <= j < c0.len() ==> #[trigger] cands@[j].sw_link_morph_idx@ == if w.1 <= j <= n_curr_morph_cnt {
                    new_links(c0, c0[j], *x)
                } else {
                    c0[j].sw_link_morph_idx@
                },
        decreases i + 1,
    {
        let iu = i as usize;
        let ghost cj = c0[iu as int];
        proof {
            assert(same_but_links(cands@[iu as int], cj));
            assert(cands@[iu as int].sw_link_morph_idx@ == cj.sw_link_morph_idx@);
        }
        let start = cands[iu].w_start_pos;
        let pumsa = cands[iu].ch_pumsa;
        let root = cands[iu].w_root_pos;
        let info = cands[iu].un_to_info;
        let pre = start == x.end && !(x.bi.is_zero(tag_index_exec(x.tag), tag_index_exec(pumsa)) && x.tag != 0x6a)
            && root != -1 && check_neighbour_morpheme(x.tag, pumsa, cands[iu].sch_morph_str.as_slice())
            && (pumsa != 0x6d || m_root_letter_exec(last));
        proof {
            assert(pre == link_pre(cj, *x));
        }
        let mut ok = pre;
        if pre && pumsa == 0x6d && is_k_voice_yong_yon(x.tag) {
            proof {
                assert(filters_links(cj, *x));
            }
            let keep = kept_links_exec(cands, &cands[iu].sw_link_morph_idx, x.gsch, last, x.tag);
            proof {
                assert(keep@ == kept_links(c0, cj.sw_link_morph_idx@, x.gsch@, last, x.tag)) by {
                    assert(cands@.len() == c0.len());
                    assert forall|q: int| 0 <= q < c0.len() implies cands@[q].ch_pumsa == c0[q].ch_pumsa
                        && cands@[q].un_to_info == c0[q].un_to_info by {
                        assert(same_but_links(cands@[q], c0[q]));
                    }
                    lemma_kept_links_same(cands@, c0, cj.sw_link_morph_idx@, x.gsch@, last, x.tag);
                }
            }
            if keep.len() == 0 {
                ok = false;
            } else {
                let mut keep2 = keep;
                keep2.push(-1);
                let mut c = cands[iu].clone_cand();
                c.sw_link_morph_idx = keep2;
                cands.set(iu, c);
            }
        }
        if ok && is_k_cheon_part(x.tag) && is_to(pumsa) && !is_combinable_cheon_to(x.gsch, x.b_new, &cands[iu]) {
            ok = false;
        }
        if ok && is_k_voice_yong_yon(x.tag) && is_k_yongon_to(pumsa) && !is_combinable_yongon_to(
            x.gsch,
            x.tag,
            x.b_new,
            &cands[iu],
            x.pyogi,
        ) {
            ok = false;
        }
        if ok && is_k_yongon_to(pumsa) && x.tag == 0x62 && (info & 0x200) == 0 {
            ok = false;
        }
        proof {
            assert(ok == links_to(c0, cj, *x));
        }
        if ok {
            if n_count > 0x12 {
                stop = i;
                break;
            }
            links_out.push(i as i16);
            n_count = n_count + 1;
            if root > local_52 {
                local_52 = root;
            }
        }
        i = i - 1;
    }
    links_out.push(-1);
    *pw_link_morph_idx = links_out;
    *pw_root_morph_pos = local_52;
}

proof fn lemma_kept_links_same(a: Seq<MorphCand>, b: Seq<MorphCand>, l: Seq<i16>, gsch: Seq<u8>, last: u8, tag: u8)
    requires
        a.len() == b.len(),
        forall|q: int| 0 <= q < b.len() ==> a[q].ch_pumsa == b[q].ch_pumsa && a[q].un_to_info == b[q].un_to_info,
        links_in_range(l, b.len() as int),
    ensures
        kept_links(a, l, gsch, last, tag) == kept_links(b, l, gsch, last, tag),
    decreases l.len(),
{
    if l.len() > 0 && l[0] != -1 {
        assert(live_links(l) == seq![l[0]] + live_links(l.drop_first()));
        assert(live_links(l)[0] == l[0]);
        assert forall|k: int| 0 <= k < live_links(l.drop_first()).len() implies 0 <= #[trigger] live_links(l.drop_first())[k] < b.len() by {
            assert(live_links(l)[k + 1] == live_links(l.drop_first())[k]);
        }
        lemma_kept_links_same(a, b, l.drop_first(), gsch, last, tag);
    }
}

} // verus!
