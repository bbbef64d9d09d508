//! Morpheme candidates of the analyser and the checks that decide whether a particle or
//! an ending may follow a root, in the romanized (pyogi) spelling.
use vstd::prelude::*;
use crate::code::{conv_pyogi_to_uni_wan, cvc_wan, pyogi_cvc, triple_ok};
use crate::common::{bytes_eq, copy_range, has_prefix, slice_range, starts_with_bytes};
use crate::tables::{is_bagum_yi, is_k_cheon_to, is_k_yongon_to, is_to};
use crate::yongon::{add_classes, get_yong_yon_num, yong_yon_bytes, yong_yon_ok};

verus! {

/// A morpheme candidate: where it lies in the word, the candidates it links to, its
/// spelling, part of speech and what particles or endings it takes. Its probabilities are
/// kept by the analyser beside it.
#[derive(Debug, Clone)]
pub struct MorphCand {
    pub w_start_pos: i16,
    pub w_end_pos: i16,
    pub w_root_pos: i16,
    pub sw_link_morph_idx: Vec<i16>,
    pub sch_morph_str: Vec<u8>,
    pub ch_pumsa: u8,
    pub un_to_info: u32,
    pub b_retrieved: bool,
}

impl MorphCand {
    /// A copy of the candidate.
    pub fn clone_cand(&self) -> (r: MorphCand)
        ensures
            r.w_start_pos == self.w_start_pos && r.w_end_pos == self.w_end_pos && r.w_root_pos
                == self.w_root_pos,
            r.sw_link_morph_idx@ == self.sw_link_morph_idx@,
            r.sch_morph_str@ == self.sch_morph_str@,
            r.ch_pumsa == self.ch_pumsa && r.un_to_info == self.un_to_info && r.b_retrieved
                == self.b_retrieved,
    {
        let mut links: Vec<i16> = Vec::new();
        let mut i: usize = 0;
        while i < self.sw_link_morph_idx.len()
            invariant
                i <= self.sw_link_morph_idx@.len(),
                links@ == self.sw_link_morph_idx@.subrange(0, i as int),
            decreases self.sw_link_morph_idx@.len() - i,
        {
            links.push(self.sw_link_morph_idx[i]);
            i = i + 1;
            proof {
                assert(links@ =~= self.sw_link_morph_idx@.subrange(0, i as int));
            }
        }
        proof {
            assert(links@ =~= self.sw_link_morph_idx@);
        }
        let n = self.sch_morph_str.len();
        MorphCand {
            w_start_pos: self.w_start_pos,
            w_end_pos: self.w_end_pos,
            w_root_pos: self.w_root_pos,
            sw_link_morph_idx: links,
            sch_morph_str: copy_range(self.sch_morph_str.as_slice(), 0, n),
            ch_pumsa: self.ch_pumsa,
            un_to_info: self.un_to_info,
            b_retrieved: self.b_retrieved,
        }
    }

    /// An empty candidate.
    pub fn new() -> (r: MorphCand)
        ensures
            r.w_start_pos == 0 && r.w_end_pos == 0 && r.w_root_pos == 0,
            r.sw_link_morph_idx@.len() == 0,
            r.sch_morph_str@.len() == 0,
            r.ch_pumsa == 0 && r.un_to_info == 0 && !r.b_retrieved,
    {
        MorphCand {
            w_start_pos: 0,
            w_end_pos: 0,
            w_root_pos: 0,
            sw_link_morph_idx: Vec::new(),
            sch_morph_str: Vec::new(),
            ch_pumsa: 0,
            un_to_info: 0,
            b_retrieved: false,
        }
    }
}

/// First byte, or 0 for an empty string.
pub open spec fn first_byte(s: Seq<u8>) -> u8 {
    if s.len() > 0 { s[0] } else { 0 }
}

/// Last byte, or 0 for an empty string.
pub open spec fn last_byte(s: Seq<u8>) -> u8 {
    if s.len() > 0 { s[s.len() - 1] } else { 0 }
}

/// A root ends in a closed syllable: its last letter is an upper-case final consonant or
/// `*`.
pub open spec fn closed_root(s: Seq<u8>) -> bool {
    s.len() > 0 && ((0x41 <= last_byte(s) <= 0x5a) || last_byte(s) == 0x2a)
}

/// Is the root spelled "ci" or "k9", the two whose copula ending changes.
pub fn is_change_ium_to(s: &[u8]) -> (b: bool)
    ensures
        b == (s@ == seq![0x63u8, 0x69] || s@ == seq![0x6bu8, 0x39]),
{
    bytes_eq(s, &[0x63, 0x69]) || bytes_eq(s, &[0x6b, 0x39])
}

/// Does the root end in a closed syllable.
pub fn is_closed_syllable_k_root(s: &[u8]) -> (b: bool)
    ensures
        b == closed_root(s@),
{
    if s.len() == 0 {
        return false;
    }
    let c = s[s.len() - 1];
    (0x41 <= c && c <= 0x5a) || c == 0x2a
}

/// `needle` occurs in `hay` (the empty string occurs everywhere).
pub open spec fn contains_sub(hay: Seq<u8>, needle: Seq<u8>) -> bool {
    needle.len() == 0 || exists|i: int|
        0 <= i && i + needle.len() <= hay.len() && #[trigger] hay.subrange(i, i + needle.len()) == needle
}

/// Does `needle` occur in `hay`.
pub fn contains_subslice(hay: &[u8], needle: &[u8]) -> (r: bool)
    ensures
        r == contains_sub(hay@, needle@),
{
    let m = needle.len();
    if m == 0 {
        return true;
    }
    if m > hay.len() {
        return false;
    }
    let last = hay.len() - m;
    let mut i: usize = 0;
    while i <= last
        invariant
            m == needle@.len() > 0,
            last + m == hay@.len(),
            last + m <= usize::MAX,
            forall|j: int| 0 <= j < i ==> #[trigger] hay@.subrange(j, j + m) != needle@,
        decreases last + 1 - i,
    {
        if bytes_eq(slice_range(hay, i, i + m), needle) {
            return true;
        }
        i = i + 1;
    }
    proof {
        assert forall|j: int| 0 <= j && j + m <= hay@.len() implies #[trigger] hay@.subrange(j, j + m)
            != needle@ by {
            assert(j < i);
        }
    }
    false
}

/// A particle (`'T'` to `'h'`).
pub open spec fn to_tag(tag: u8) -> bool {
    0x54 <= tag <= 0x68
}

/// A particle that attaches to a noun.
pub open spec fn cheon_to(tag: u8) -> bool {
    0x54 <= tag <= 0x5B || tag == 0x5D || tag == 0x5C || tag == 0x63
}

/// An ending that attaches to a predicate.
pub open spec fn yongon_to(tag: u8) -> bool {
    tag == 0x5E || tag == 0x5F || tag == 0x60 || tag == 0x61 || tag == 0x62 || tag == 0x64 || tag
        == 0x68 || tag == 0x67
}

/// A particle spelled from an upper-case letter, which cannot start a particle.
pub open spec fn bad_tim_to(tag: u8, s: Seq<u8>) -> bool {
    to_tag(tag) && 0x41 <= first_byte(s) <= 0x5a
}

/// Is this a particle spelled from an upper-case letter.
pub fn is_bad_tim_to(b_tag: u8, pch_str: &[u8]) -> (b: bool)
    ensures
        b == bad_tim_to(b_tag, pch_str@),
{
    if is_to(b_tag) {
        let c = if pch_str.len() > 0 { pch_str[0] } else { 0 };
        return 0x41 <= c && c <= 0x5a;
    }
    false
}

/// Part-of-speech groups of predicates: `e` (`^ _ a b d g`), `d` (`a` to `c`, and
/// `C @ B f D`), `p` (`C @ B f D`).
pub open spec fn yongon_type(p: u8, c: u8) -> bool {
    if c == 0x64 && 0x61 <= p <= 0x63 {
        true
    } else if c == 0x65 && (p == 0x5e || p == 0x5f) {
        true
    } else if c == 0x65 {
        p == 0x61 || p == 0x64 || p == 0x62 || p == 0x67
    } else if c == 0x64 || c == 0x70 {
        p == 0x43 || p == 0x40 || p == 0x42 || p == 0x66 || p == 0x44
    } else {
        false
    }
}

/// Is part of speech `ch_pumsa` in the predicate group `ch_cmp`.
pub fn is_yongon_type(ch_pumsa: u8, ch_cmp: u8) -> (b: bool)
    ensures
        b == yongon_type(ch_pumsa, ch_cmp),
{
    if ch_cmp == 0x64 {
        if 0x61 <= ch_pumsa && ch_pumsa <= 0x63 {
            return true;
        }
    } else if ch_cmp == 0x65 {
        if ch_pumsa == 0x5e || ch_pumsa == 0x5f {
            return true;
        }
        return ch_pumsa == 0x61 || ch_pumsa == 0x64 || ch_pumsa == 0x62 || ch_pumsa == 0x67;
    } else if ch_cmp != 0x70 {
        return false;
    }
    ch_pumsa == 0x43 || ch_pumsa == 0x40 || ch_pumsa == 0x42 || ch_pumsa == 0x66 || ch_pumsa == 0x44
}

/// A lower-case consonant letter of the spelling.
pub open spec fn lower_consonant(c: u8) -> bool {
    seq![0x62u8, 0x63, 0x64, 0x66, 0x67, 0x68, 0x6a, 0x6b, 0x6c, 0x6d, 0x6e, 0x70, 0x71, 0x72, 0x73, 0x74, 0x76, 0x78, 0x7a].contains(c)
}

fn byte_in(c: u8, l: &[u8]) -> (r: bool)
    ensures
        r == l@.contains(c),
{
    let mut i: usize = 0;
    while i < l.len()
        invariant
            i <= l@.len(),
            forall|j: int| 0 <= j < i ==> l@[j] != c,
        decreases l@.len() - i,
    {
        if l[i] == c {
            proof {
                assert(l@[i as int] == c);
            }
            return true;
        }
        i = i + 1;
    }
    false
}

/// May a noun particle, or a predicate ending, with these properties follow the word
/// `w`: a new word always; a particle by its final-consonant bits; an ending only when
/// it allows a noun root, and after a closed syllable only when it does not start with a
/// consonant.
pub open spec fn cheon_ok(w: Seq<u8>, b_new: bool, pumsa: u8, u: u32, morph: Seq<u8>) -> bool {
    if b_new {
        true
    } else if cheon_to(pumsa) {
        if u != 0 {
            if closed_root(w) && (u & 0x400) != 0 {
                pumsa == 0x59 && last_byte(w) == 0x4c
            } else {
                ((u >> 11u32) & 1 == 1) != !closed_root(w)
            }
        } else {
            true
        }
    } else if yongon_to(pumsa) {
        if (u & 0x20) == 0 {
            false
        } else if closed_root(w) {
            !lower_consonant(first_byte(morph))
        } else {
            true
        }
    } else {
        true
    }
}

/// Can candidate `cand` follow the noun `pch_word`.
pub fn is_combinable_cheon_to(pch_word: &[u8], b_new: bool, cand: &MorphCand) -> (b: bool)
    ensures
        b == cheon_ok(pch_word@, b_new, cand.ch_pumsa, cand.un_to_info, cand.sch_morph_str@),
{
    if b_new {
        return true;
    }
    let f_close = is_closed_syllable_k_root(pch_word);
    if is_k_cheon_to(cand.ch_pumsa) {
        let u = cand.un_to_info;
        if u != 0 {
            if f_close && (u & 0x400) != 0 {
                if cand.ch_pumsa != 0x59 {
                    return false;
                }
                let last = if pch_word.len() > 0 { pch_word[pch_word.len() - 1] } else { 0 };
                return last == 0x4c;
            }
            let bit = (u >> 11u32) & 1 == 1;
            return bit != !f_close;
        }
        return true;
    }
    if is_k_yongon_to(cand.ch_pumsa) {
        if (cand.un_to_info & 0x20) == 0 {
            return false;
        }
        if f_close {
            let c = if cand.sch_morph_str.len() > 0 { cand.sch_morph_str[0] } else { 0 };
            return !byte_in(
                c,
                &[0x62, 0x63, 0x64, 0x66, 0x67, 0x68, 0x6a, 0x6b, 0x6c, 0x6d, 0x6e, 0x70, 0x71, 0x72, 0x73, 0x74, 0x76, 0x78, 0x7a],
            );
        }
    }
    true
}

/// The decision made before the root's conjugation classes are looked at: `Some` when it
/// is already made.
pub open spec fn yongon_gate(g: Seq<u8>, tag: u8, b_new: bool, u: u32) -> Option<bool> {
    let ebs = seq![0x65u8, 0x42, 0x53];
    if b_new {
        Some(true)
    } else if (u & 0x100) == 0 && (g == ebs || g == seq![0x69u8, 0x56]) {
        Some(false)
    } else if ((tag == 0x43 || tag == 0x44) && g != ebs && (u & 0x80) == 0) || ((tag == 0x42 || tag
        == 0x40) && last_byte(g) != 0x48 && (u & 0x40) == 0) {
        Some(false)
    } else {
        None
    }
}

/// The root in Hangul followed by the syllable 다, as the class rules read it.
pub open spec fn yongon_word(g: Seq<u8>) -> Seq<u16> {
    cvc_wan(pyogi_cvc(g)).push(0xb2e4)
}

/// Every jamo triple of the root's spelling converts to Hangul.
pub open spec fn pyogi_wan_ok(g: Seq<u8>) -> bool {
    forall|i: int|
        0 <= i < pyogi_cvc(g).len() / 3 ==> #[trigger] triple_ok(
            pyogi_cvc(g)[3 * i],
            pyogi_cvc(g)[3 * i + 1],
            pyogi_cvc(g)[3 * i + 2],
        )
}

/// The decision by the ending's bits and the root's class `b2`.
pub open spec fn yongon_rest(g: Seq<u8>, u: u32, pumsa: u8, morph: Seq<u8>, pyogi: Seq<u8>, b2: u8) -> bool {
    let f_close = closed_root(g);
    let c1 = last_byte(g);
    let m0 = first_byte(morph);
    let no_ye = !has_prefix(morph, seq![0x79u8, 0x65]);
    if (u & 1) != 0 {
        true
    } else if (u & 2) != 0 && bad_tim_to(pumsa, morph) {
        if f_close && c1 != 0x4c {
            if 0x34 <= b2 <= 0x3b && g == seq![0x69u8] {
                g.len() > 3 && g[3] == 0x6e
            } else {
                false
            }
        } else {
            true
        }
    } else if (u & 2) != 0 && (morph == seq![0x6eu8, 0x5f, 0x4e, 0x64, 0x61] || m0 == 0x73) {
        f_close
    } else if (u & 4) == 0 {
        if (u & 8) == 0 {
            if (u & 0x10) != 0 {
                if !f_close {
                    m0 != 0x5f
                } else if m0 != 0x5f {
                    c1 == 0x4c || c1 == 0x42 || c1 == 0x48
                } else {
                    true
                }
            } else {
                true
            }
        } else if ((b2 == 0x1b || b2 == 0x1c || b2 == 0x37) && has_prefix(morph, seq![0x5fu8, 0x4e]))
            || b2 == 0x1d || b2 == 0x1e || b2 == 0x3c || b2 == 0x3d {
            !contains_sub(pyogi, g + morph)
        } else if !f_close {
            m0 != 0x5f
        } else if m0 != 0x5f {
            c1 == 0x42 || c1 == 0x48
        } else {
            true
        }
    } else {
        match b2 {
            0x01 | 0x09 | 0x0a | 0x0d | 0x10 | 0x16 | 0x19 | 0x1b | 0x1d | 0x24 | 0x2a | 0x2c | 0x2d
            | 0x2f | 0x34 | 0x37 | 0x38 | 0x39 | 0x3a | 0x3b | 0x3c => m0 != 0x65 && no_ye,
            0x03 | 0x06 | 0x14 | 0x21 | 0x32 => m0 != 0x61,
            0x04 | 0x07 | 0x08 | 0x0f => m0 != 0x61 && (m0 == 0x6a ==> !(morph.len() > 1 && morph[1]
                == 0x69)),
            0x05 | 0x0b | 0x35 => no_ye,
            0x0c | 0x11 | 0x12 | 0x13 | 0x17 | 0x18 | 0x1a | 0x1c | 0x1e | 0x1f | 0x20 | 0x25 | 0x2b
            | 0x2e | 0x30 | 0x31 | 0x36 | 0x3d => m0 != 0x61 && no_ye,
            0x23 | 0x26 | 0x28 => m0 != 0x65 && m0 != 0x61,
            _ => true,
        }
    }
}

/// May an ending with tag `tag` (candidate `cand`) follow the predicate root `g`, in the
/// word spelled `pyogi`: decided by the ending's bits and by the root's conjugation
/// classes, read with the syllable 다 after the root.
pub open spec fn yongon_ok(g: Seq<u8>, tag: u8, b_new: bool, u: u32, pumsa: u8, morph: Seq<u8>, pyogi: Seq<u8>) -> bool {
    match yongon_gate(g, tag, b_new, u) {
        Some(b) => b,
        None => {
            let bs = yong_yon_bytes(yongon_word(g));
            let c = add_classes(seq![0u8, 0u8], 0, bs);
            if bs.len() == 0 {
                true
            } else {
                let b2 = if tag != 0x40 && (tag != 0x43 || c.1 != 1) { c.0[1] } else { c.0[0] };
                yongon_rest(g, u, pumsa, morph, pyogi, b2)
            }
        },
    }
}

fn yongon_rest_exec(gsch: &[u8], cand: &MorphCand, pch_pyogi_str: &[u8], b_var2: u8) -> (r: bool)
    ensures
        r == yongon_rest(gsch@, cand.un_to_info, cand.ch_pumsa, cand.sch_morph_str@, pch_pyogi_str@, b_var2),
{
    let f_close = is_closed_syllable_k_root(gsch);
    let c_var1 = if gsch.len() > 0 { gsch[gsch.len() - 1] } else { 0 };
    let morph = cand.sch_morph_str.as_slice();
    let m0 = if morph.len() > 0 { morph[0] } else { 0 };
    let no_ye = !starts_with_bytes(morph, &[0x79, 0x65]);
    let u = cand.un_to_info;
    if (u & 1) != 0 {
        return true;
    }
    if (u & 2) != 0 {
        if is_bad_tim_to(cand.ch_pumsa, morph) {
            if f_close && c_var1 != 0x4c {
                if 0x34 <= b_var2 && b_var2 <= 0x3b && bytes_eq(gsch, &[0x69]) {
                    return gsch.len() > 3 && gsch[3] == 0x6e;
                }
                return false;
            }
            return true;
        }
        if bytes_eq(morph, &[0x6e, 0x5f, 0x4e, 0x64, 0x61]) || m0 == 0x73 {
            return f_close;
        }
    }
    if (u & 4) == 0 {
        if (u & 8) == 0 {
            if (u & 0x10) != 0 {
                if !f_close {
                    return m0 != 0x5f;
                }
                if m0 != 0x5f {
                    return c_var1 == 0x4c || c_var1 == 0x42 || c_var1 == 0x48;
                }
            }
            return true;
        }
        if ((b_var2 == 0x1b || b_var2 == 0x1c || b_var2 == 0x37) && starts_with_bytes(morph, &[0x5f, 0x4e]))
            || b_var2 == 0x1d || b_var2 == 0x1e || b_var2 == 0x3c || b_var2 == 0x3d {
            let mut comp = copy_range(gsch, 0, gsch.len());
            let mut k: usize = 0;
            while k < morph.len()
                invariant
                    k <= morph@.len(),
                    comp@ == gsch@ + morph@.subrange(0, k as int),
                decreases morph@.len() - k,
            {
                comp.push(morph[k]);
                k = k + 1;
                proof {
                    assert(comp@ =~= gsch@ + morph@.subrange(0, k as int));
                }
            }
            proof {
                assert(morph@.subrange(0, morph@.len() as int) =~= morph@);
            }
            return !contains_subslice(pch_pyogi_str, comp.as_slice());
        }
        if !f_close {
            return m0 != 0x5f;
        }
        if m0 != 0x5f {
            return c_var1 == 0x42 || c_var1 == 0x48;
        }
        return true;
    }
    match b_var2 {
        0x01 | 0x09 | 0x0a | 0x0d | 0x10 | 0x16 | 0x19 | 0x1b | 0x1d | 0x24 | 0x2a | 0x2c | 0x2d | 0x2f
        | 0x34 | 0x37 | 0x38 | 0x39 | 0x3a | 0x3b | 0x3c => m0 != 0x65 && no_ye,
        0x03 | 0x06 | 0x14 | 0x21 | 0x32 => m0 != 0x61,
        0x04 | 0x07 | 0x08 | 0x0f => {
            if m0 == 0x61 {
                false
            } else if m0 == 0x6a {
                !(morph.len() > 1 && morph[1] == 0x69)
            } else {
                true
            }
        },
        0x05 | 0x0b | 0x35 => no_ye,
        0x0c | 0x11 | 0x12 | 0x13 | 0x17 | 0x18 | 0x1a | 0x1c | 0x1e | 0x1f | 0x20 | 0x25 | 0x2b | 0x2e
        | 0x30 | 0x31 | 0x36 | 0x3d => m0 != 0x61 && no_ye,
        0x23 | 0x26 | 0x28 => m0 != 0x65 && m0 != 0x61,
        _ => true,
    }
}

/// Can the ending candidate `cand` (tagged `ch_new_tag`) follow the predicate root
/// `gsch` in the word spelled `pch_pyogi_str`.
pub fn is_combinable_yongon_to(
    gsch: &[u8],
    ch_new_tag: u8,
    b_new: bool,
    cand: &MorphCand,
    pch_pyogi_str: &[u8],
) -> (b: bool)
    requires
        yongon_gate(gsch@, ch_new_tag, b_new, cand.un_to_info) is None ==> pyogi_wan_ok(gsch@)
            && yong_yon_ok(yongon_word(gsch@)),
    ensures
        b == yongon_ok(
            gsch@,
            ch_new_tag,
            b_new,
            cand.un_to_info,
            cand.ch_pumsa,
            cand.sch_morph_str@,
            pch_pyogi_str@,
        ),
{
    if b_new {
        return true;
    }
    let c_var1 = if gsch.len() > 0 { gsch[gsch.len() - 1] } else { 0 };
    let u = cand.un_to_info;
    let ebs = bytes_eq(gsch, &[0x65, 0x42, 0x53]);
    proof {
        assert(ebs == (gsch@ == seq![0x65u8, 0x42, 0x53]));
    }
    if (u & 0x100) == 0 && (ebs || bytes_eq(gsch, &[0x69, 0x56])) {
        return false;
    }
    if ((ch_new_tag == 0x43 || ch_new_tag == 0x44) && !ebs && (u & 0x80) == 0) || ((ch_new_tag == 0x42
        || ch_new_tag == 0x40) && c_var1 != 0x48 && (u & 0x40) == 0) {
        return false;
    }
    let mut sw_kr = conv_pyogi_to_uni_wan(gsch);
    sw_kr.push(0xb2e4);
    let mut arr: [u8; 2] = [0, 0];
    let mut n_size: i32 = 0;
    proof {
        assert(arr@ =~= seq![0u8, 0u8]);
        assert(sw_kr@ =~= yongon_word(gsch@));
    }
    if !get_yong_yon_num(sw_kr.as_slice(), &mut arr, &mut n_size) {
        return true;
    }
    let b_var2 = if ch_new_tag != 0x40 && (ch_new_tag != 0x43 || n_size != 1) {
        arr[1]
    } else {
        arr[0]
    };
    yongon_rest_exec(gsch, cand, pch_pyogi_str, b_var2)
}

/// A predicate ending in its standard spelling: (spelling, whether the rule applied,
/// whether the leading `_` is left as it is).
pub open spec fn yongon_to_form(to: Seq<u8>, tag: u8) -> (Seq<u8>, bool, bool) {
    if to == seq![0x5fu8, 0x4c] {
        (seq![0x4cu8], true, false)
    } else if to == seq![0x5fu8, 0x4e] {
        (seq![0x4eu8], true, false)
    } else if (has_prefix(to, seq![0x65u8]) || has_prefix(to, seq![0x79u8, 0x65])) && tag == 0x67 {
        if has_prefix(to, seq![0x65u8]) {
            (to.update(0, 0x61), true, false)
        } else {
            (to.drop_first().update(0, 0x61), true, false)
        }
    } else if to == seq![0x65u8, 0x73, 0x65] || has_prefix(to, seq![0x79u8, 0x65, 0x73, 0x65]) {
        (seq![0x61u8, 0x73, 0x65], true, false)
    } else if has_prefix(to, seq![0x79u8, 0x65, 0x56]) || has_prefix(to, seq![0x79u8, 0x65, 0x53]) {
        (to.subrange(2, to.len() as int), true, false)
    } else if has_prefix(to, seq![0x65u8, 0x56]) || has_prefix(to, seq![0x65u8, 0x53]) || has_prefix(
        to,
        seq![0x61u8, 0x56],
    ) || has_prefix(to, seq![0x61u8, 0x53]) {
        (to.drop_first(), true, false)
    } else if has_prefix(to, seq![0x61u8, 0x56, 0x65, 0x56]) {
        (to.subrange(3, to.len() as int), true, true)
    } else {
        (to, false, false)
    }
}

/// A noun particle in its standard spelling, its tag, and whether the rule applied.
pub open spec fn cheon_to_form(to: Seq<u8>, tag: u8) -> (Seq<u8>, u8, bool) {
    if to == seq![0x69u8] || has_prefix(to, seq![0x71u8, 0x39, 0x73, 0x65]) {
        (seq![0x67u8, 0x61], tag, true)
    } else if to == seq![0x71u8, 0x39, 0x73, 0x65, 0x6e, 0x5f, 0x4e] {
        (seq![0x6eu8, 0x5f, 0x4e], 0x5d, true)
    } else if to.len() > 2 && has_prefix(to, seq![0x69u8]) {
        (to.drop_first(), tag, true)
    } else if to == seq![0x5fu8, 0x4c] {
        (seq![0x6cu8, 0x5f, 0x4c], tag, true)
    } else if to == seq![0x5fu8, 0x4e] {
        (seq![0x6eu8, 0x5f, 0x4e], tag, true)
    } else if to == seq![0x77u8, 0x61] {
        (seq![0x67u8, 0x77, 0x61], tag, true)
    } else if to.len() < 3 {
        (to, tag, false)
    } else if has_prefix(to, seq![0x5fu8]) {
        (to.drop_first(), tag, true)
    } else {
        (to, tag, false)
    }
}

/// The standard spelling of a particle or ending after any root, its tag, and whether a
/// rule applied: the forms after a vowel are written as those after a consonant
/// (`i` and `q9se...` as `ga`, `wa` as `gwa`, a dropped `_` restored), and an ending's
/// vowel harmony is undone (`e`/`ye` as `a`); anything else is left as it is.
pub open spec fn standard_to(to: Seq<u8>, tag: u8) -> (Seq<u8>, u8, bool) {
    if !cheon_to(tag) || tag == 0x63 {
        if !yongon_to(tag) {
            (to, tag, true)
        } else {
            let p = yongon_to_form(to, tag);
            if p.2 || !(p.0.len() >= 3 && has_prefix(p.0, seq![0x5fu8])) {
                (p.0, tag, p.1)
            } else {
                (p.0.drop_first(), tag, p.1)
            }
        }
    } else {
        cheon_to_form(to, tag)
    }
}

fn first_is(v: &[u8], c: u8) -> (r: bool)
    ensures
        r == has_prefix(v@, seq![c]),
{
    if v.len() == 0 {
        return false;
    }
    proof {
        assert(v@.subrange(0, 1) =~= seq![v@[0]]);
        if has_prefix(v@, seq![c]) {
            assert(v@.subrange(0, 1)[0] == c);
        }
    }
    v[0] == c
}

fn is_single(v: &[u8], c: u8) -> (r: bool)
    ensures
        r == (v@ == seq![c]),
{
    if v.len() != 1 {
        return false;
    }
    proof {
        if v@[0] == c {
            assert(v@ =~= seq![c]);
        }
    }
    v[0] == c
}

fn set_single(v: &mut Vec<u8>, c: u8)
    ensures
        final(v)@ == seq![c],
{
    v.clear();
    v.push(c);
    proof {
        assert(v@ =~= seq![c]);
    }
}

fn set_bytes(v: &mut Vec<u8>, lit: &[u8])
    ensures
        final(v)@ == lit@,
{
    *v = copy_range(lit, 0, lit.len());
    proof {
        assert(lit@.subrange(0, lit@.len() as int) =~= lit@);
    }
}

fn drop_front(v: &mut Vec<u8>, k: usize)
    requires
        k <= old(v)@.len(),
    ensures
        final(v)@ == old(v)@.subrange(k as int, old(v)@.len() as int),
{
    let n = v.len();
    *v = copy_range(v.as_slice(), k, n);
}

/// Rewrites a particle or ending in its standard spelling (see `standard_to`).
pub fn standardize_to(pch_to: &mut Vec<u8>, pch_tag: &mut u8) -> (r: bool)
    ensures
        (final(pch_to)@, *final(pch_tag), r) == standard_to(old(pch_to)@, *old(pch_tag)),
{
    let ghost to0 = pch_to@;
    let is_cheon = is_k_cheon_to(*pch_tag);
    let is_bagum = is_bagum_yi(*pch_tag);
    if !is_cheon || is_bagum {
        if !is_k_yongon_to(*pch_tag) {
            return true;
        }
        let b_var6;
        if bytes_eq(pch_to.as_slice(), &[0x5f, 0x4c]) {
            set_single(pch_to, 0x4c);
            b_var6 = true;
        } else if bytes_eq(pch_to.as_slice(), &[0x5f, 0x4e]) {
            set_single(pch_to, 0x4e);
            b_var6 = true;
        } else if (first_is(pch_to.as_slice(), 0x65) || starts_with_bytes(pch_to.as_slice(), &[0x79, 0x65]))
            && *pch_tag == 0x67 {
            if first_is(pch_to.as_slice(), 0x65) {
                pch_to.set(0, 0x61);
            } else {
                drop_front(pch_to, 1);
                pch_to.set(0, 0x61);
            }
            b_var6 = true;
        } else if bytes_eq(pch_to.as_slice(), &[0x65, 0x73, 0x65]) || starts_with_bytes(
            pch_to.as_slice(),
            &[0x79, 0x65, 0x73, 0x65],
        ) {
            set_bytes(pch_to, &[0x61, 0x73, 0x65]);
            b_var6 = true;
        } else if starts_with_bytes(pch_to.as_slice(), &[0x79, 0x65, 0x56]) || starts_with_bytes(
            pch_to.as_slice(),
            &[0x79, 0x65, 0x53],
        ) {
            drop_front(pch_to, 2);
            b_var6 = true;
        } else if starts_with_bytes(pch_to.as_slice(), &[0x65, 0x56]) || starts_with_bytes(
            pch_to.as_slice(),
            &[0x65, 0x53],
        ) || starts_with_bytes(pch_to.as_slice(), &[0x61, 0x56]) || starts_with_bytes(
            pch_to.as_slice(),
            &[0x61, 0x53],
        ) {
            drop_front(pch_to, 1);
            b_var6 = true;
        } else if starts_with_bytes(pch_to.as_slice(), &[0x61, 0x56, 0x65, 0x56]) {
            drop_front(pch_to, 3);
            return true;
        } else {
            b_var6 = false;
        }
        if pch_to.len() >= 3 && first_is(pch_to.as_slice(), 0x5f) {
            drop_front(pch_to, 1);
        }
        return b_var6;
    }
    if is_single(pch_to.as_slice(), 0x69) || starts_with_bytes(pch_to.as_slice(), &[0x71, 0x39, 0x73, 0x65]) {
        set_bytes(pch_to, &[0x67, 0x61]);
        return true;
    }
    if bytes_eq(pch_to.as_slice(), &[0x71, 0x39, 0x73, 0x65, 0x6e, 0x5f, 0x4e]) {
        set_bytes(pch_to, &[0x6e, 0x5f, 0x4e]);
        *pch_tag = 0x5d;
        return true;
    }
    if pch_to.len() > 2 && first_is(pch_to.as_slice(), 0x69) {
        drop_front(pch_to, 1);
        return true;
    }
    if bytes_eq(pch_to.as_slice(), &[0x5f, 0x4c]) {
        set_bytes(pch_to, &[0x6c, 0x5f, 0x4c]);
        return true;
    }
    if bytes_eq(pch_to.as_slice(), &[0x5f, 0x4e]) {
        set_bytes(pch_to, &[0x6e, 0x5f, 0x4e]);
        return true;
    }
    if bytes_eq(pch_to.as_slice(), &[0x77, 0x61]) {
        set_bytes(pch_to, &[0x67, 0x77, 0x61]);
        return true;
    }
    if pch_to.len() < 3 {
        return false;
    }
    if first_is(pch_to.as_slice(), 0x5f) {
        drop_front(pch_to, 1);
        return true;
    }
    false
}

} // verus!

