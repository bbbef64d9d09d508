//! Analysed words as the analyser leaves them, and the per-word information handed on
//! to pronunciation: morphemes with their tags and Unicode ordinals, the word's own
//! ordinals, and its sentence marks.
use vstd::prelude::*;
use crate::code::{conv_uni_code_to_cvc, get_kchar_count, uni_code_cvc};
use crate::common::copy_range;
use crate::posngram::kchar_from;
use crate::tables::{is_sen_symbol, is_uni_korean_code};

verus! {

/// An irregular stem: its romanization and the text read in its place.
#[derive(Debug, Clone, PartialEq, Eq)]
pub struct IregulerStr {
    pub pyogi: Vec<u8>,
    pub irr_string: Vec<u8>,
}

/// A morpheme of an analysed word. `prob` holds the bit pattern of its probability
/// (an `f64`).
#[derive(Debug, Clone, PartialEq, Eq)]
pub struct MaMorph {
    pub ch_tag: u8,
    pub pyogi: Vec<u8>,
    pub cvc: Vec<u8>,
    pub prob: u64,
    pub b_merged: bool,
}

/// An analysed word: its source text, its morphemes and irregular stems, and whether a
/// sentence ends with it.
#[derive(Debug, Clone, PartialEq, Eq)]
pub struct MaWord {
    pub source: Vec<u16>,
    pub morphs: Vec<MaMorph>,
    pub b_str_type: u8,
    pub ireguler: Vec<IregulerStr>,
    pub b_sentence_end: bool,
}

/// A morpheme as handed on: its ordinals, its tag, the bit pattern of its probability
/// (an `f64`) and its length in syllables.
#[derive(Debug, Clone, PartialEq, Eq)]
pub struct Morph {
    pub cvc: Vec<u8>,
    pub pos: [u8; 2],
    pub prob: u64,
    pub surface_len: u8,
}

/// A word as handed on.
#[derive(Debug, Clone, PartialEq, Eq)]
pub struct WordAnal {
    pub morphs: Vec<Morph>,
    pub w_byte_num: u16,
    pub word_cvc: Vec<u8>,
    pub b_word_sen: bool,
    pub b_sentence_end: bool,
    pub source: Vec<u16>,
}

/// A morpheme as (ordinals, tag, second tag, probability bits, syllables).
pub type MorphView = (Seq<u8>, u8, u8, u64, u8);

pub open spec fn morph_view(m: Morph) -> MorphView {
    (m.cvc@, m.pos@[0], m.pos@[1], m.prob, m.surface_len)
}

/// Views of a list of morphemes.
pub open spec fn morph_views(s: Seq<Morph>) -> Seq<MorphView> {
    s.map_values(|m: Morph| morph_view(m))
}

/// What a list of morphemes of the analysis becomes.
pub open spec fn handed_on_all(s: Seq<MaMorph>) -> Seq<MorphView> {
    s.map_values(|m: MaMorph| handed_on(m))
}

/// What a morpheme of the analysis becomes: its ordinals, its tag, its probability and
/// its syllable count (kept to eight bits).
pub open spec fn handed_on(m: MaMorph) -> MorphView {
    (m.cvc@, m.ch_tag, 0u8, m.prob, kchar_from(m.pyogi@, 0) as u8)
}

/// `s` without the morphemes with no ordinals at its end.
pub open spec fn drop_empty_tail(s: Seq<MorphView>) -> Seq<MorphView>
    decreases s.len(),
{
    if s.len() > 0 && s.last().0.len() == 0 {
        drop_empty_tail(s.drop_last())
    } else {
        s
    }
}

/// `s` without its trailing empty morphemes, and without a last morpheme that is a
/// single sentence mark.
pub open spec fn trim_sentence_mark(s: Seq<MorphView>) -> Seq<MorphView> {
    let t = drop_empty_tail(s);
    if t.len() > 0 && t.last().0.len() == 1 && is_sen_mark(t.last().0[0] as u16) {
        t.drop_last()
    } else {
        t
    }
}

/// `.` `,` `!` `?`.
pub open spec fn is_sen_mark(w: u16) -> bool {
    w == 0x2E || w == 0x2C || w == 0x21 || w == 0x3F
}

/// The word ends with a sentence mark.
pub open spec fn ends_sentence(w: MaWord) -> bool {
    w.source@.len() > 0 && is_sen_mark(w.source@.last())
}

/// The word ends with a sentence mark other than a comma.
pub open spec fn cuts_mark(w: MaWord) -> bool {
    ends_sentence(w) && w.source@.last() != 0x2C
}

/// The morphemes handed on for a word: all of them, trimmed of a closing sentence mark
/// where the word ends with one other than a comma and has more than one morpheme.
pub open spec fn word_morphs(w: MaWord) -> Seq<MorphView> {
    let base = handed_on_all(w.morphs@);
    if cuts_mark(w) && base.len() > 1 {
        trim_sentence_mark(base)
    } else {
        base
    }
}

/// How many source units the word counts: all but a closing mark other than a comma.
pub open spec fn byte_num(w: MaWord) -> int {
    if cuts_mark(w) {
        w.source@.len() - 1
    } else {
        w.source@.len() as int
    }
}

/// The ordinals of the first `n` source units: those of each Hangul syllable, zeros for
/// anything else.
pub open spec fn source_cvc(src: Seq<u16>, n: int) -> Seq<u8>
    decreases n,
{
    if n <= 0 {
        Seq::empty()
    } else {
        source_cvc(src, n - 1) + if 0xAC00 <= src[n - 1] <= 0xD7A3 {
            uni_code_cvc(src[n - 1])
        } else {
            seq![0u8, 0u8, 0u8]
        }
    }
}

/// What a word is handed on as.
pub open spec fn word_info(a: WordAnal, w: MaWord) -> bool {
    &&& morph_views(a.morphs@) == word_morphs(w)
    &&& a.w_byte_num == byte_num(w) as u16
    &&& a.word_cvc@ == source_cvc(w.source@, byte_num(w))
    &&& a.b_word_sen == ends_sentence(w)
    &&& a.b_sentence_end == w.b_sentence_end
    &&& a.source@ == w.source@
}

fn copy_units(s: &Vec<u16>) -> (r: Vec<u16>)
    ensures
        r@ == s@,
{
    let mut out: Vec<u16> = Vec::new();
    let mut i: usize = 0;
    while i < s.len()
        invariant
            i <= s@.len(),
            out@ == s@.subrange(0, i as int),
        decreases s@.len() - i,
    {
        out.push(s[i]);
        i = i + 1;
        proof {
            assert(out@ =~= s@.subrange(0, i as int));
        }
    }
    proof {
        assert(s@.subrange(0, s@.len() as int) =~= s@);
    }
    out
}

fn hand_on(m: &MaMorph) -> (r: Morph)
    ensures
        morph_view(r) == handed_on(*m),
{
    let n = get_kchar_count(m.pyogi.as_slice());
    let cvc = copy_range(m.cvc.as_slice(), 0, m.cvc.len());
    proof {
        assert(m.cvc@.subrange(0, m.cvc@.len() as int) =~= m.cvc@);
    }
    let r = Morph { cvc, pos: [m.ch_tag, 0], prob: m.prob, surface_len: n as u8 };
    proof {
        assert(r.pos@[0] == m.ch_tag && r.pos@[1] == 0u8);
    }
    r
}

fn source_ordinals(src: &Vec<u16>, n: usize) -> (r: Vec<u8>)
    requires
        n <= src@.len(),
    ensures
        r@ == source_cvc(src@, n as int),
{
    let mut out: Vec<u8> = Vec::new();
    let mut i: usize = 0;
    while i < n
        invariant
            n <= src@.len(),
            i <= n,
            out@ == source_cvc(src@, i as int),
        decreases n - i,
    {
        let c = src[i];
        if is_uni_korean_code(c) {
            let t = conv_uni_code_to_cvc(c);
            out.push(t[0]);
            out.push(t[1]);
            out.push(t[2]);
            proof {
                assert(t@[0] == t[0] && t@[1] == t[1] && t@[2] == t[2]);
                assert(out@ =~= source_cvc(src@, i as int) + uni_code_cvc(c));
            }
        } else {
            out.push(0);
            out.push(0);
            out.push(0);
            proof {
                assert(out@ =~= source_cvc(src@, i as int) + seq![0u8, 0u8, 0u8]);
            }
        }
        i = i + 1;
    }
    out
}

/// The information handed on for one analysed word.
pub fn word_info_of(w: &MaWord) -> (a: WordAnal)
    ensures
        word_info(a, *w),
{
    let n = w.source.len();
    let b_word_sen = n > 0 && is_sen_symbol(w.source[n - 1]);
    let cut = b_word_sen && w.source[n - 1] != 0x2C;
    let mut morphs: Vec<Morph> = Vec::new();
    let ghost base = handed_on_all(w.morphs@);
    let mut i: usize = 0;
    while i < w.morphs.len()
        invariant
            i <= w.morphs@.len(),
            base == handed_on_all(w.morphs@),
            morph_views(morphs@) == base.subrange(0, i as int),
        decreases w.morphs@.len() - i,
    {
        let m = hand_on(&w.morphs[i]);
        let ghost prev = morphs@;
        morphs.push(m);
        proof {
            assert(morphs@ == prev.push(m));
            assert(morph_views(morphs@) =~= morph_views(prev).push(morph_view(m)));
            assert(base[i as int] == handed_on(w.morphs@[i as int]));
            assert(base.subrange(0, i + 1) =~= base.subrange(0, i as int).push(base[i as int]));
        }
        i = i + 1;
    }
    proof {
        assert(base.subrange(0, base.len() as int) =~= base);
    }
    if cut && morphs.len() > 1 {
        while morphs.len() > 0 && morphs[morphs.len() - 1].cvc.len() == 0
            invariant
                drop_empty_tail(morph_views(morphs@)) == drop_empty_tail(base),
            decreases morphs@.len(),
        {
            let ghost before = morph_views(morphs@);
            morphs.pop();
            proof {
                assert(morph_views(morphs@) =~= before.drop_last());
            }
        }
        let ghost t = morph_views(morphs@);
        proof {
            assert(drop_empty_tail(t) == t);
        }
        let k = morphs.len();
        if k > 0 && morphs[k - 1].cvc.len() == 1 && is_sen_symbol(morphs[k - 1].cvc[0] as u16) {
            morphs.pop();
            proof {
                assert(morph_views(morphs@) =~= t.drop_last());
            }
        }
    }
    let num: usize = if cut {
        n - 1
    } else {
        n
    };
    let word_cvc = source_ordinals(&w.source, num);
    WordAnal {
        morphs,
        w_byte_num: #[verifier::truncate] (num as u16),
        word_cvc,
        b_word_sen,
        b_sentence_end: w.b_sentence_end,
        source: copy_units(&w.source),
    }
}

/// The information handed on for each analysed word, in order.
pub fn get_word_info(words: &[MaWord]) -> (r: Vec<WordAnal>)
    ensures
        r@.len() == words@.len(),
        forall|i: int| 0 <= i < words@.len() ==> word_info(#[trigger] r@[i], words@[i]),
{
    let mut out: Vec<WordAnal> = Vec::new();
    let mut i: usize = 0;
    while i < words.len()
        invariant
            i <= words@.len(),
            out@.len() == i,
            forall|j: int| 0 <= j < i ==> word_info(#[trigger] out@[j], words@[j]),
        decreases words@.len() - i,
    {
        let a = word_info_of(&words[i]);
        out.push(a);
        i = i + 1;
    }
    out
}

/// The copula `iL` (tag `@`).
pub open spec fn is_copula_il(m: MaMorph) -> bool {
    m.ch_tag == 0x40 && m.pyogi@ == seq![0x69u8, 0x4C]
}

/// The ending `Bnida` (tag `^`).
pub open spec fn is_ending_bnida(m: MaMorph) -> bool {
    m.ch_tag == 0x5E && m.pyogi@ == seq![0x42u8, 0x6E, 0x69, 0x64, 0x61]
}

/// The ordinals of morpheme `j` after the copula `iL` meets a following `Bnida`: the
/// copula's final ordinal 9 becomes 17, and the ending loses a leading (1, 1, 19).
pub open spec fn assimilated_cvc(s: Seq<MaMorph>, j: int) -> Seq<u8> {
    let c = s[j].cvc@;
    if j + 1 < s.len() && is_copula_il(s[j]) && is_ending_bnida(s[j + 1]) && c.len() >= 3 && c.last() == 9 {
        c.update(c.len() - 1, 17)
    } else if j >= 1 && is_copula_il(s[j - 1]) && is_ending_bnida(s[j]) && c.len() >= 3 && c[0] == 1 && c[1]
        == 1 && c[2] == 19 {
        c.skip(3)
    } else {
        c
    }
}

fn copula_il(m: &MaMorph) -> (b: bool)
    ensures
        b == is_copula_il(*m),
{
    let p: [u8; 2] = [0x69, 0x4C];
    proof {
        assert(p@ =~= seq![0x69u8, 0x4C]);
    }
    m.ch_tag == 0x40 && crate::common::bytes_eq(m.pyogi.as_slice(), p.as_slice())
}

fn ending_bnida(m: &MaMorph) -> (b: bool)
    ensures
        b == is_ending_bnida(*m),
{
    let p: [u8; 5] = [0x42, 0x6E, 0x69, 0x64, 0x61];
    proof {
        assert(p@ =~= seq![0x42u8, 0x6E, 0x69, 0x64, 0x61]);
    }
    m.ch_tag == 0x5E && crate::common::bytes_eq(m.pyogi.as_slice(), p.as_slice())
}

/// Joins the copula `iL` and a following ending `Bnida` in sound: see `assimilated_cvc`.
/// Every other field of every morpheme stays as it was.
pub fn apply_copula_bnida_assimilation(morphs: &mut Vec<MaMorph>)
    ensures
        final(morphs)@.len() == old(morphs)@.len(),
        forall|j: int|
            0 <= j < old(morphs)@.len() ==> {
                &&& (#[trigger] final(morphs)@[j]).ch_tag == old(morphs)@[j].ch_tag
                &&& final(morphs)@[j].pyogi@ == old(morphs)@[j].pyogi@
                &&& final(morphs)@[j].prob == old(morphs)@[j].prob
                &&& final(morphs)@[j].b_merged == old(morphs)@[j].b_merged
                &&& final(morphs)@[j].cvc@ == assimilated_cvc(old(morphs)@, j)
            },
{
    let mut taken: Vec<MaMorph> = Vec::new();
    std::mem::swap(morphs, &mut taken);
    let ghost s = taken@;
    let n = taken.len();
    let mut out: Vec<MaMorph> = Vec::new();
    let mut j: usize = 0;
    while j < n
        invariant
            n == s.len(),
            s == taken@,
            j <= n,
            out@.len() == j,
            forall|k: int|
                0 <= k < j ==> {
                    &&& (#[trigger] out@[k]).ch_tag == s[k].ch_tag
                    &&& out@[k].pyogi@ == s[k].pyogi@
                    &&& out@[k].prob == s[k].prob
                    &&& out@[k].b_merged == s[k].b_merged
                    &&& out@[k].cvc@ == assimilated_cvc(s, k)
                },
        decreases n - j,
    {
        let m = &taken[j];
        let c = m.cvc.as_slice();
        let cl = c.len();
        let before_il = j + 1 < n && copula_il(m) && ending_bnida(&taken[j + 1]);
        let after_il = j >= 1 && copula_il(&taken[j - 1]) && ending_bnida(m);
        let cvc: Vec<u8> = if before_il && cl >= 3 && c[cl - 1] == 9 {
            let mut v = copy_range(c, 0, cl);
            v.set(cl - 1, 17);
            proof {
                assert(v@ =~= c@.update(cl - 1, 17));
            }
            v
        } else if after_il && cl >= 3 && c[0] == 1 && c[1] == 1 && c[2] == 19 {
            let v = copy_range(c, 3, cl);
            proof {
                assert(v@ =~= c@.skip(3));
            }
            v
        } else {
            let v = copy_range(c, 0, cl);
            proof {
                assert(v@ =~= c@);
            }
            v
        };
        let pyogi = copy_range(m.pyogi.as_slice(), 0, m.pyogi.len());
        proof {
            assert(pyogi@ =~= m.pyogi@);
            assert(cvc@ == assimilated_cvc(s, j as int));
        }
        out.push(MaMorph { ch_tag: m.ch_tag, pyogi, cvc, prob: m.prob, b_merged: m.b_merged });
        j = j + 1;
    }
    *morphs = out;
}

} // verus!
