//! The analysed word list between pre-processing passes, and the passes that join and
//! split its words: digit groups, separators around spaces, and words too long to
//! analyse.
use vstd::prelude::*;
use crate::post::{IregulerStr, MaMorph, MaWord, is_sen_mark};
use crate::code::{conv_pyogi_to_cvc, pyogi_cvc, conv_cvc_to_uni_wan, cvc_wan, triple_ok};
use crate::preproc::{cvc_table, set_word_cvc_table, width_upto, is_year, is_month, is_day, is_juche_year};
use crate::digits::{wtoi, wtoi_from};

verus! {

/// The word list the analyser works on, with the state it carries between words.
#[derive(Debug)]
pub struct KlpState {
    pub words: Vec<MaWord>,
    pub gb_ini_tag: u8,
    pub gb_ini_ll_tag: u8,
    pub gb_end_tag: u8,
    pub gsch_ini_str: Vec<u8>,
    pub gsch_ini_ll_str: Vec<u8>,
    pub gn_total_str_count: i32,
}

/// A word list in its initial state: sentence-initial tags, no carried strings.
pub fn klp_state_with_words(words: Vec<MaWord>) -> (k: KlpState)
    ensures
        k.words@ == words@,
        k.gb_ini_tag == 0x6A && k.gb_ini_ll_tag == 0x6A && k.gb_end_tag == 0x6C,
        k.gsch_ini_str@.len() == 0 && k.gsch_ini_ll_str@.len() == 0,
        k.gn_total_str_count == 0,
{
    KlpState {
        words,
        gb_ini_tag: 0x6A,
        gb_ini_ll_tag: 0x6A,
        gb_end_tag: 0x6C,
        gsch_ini_str: Vec::new(),
        gsch_ini_ll_str: Vec::new(),
        gn_total_str_count: 0,
    }
}

/// A morpheme as (tag, spelling, ordinals, probability bits, merged).
pub type MorphV = (u8, Seq<u8>, Seq<u8>, u64, bool);

/// An irregular stem as (spelling, text).
pub type IrrV = (Seq<u8>, Seq<u8>);

/// A word as (source, morphemes, string type, irregular stems, sentence end).
pub type WordV = (Seq<u16>, Seq<MorphV>, u8, Seq<IrrV>, bool);

pub open spec fn morph_v(m: MaMorph) -> MorphV {
    (m.ch_tag, m.pyogi@, m.cvc@, m.prob, m.b_merged)
}

pub open spec fn irr_v(i: IregulerStr) -> IrrV {
    (i.pyogi@, i.irr_string@)
}

pub open spec fn morphs_v(s: Seq<MaMorph>) -> Seq<MorphV> {
    s.map_values(|m: MaMorph| morph_v(m))
}

pub open spec fn irrs_v(s: Seq<IregulerStr>) -> Seq<IrrV> {
    s.map_values(|i: IregulerStr| irr_v(i))
}

pub open spec fn word_v(w: MaWord) -> WordV {
    (w.source@, morphs_v(w.morphs@), w.b_str_type, irrs_v(w.ireguler@), w.b_sentence_end)
}

pub open spec fn words_v(s: Seq<MaWord>) -> Seq<WordV> {
    s.map_values(|w: MaWord| word_v(w))
}

/// The other state a pass leaves as it was.
pub open spec fn same_state(a: KlpState, b: KlpState) -> bool {
    &&& a.gb_ini_tag == b.gb_ini_tag
    &&& a.gb_ini_ll_tag == b.gb_ini_ll_tag
    &&& a.gb_end_tag == b.gb_end_tag
    &&& a.gsch_ini_str@ == b.gsch_ini_str@
    &&& a.gsch_ini_ll_str@ == b.gsch_ini_ll_str@
    &&& a.gn_total_str_count == b.gn_total_str_count
}

fn copy_bytes(v: &Vec<u8>) -> (r: Vec<u8>)
    ensures
        r@ == v@,
{
    let r = crate::common::copy_range(v.as_slice(), 0, v.len());
    proof {
        assert(v@.subrange(0, v@.len() as int) =~= v@);
    }
    r
}

fn copy_morph(m: &MaMorph) -> (r: MaMorph)
    ensures
        morph_v(r) == morph_v(*m),
{
    MaMorph { ch_tag: m.ch_tag, pyogi: copy_bytes(&m.pyogi), cvc: copy_bytes(&m.cvc), prob: m.prob, b_merged: m.b_merged }
}

fn copy_irr(i: &IregulerStr) -> (r: IregulerStr)
    ensures
        irr_v(r) == irr_v(*i),
{
    IregulerStr { pyogi: copy_bytes(&i.pyogi), irr_string: copy_bytes(&i.irr_string) }
}

fn append_units(out: &mut Vec<u16>, s: &Vec<u16>)
    ensures
        final(out)@ == old(out)@ + s@,
{
    let ghost start = out@;
    let mut i: usize = 0;
    while i < s.len()
        invariant
            i <= s@.len(),
            out@ == start + s@.subrange(0, i as int),
        decreases s@.len() - i,
    {
        out.push(s[i]);
        i = i + 1;
        proof {
            assert(out@ =~= start + s@.subrange(0, i as int));
        }
    }
    proof {
        assert(s@.subrange(0, s@.len() as int) =~= s@);
    }
}

fn append_morphs(out: &mut Vec<MaMorph>, s: &Vec<MaMorph>)
    ensures
        morphs_v(final(out)@) == morphs_v(old(out)@) + morphs_v(s@),
{
    let ghost start = morphs_v(out@);
    let mut i: usize = 0;
    while i < s.len()
        invariant
            i <= s@.len(),
            morphs_v(out@) == start + morphs_v(s@).subrange(0, i as int),
        decreases s@.len() - i,
    {
        let ghost before = out@;
        out.push(copy_morph(&s[i]));
        i = i + 1;
        proof {
            assert(morphs_v(out@) =~= morphs_v(before).push(morph_v(s@[i - 1])));
            assert(morphs_v(out@) =~= start + morphs_v(s@).subrange(0, i as int));
        }
    }
    proof {
        assert(morphs_v(s@).subrange(0, s@.len() as int) =~= morphs_v(s@));
    }
}

fn append_irrs(out: &mut Vec<IregulerStr>, s: &Vec<IregulerStr>)
    ensures
        irrs_v(final(out)@) == irrs_v(old(out)@) + irrs_v(s@),
{
    let ghost start = irrs_v(out@);
    let mut i: usize = 0;
    while i < s.len()
        invariant
            i <= s@.len(),
            irrs_v(out@) == start + irrs_v(s@).subrange(0, i as int),
        decreases s@.len() - i,
    {
        let ghost before = out@;
        out.push(copy_irr(&s[i]));
        i = i + 1;
        proof {
            assert(irrs_v(out@) =~= irrs_v(before).push(irr_v(s@[i - 1])));
            assert(irrs_v(out@) =~= start + irrs_v(s@).subrange(0, i as int));
        }
    }
    proof {
        assert(irrs_v(s@).subrange(0, s@.len() as int) =~= irrs_v(s@));
    }
}

fn copy_word(w: &MaWord) -> (r: MaWord)
    ensures
        word_v(r) == word_v(*w),
{
    let mut source: Vec<u16> = Vec::new();
    append_units(&mut source, &w.source);
    let mut morphs: Vec<MaMorph> = Vec::new();
    let mut irr: Vec<IregulerStr> = Vec::new();
    proof {
        assert(morphs_v(morphs@) =~= Seq::<MorphV>::empty());
        assert(irrs_v(irr@) =~= Seq::<IrrV>::empty());
    }
    append_morphs(&mut morphs, &w.morphs);
    append_irrs(&mut irr, &w.ireguler);
    let r = MaWord { source, morphs, b_str_type: w.b_str_type, ireguler: irr, b_sentence_end: w.b_sentence_end };
    proof {
        assert(r.source@ =~= w.source@);
        assert(morphs_v(r.morphs@) =~= morphs_v(w.morphs@));
        assert(irrs_v(r.ireguler@) =~= irrs_v(w.ireguler@));
    }
    r
}

/// The tag of a word's first morpheme.
pub open spec fn first_tag(w: WordV) -> Option<u8> {
    if w.1.len() > 0 {
        Some(w.1[0].0)
    } else {
        None
    }
}

/// The words from `i` on begin with one word per letter of `tag`: a word whose first
/// morpheme has that tag, or, for `*`, a word of string type 1.
pub open spec fn pumsa_at(ws: Seq<WordV>, i: int, tag: Seq<u8>) -> bool {
    &&& 0 <= i
    &&& i + tag.len() <= ws.len()
    &&& forall|k: int|
        0 <= k < tag.len() ==> if tag[k] == 0x2A {
            (#[trigger] ws[i + k]).2 == 1
        } else {
            first_tag(ws[i + k]) == Some(tag[k])
        }
}

fn first_tag_exec(w: &MaWord) -> (r: Option<u8>)
    ensures
        r == first_tag(word_v(*w)),
{
    if w.morphs.len() > 0 {
        Some(w.morphs[0].ch_tag)
    } else {
        None
    }
}

/// Whether the words from `i` on begin as `tag` says (see `pumsa_at`).
pub fn is_pumsa_array(words: &Vec<MaWord>, i: usize, tag: &[u8]) -> (b: bool)
    requires
        i <= words@.len(),
    ensures
        b == pumsa_at(words_v(words@), i as int, tag@),
{
    let ghost ws = words_v(words@);
    if words.len() - i < tag.len() {
        return false;
    }
    let mut k: usize = 0;
    while k < tag.len()
        invariant
            ws == words_v(words@),
            i + tag@.len() <= words.len(),
            k <= tag@.len(),
            forall|j: int|
                0 <= j < k ==> if tag@[j] == 0x2A {
                    (#[trigger] ws[i + j]).2 == 1
                } else {
                    first_tag(ws[i + j]) == Some(tag@[j])
                },
        decreases tag@.len() - k,
    {
        let w = &words[i + k];
        proof {
            assert(ws[i + k] == word_v(*w));
        }
        if tag[k] == 0x2A {
            if w.b_str_type != 1 {
                return false;
            }
        } else if first_tag_exec(w) != Some(tag[k]) {
            return false;
        }
        k = k + 1;
    }
    true
}

/// Removes the `n_len` words from `n_index` on (fewer where the list ends first).
pub fn remove_anal(klp: &mut KlpState, n_index: usize, n_len: usize)
    ensures
        same_state(*final(klp), *old(klp)),
        ({
            let ws = old(klp).words@;
            let end = if n_index + n_len < ws.len() { n_index + n_len } else { ws.len() as int };
            final(klp).words@ == if n_index < end {
                ws.subrange(0, n_index as int) + ws.subrange(end, ws.len() as int)
            } else {
                ws
            }
        }),
{
    let len = klp.words.len();
    let end = if n_len <= len && n_index <= len - n_len { n_index + n_len } else { len };
    if n_index < end {
        let ghost ws = klp.words@;
        let mut k: usize = n_index;
        while k < end
            invariant
                n_index <= k <= end <= ws.len(),
                klp.words@ == ws.subrange(0, n_index as int) + ws.subrange(k as int, ws.len() as int),
                same_state(*klp, *old(klp)),
                ws == old(klp).words@,
            decreases end - k,
        {
            klp.words.remove(n_index);
            k = k + 1;
            proof {
                assert(klp.words@ =~= ws.subrange(0, n_index as int) + ws.subrange(k as int, ws.len() as int));
            }
        }
    }
}

/// The sources of words `i..j`, one after another.
pub open spec fn join_sources(ws: Seq<WordV>, i: int, j: int) -> Seq<u16>
    decreases j - i,
{
    if j <= i {
        Seq::empty()
    } else {
        join_sources(ws, i, j - 1) + ws[j - 1].0
    }
}

/// The morphemes of words `i..j`, one after another.
pub open spec fn join_morphs(ws: Seq<WordV>, i: int, j: int) -> Seq<MorphV>
    decreases j - i,
{
    if j <= i {
        Seq::empty()
    } else {
        join_morphs(ws, i, j - 1) + ws[j - 1].1
    }
}

/// The irregular stems of words `i..j`, one after another.
pub open spec fn join_irrs(ws: Seq<WordV>, i: int, j: int) -> Seq<IrrV>
    decreases j - i,
{
    if j <= i {
        Seq::empty()
    } else {
        join_irrs(ws, i, j - 1) + ws[j - 1].3
    }
}

/// The word that words `i..j` make together, of string type `t`.
pub open spec fn joined(ws: Seq<WordV>, i: int, j: int, t: u8) -> WordV {
    (join_sources(ws, i, j), join_morphs(ws, i, j), t, join_irrs(ws, i, j), false)
}

fn join_words(words: &Vec<MaWord>, i: usize, j: usize, t: u8) -> (r: MaWord)
    requires
        i <= j <= words@.len(),
    ensures
        word_v(r) == joined(words_v(words@), i as int, j as int, t),
{
    let ghost ws = words_v(words@);
    let mut source: Vec<u16> = Vec::new();
    let mut morphs: Vec<MaMorph> = Vec::new();
    let mut ireguler: Vec<IregulerStr> = Vec::new();
    let mut k: usize = i;
    proof {
        assert(morphs_v(morphs@) =~= Seq::<MorphV>::empty());
        assert(irrs_v(ireguler@) =~= Seq::<IrrV>::empty());
    }
    while k < j
        invariant
            ws == words_v(words@),
            i <= k <= j <= words@.len(),
            source@ == join_sources(ws, i as int, k as int),
            morphs_v(morphs@) == join_morphs(ws, i as int, k as int),
            irrs_v(ireguler@) == join_irrs(ws, i as int, k as int),
        decreases j - k,
    {
        let w = &words[k];
        proof {
            assert(ws[k as int] == word_v(*w));
        }
        append_units(&mut source, &w.source);
        append_morphs(&mut morphs, &w.morphs);
        append_irrs(&mut ireguler, &w.ireguler);
        k = k + 1;
    }
    MaWord { source, morphs, b_str_type: t, ireguler, b_sentence_end: false }
}

/// Total source length of words `i..j`.
pub open spec fn source_total(ws: Seq<WordV>, i: int, j: int) -> int
    decreases j - i,
{
    if j <= i {
        0
    } else {
        source_total(ws, i, j - 1) + ws[j - 1].0.len()
    }
}

proof fn lemma_source_total_mono(ws: Seq<WordV>, i: int, j: int, k: int)
    requires
        i <= j <= k,
    ensures
        source_total(ws, i, j) <= source_total(ws, i, k),
    decreases k - j,
{
    if j < k {
        lemma_source_total_mono(ws, i, j, k - 1);
    }
}

/// Joins words `i..i + n_len` into word `i` (string type 0), where their sources come to
/// at most 99 units; the words after `i` stay in the list. Says whether it joined them.
pub fn digit_merge_process(klp: &mut KlpState, i: usize, n_len: usize) -> (b: bool)
    requires
        i + n_len <= old(klp).words@.len(),
        n_len >= 1,
    ensures
        same_state(*final(klp), *old(klp)),
        b == (source_total(words_v(old(klp).words@), i as int, i + n_len) <= 99),
        b ==> words_v(final(klp).words@) == words_v(old(klp).words@).update(
            i as int,
            joined(words_v(old(klp).words@), i as int, i + n_len, 0),
        ),
        !b ==> final(klp).words@ == old(klp).words@,
{
    let ghost ws = words_v(klp.words@);
    let len = klp.words.len();
    let end = i + n_len;
    let mut total: usize = 0;
    let mut k: usize = i;
    while k < end
        invariant
            ws == words_v(klp.words@),
            end == i + n_len,
            i <= k <= end <= klp.words@.len(),
            total == source_total(ws, i as int, k as int),
            total <= 99,
        decreases end - k,
    {
        proof {
            assert(ws[k as int] == word_v(klp.words@[k as int]));
        }
        let l = klp.words[k].source.len();
        if l > 99 - total {
            proof {
                lemma_source_total_mono(ws, i as int, k + 1, i + n_len);
            }
            return false;
        }
        total = total + l;
        k = k + 1;
    }
    let merged = join_words(&klp.words, i, end, 0);
    klp.words.set(i, merged);
    proof {
        assert(words_v(klp.words@) =~= ws.update(i as int, joined(ws, i as int, i + n_len, 0)));
    }
    true
}

/// Digit, separator `L`, digit.
pub open spec fn tag_ili() -> Seq<u8> {
    seq![0x49u8, 0x4C, 0x49]
}

/// Joining digit groups from word `i` on: wherever a digit word, an `L` separator and a
/// digit word come to at most 99 source units, the three become one word of string type
/// 2, and the scan looks at that word again.
pub open spec fn merge_digits_from(ws: Seq<WordV>, i: int) -> Seq<WordV>
    decreases ws.len(), ws.len() - i,
{
    if i < 0 || ws.len() <= i + 2 {
        ws
    } else if pumsa_at(ws, i, tag_ili()) && source_total(ws, i, i + 3) <= 99 {
        merge_digits_from(
            ws.subrange(0, i) + seq![joined(ws, i, i + 3, 2)] + ws.subrange(i + 3, ws.len() as int),
            i,
        )
    } else {
        merge_digits_from(ws, i + 1)
    }
}

/// The word list with its digit groups joined (see `merge_digits_from`); lists of fewer
/// than three words stay as they are.
pub open spec fn digit_merge(ws: Seq<WordV>) -> Seq<WordV> {
    if ws.len() < 3 {
        ws
    } else {
        merge_digits_from(ws, 0)
    }
}

fn set_str_type(klp: &mut KlpState, i: usize, t: u8)
    requires
        i < old(klp).words@.len(),
    ensures
        same_state(*final(klp), *old(klp)),
        words_v(final(klp).words@) == words_v(old(klp).words@).update(
            i as int,
            ({
                let w = word_v(old(klp).words@[i as int]);
                (w.0, w.1, t, w.3, w.4)
            }),
        ),
{
    let ghost ws = words_v(klp.words@);
    let mut w = klp.words.remove(i);
    w.b_str_type = t;
    klp.words.insert(i, w);
    proof {
        assert(words_v(klp.words@) =~= ws.update(i as int, word_v(w)));
    }
}

/// Joins the digit groups of the word list (see `digit_merge`).
#[verifier::spinoff_prover]
#[verifier::rlimit(40)]
pub fn process_digit_merge(klp: &mut KlpState)
    ensures
        same_state(*final(klp), *old(klp)),
        words_v(final(klp).words@) == digit_merge(words_v(old(klp).words@)),
{
    if klp.words.len() < 3 {
        return;
    }
    let tag: [u8; 3] = [0x49, 0x4C, 0x49];
    proof {
        assert(tag@ =~= tag_ili());
    }
    let mut i: usize = 0;
    loop
        invariant
            i + 2 < klp.words.len(),
            tag@ == tag_ili(),
            same_state(*klp, *old(klp)),
            merge_digits_from(words_v(klp.words@), i as int) == digit_merge(words_v(old(klp).words@)),
        decreases klp.words@.len(), klp.words@.len() - i,
    {
        let ghost ws = words_v(klp.words@);
        if is_pumsa_array(&klp.words, i, tag.as_slice()) && digit_merge_process(klp, i, 3) {
            let ghost j0 = joined(ws, i as int, i + 3, 0);
            let ghost raw1 = klp.words@;
            remove_anal(klp, i + 1, 2);
            proof {
                let n = raw1.len() as int;
                assert(words_v(raw1).len() == raw1.len());
                assert(ws.len() == n);
                assert(i + 3 <= n);
                assert(klp.words@ == raw1.subrange(0, i + 1) + raw1.subrange(i + 3, n));
                assert(words_v(klp.words@) =~= words_v(raw1).subrange(0, i + 1) + words_v(raw1).subrange(i + 3, n));
                assert(words_v(raw1) == ws.update(i as int, j0));
                assert(words_v(klp.words@) =~= ws.update(i as int, j0).subrange(0, i + 1) + ws.subrange(i + 3, n));
            }
            let ghost prev = klp.words@;
            proof {
                assert(words_v(prev)[i as int] == word_v(prev[i as int]));
                assert(word_v(prev[i as int]) == j0);
            }
            set_str_type(klp, i, 2);
            proof {
                assert(words_v(klp.words@) == words_v(prev).update(i as int, joined(ws, i as int, i + 3, 2)));
                assert(words_v(klp.words@) =~= ws.subrange(0, i as int) + seq![joined(ws, i as int, i + 3, 2)]
                    + ws.subrange(i + 3, ws.len() as int));
            }
            if klp.words.len() <= i + 2 {
                proof {
                    let nw = words_v(klp.words@);
                    assert(merge_digits_from(ws, i as int) == merge_digits_from(nw, i as int));
                    assert(merge_digits_from(nw, i as int) == nw);
                }
                return;
            }
        } else {
            proof {
                assert(words_v(klp.words@) == ws);
                assert(!(pumsa_at(ws, i as int, tag_ili()) && source_total(ws, i as int, i + 3) <= 99));
                assert(merge_digits_from(ws, i as int) == merge_digits_from(ws, i + 1));
            }
            i = i + 1;
            if klp.words.len() <= i + 2 {
                proof {
                    assert(merge_digits_from(ws, i as int) == ws);
                }
                return;
            }
        }
    }
}

/// Dropping spaces next to separators from word `j` on: a space word (`k`) before a
/// separator (`M`) or before another space is dropped, and so is one after a separator.
pub open spec fn del_sp_from(ws: Seq<WordV>, j: int) -> Seq<WordV>
    decreases ws.len() - j,
{
    if j < 0 || ws.len() <= j + 1 {
        ws
    } else {
        let next = if pumsa_at(ws, j, seq![0x6Bu8, 0x4D]) {
            ws.remove(j)
        } else if pumsa_at(ws, j, seq![0x4Du8, 0x6B]) {
            ws.remove(j + 1)
        } else if pumsa_at(ws, j, seq![0x6Bu8, 0x6B]) {
            ws.remove(j)
        } else {
            ws
        };
        del_sp_from(next, j + 1)
    }
}

fn remove_word(klp: &mut KlpState, i: usize)
    requires
        i < old(klp).words@.len(),
    ensures
        same_state(*final(klp), *old(klp)),
        words_v(final(klp).words@) == words_v(old(klp).words@).remove(i as int),
{
    let ghost ws = klp.words@;
    klp.words.remove(i);
    proof {
        assert(words_v(klp.words@) =~= words_v(ws).remove(i as int));
    }
}

/// Drops the spaces around separators (see `del_sp_from`).
pub fn process_del_sp_symbol(klp: &mut KlpState)
    ensures
        same_state(*final(klp), *old(klp)),
        words_v(final(klp).words@) == del_sp_from(words_v(old(klp).words@), 0),
{
    let km: [u8; 2] = [0x6B, 0x4D];
    let mk: [u8; 2] = [0x4D, 0x6B];
    let kk: [u8; 2] = [0x6B, 0x6B];
    proof {
        assert(km@ =~= seq![0x6Bu8, 0x4D]);
        assert(mk@ =~= seq![0x4Du8, 0x6B]);
        assert(kk@ =~= seq![0x6Bu8, 0x6B]);
    }
    let mut j: usize = 0;
    while j < klp.words.len() && j + 1 < klp.words.len()
        invariant
            km@ == seq![0x6Bu8, 0x4D],
            mk@ == seq![0x4Du8, 0x6B],
            kk@ == seq![0x6Bu8, 0x6B],
            j <= klp.words.len(),
            same_state(*klp, *old(klp)),
            del_sp_from(words_v(klp.words@), j as int) == del_sp_from(words_v(old(klp).words@), 0),
        decreases klp.words@.len() - j,
    {
        let ghost ws = words_v(klp.words@);
        let ghost n = klp.words@.len();
        if is_pumsa_array(&klp.words, j, km.as_slice()) {
            remove_word(klp, j);
        } else if is_pumsa_array(&klp.words, j, mk.as_slice()) {
            remove_word(klp, j + 1);
        } else if is_pumsa_array(&klp.words, j, kk.as_slice()) {
            remove_word(klp, j);
        }
        proof {
            assert(words_v(klp.words@).len() == klp.words@.len());
            assert(klp.words@.len() == n || klp.words@.len() + 1 == n);
        }
        j = j + 1;
    }
}

/// The sources of words `i`, `i + 2`, ... (`m` of them), one after another.
pub open spec fn alt_sources(ws: Seq<WordV>, i: int, m: int) -> Seq<u16>
    decreases m,
{
    if m <= 0 {
        Seq::empty()
    } else {
        alt_sources(ws, i, m - 1) + ws[i + 2 * (m - 1)].0
    }
}

/// Each unit kept to its low byte.
pub open spec fn low_bytes(s: Seq<u16>) -> Seq<u8> {
    s.map_values(|c: u16| c as u8)
}

/// Word `w` with source `sw`, its first morpheme (if any) spelled as `sw`'s low bytes
/// with no ordinals.
pub open spec fn summed_word(w: WordV, sw: Seq<u16>) -> WordV {
    let ms = if w.1.len() > 0 {
        w.1.update(0, (w.1[0].0, low_bytes(sw), Seq::empty(), w.1[0].3, w.1[0].4))
    } else {
        w.1
    };
    (sw, ms, w.2, w.3, w.4)
}

/// Gives word `i5` the sources of words `i5`, `i5 + 2`, ... below `i5 + n_len`, and its
/// first morpheme their low bytes as spelling (see `summed_word`).
pub fn digit_sum_process(klp: &mut KlpState, i5: usize, n_len: usize)
    requires
        1 <= n_len,
        i5 + n_len <= old(klp).words@.len(),
    ensures
        same_state(*final(klp), *old(klp)),
        words_v(final(klp).words@) == words_v(old(klp).words@).update(
            i5 as int,
            summed_word(words_v(old(klp).words@)[i5 as int], alt_sources(words_v(old(klp).words@), i5 as int, (n_len + 1) / 2)),
        ),
{
    let ghost ws = words_v(klp.words@);
    let mut sw: Vec<u16> = Vec::new();
    let cnt: usize = n_len / 2 + n_len % 2;
    let mut m: usize = 0;
    while m < cnt
        invariant
            ws == words_v(klp.words@),
            i5 + n_len <= klp.words.len(),
            cnt == (n_len + 1) / 2,
            m <= cnt,
            sw@ == alt_sources(ws, i5 as int, m as int),
        decreases cnt - m,
    {
        let j = 2 * m;
        proof {
            assert(ws[i5 + j] == word_v(klp.words@[i5 + j]));
        }
        append_units(&mut sw, &klp.words[i5 + j].source);
        m = m + 1;
    }
    let mut w = klp.words.remove(i5);
    let ghost w0 = word_v(w);
    let mut pyogi: Vec<u8> = Vec::new();
    let mut k: usize = 0;
    while k < sw.len()
        invariant
            k <= sw@.len(),
            pyogi@ == low_bytes(sw@).subrange(0, k as int),
        decreases sw@.len() - k,
    {
        pyogi.push(#[verifier::truncate] (sw[k] as u8));
        k = k + 1;
        proof {
            assert(pyogi@ =~= low_bytes(sw@).subrange(0, k as int));
        }
    }
    proof {
        assert(low_bytes(sw@).subrange(0, sw@.len() as int) =~= low_bytes(sw@));
    }
    if w.morphs.len() > 0 {
        let mut m0 = w.morphs.remove(0);
        m0.pyogi = pyogi;
        m0.cvc = Vec::new();
        w.morphs.insert(0, m0);
    }
    w.source = sw;
    proof {
        assert(word_v(w) =~~= summed_word(w0, alt_sources(ws, i5 as int, m as int)));
    }
    let ghost rest = klp.words@;
    klp.words.insert(i5, w);
    proof {
        assert(words_v(klp.words@) =~= ws.update(i5 as int, summed_word(w0, alt_sources(ws, i5 as int, m as int))));
    }
}

/// How many separator-and-three-digit pairs follow from word `i4` on: a separator word
/// (`M`, string type 0) and a three-unit digit word (`I`), pair after pair, the count
/// stopping once a pair reaches the list's last word.
pub open spec fn group_count(ws: Seq<WordV>, i4: int) -> int
    decreases ws.len() - i4,
{
    if !(pumsa_at(ws, i4, seq![0x4Du8, 0x49]) && ws[i4].2 == 0 && ws[i4 + 1].0.len() == 3) {
        0
    } else if i4 + 2 >= ws.len() - 1 {
        1
    } else {
        1 + group_count(ws, i4 + 2)
    }
}

/// Word `i5` joined with the `c` separator-and-digit pairs after it: the separators go.
pub open spec fn sum_groups(ws: Seq<WordV>, i5: int, c: int) -> Seq<WordV> {
    let w = summed_word(ws[i5], alt_sources(ws, i5, c + 1));
    ws.subrange(0, i5) + seq![w] + ws.subrange(i5 + 1 + 2 * c, ws.len() as int)
}

/// Joining digits written in groups of three from word `i5` on: a digit word of string
/// type 0 and at most three units, not after a separator, followed by one to eight
/// separator-and-three-digit pairs that are not followed by another separator, becomes
/// one digit word.
pub open spec fn sep_from(ws: Seq<WordV>, i5: int) -> Seq<WordV>
    decreases ws.len(), ws.len() - i5,
{
    if i5 < 0 || ws.len() <= i5 + 2 {
        ws
    } else if ws[i5].2 != 0 || ws[i5].0.len() > 3 {
        sep_from(ws, i5 + 1)
    } else if !pumsa_at(ws, i5, seq![0x49u8, 0x4D, 0x49]) || (i5 > 0 && first_tag(ws[i5 - 1]) == Some(0x4Du8)) {
        sep_from(ws, i5 + 1)
    } else {
        let n_index = i5 + 1;
        let c = group_count(ws, n_index);
        let i4 = n_index + 2 * c;
        proof {
            lemma_group_count(ws, n_index);
        }
        if c > 8 || c <= 0 {
            sep_from(ws, i4)
        } else if ws.len() <= i4 || first_tag(ws[i4]) != Some(0x4Du8) {
            sep_from(sum_groups(ws, i5, c), n_index)
        } else {
            sep_from(ws, i4)
        }
    }
}

/// The word list with its three-digit groups joined (see `sep_from`); lists of fewer
/// than three words stay as they are.
pub open spec fn digit_seperate(ws: Seq<WordV>) -> Seq<WordV> {
    if ws.len() < 3 {
        ws
    } else {
        sep_from(ws, 0)
    }
}

pub proof fn lemma_group_count(ws: Seq<WordV>, i4: int)
    requires
        0 <= i4,
    ensures
        0 <= group_count(ws, i4),
        group_count(ws, i4) > 0 ==> i4 + 2 * group_count(ws, i4) <= ws.len(),
    decreases ws.len() - i4,
{
    if pumsa_at(ws, i4, seq![0x4Du8, 0x49]) && ws[i4].2 == 0 && ws[i4 + 1].0.len() == 3 && i4 + 2 < ws.len() - 1 {
        lemma_group_count(ws, i4 + 2);
    }
}

fn count_groups(klp: &KlpState, start: usize) -> (c: usize)
    requires
        start <= klp.words@.len(),
    ensures
        c == group_count(words_v(klp.words@), start as int),
        c > 0 ==> start + 2 * c <= klp.words@.len(),
{
    let ghost ws = words_v(klp.words@);
    let mi: [u8; 2] = [0x4D, 0x49];
    proof {
        assert(mi@ =~= seq![0x4Du8, 0x49]);
        lemma_group_count(ws, start as int);
    }
    let len = klp.words.len();
    let mut i4: usize = start;
    let mut count: usize = 0;
    loop
        invariant
            ws == words_v(klp.words@),
            len == klp.words@.len(),
            mi@ == seq![0x4Du8, 0x49],
            start <= i4 <= len,
            i4 == start + 2 * count,
            group_count(ws, start as int) == count + group_count(ws, i4 as int),
        decreases len - i4,
    {
        let ok = is_pumsa_array(&klp.words, i4, mi.as_slice()) && klp.words[i4].b_str_type == 0
            && klp.words[i4 + 1].source.len() == 3;
        proof {
            if pumsa_at(ws, i4 as int, seq![0x4Du8, 0x49]) {
                assert(ws[i4 as int] == word_v(klp.words@[i4 as int]));
                assert(ws[i4 + 1] == word_v(klp.words@[i4 + 1]));
            }
        }
        if !ok {
            return count;
        }
        if i4 + 2 >= len - 1 {
            return count + 1;
        }
        i4 = i4 + 2;
        count = count + 1;
    }
}

/// Joins digits written in groups of three (see `digit_seperate`).
#[verifier::spinoff_prover]
#[verifier::rlimit(40)]
pub fn process_digit_seperate(klp: &mut KlpState)
    ensures
        same_state(*final(klp), *old(klp)),
        words_v(final(klp).words@) == digit_seperate(words_v(old(klp).words@)),
{
    if klp.words.len() < 3 {
        return;
    }
    let imi: [u8; 3] = [0x49, 0x4D, 0x49];
    proof {
        assert(imi@ =~= seq![0x49u8, 0x4D, 0x49]);
    }
    let mut i5: usize = 0;
    loop
        invariant
            i5 + 2 < klp.words.len(),
            imi@ == seq![0x49u8, 0x4D, 0x49],
            same_state(*klp, *old(klp)),
            sep_from(words_v(klp.words@), i5 as int) == digit_seperate(words_v(old(klp).words@)),
        decreases klp.words@.len(), klp.words@.len() - i5,
    {
        let ghost ws = words_v(klp.words@);
        proof {
            assert(ws[i5 as int] == word_v(klp.words@[i5 as int]));
            if i5 > 0 {
                assert(ws[i5 - 1] == word_v(klp.words@[i5 - 1]));
            }
        }
        let skip = klp.words[i5].b_str_type != 0 || klp.words[i5].source.len() > 3 || !is_pumsa_array(
            &klp.words,
            i5,
            imi.as_slice(),
        ) || (i5 > 0 && first_tag_exec(&klp.words[i5 - 1]) == Some(0x4Du8));
        if skip {
            proof {
                assert(sep_from(ws, i5 as int) == sep_from(ws, i5 + 1));
            }
            i5 = i5 + 1;
            if klp.words.len() <= i5 + 2 {
                return;
            }
        } else {
            let n_index = i5 + 1;
            let c = count_groups(klp, n_index);
            let i4 = n_index + 2 * c;
            if c > 8 || c == 0 {
                proof {
                    assert(sep_from(ws, i5 as int) == sep_from(ws, i4 as int));
                }
                i5 = i4;
                if i5 >= klp.words.len() || klp.words.len() - i5 <= 2 {
                    return;
                }
            } else {
                let merge = klp.words.len() <= i4 || first_tag_exec(&klp.words[i4]) != Some(0x4Du8);
                proof {
                    if i4 < ws.len() {
                        assert(ws[i4 as int] == word_v(klp.words@[i4 as int]));
                    }
                }
                if merge {
                    proof {
                        assert(sep_from(ws, i5 as int) == sep_from(sum_groups(ws, i5 as int, c as int), n_index as int));
                        assert((2 * c + 1 + 1) / 2 == c + 1);
                    }
                    digit_sum_process(klp, i5, 2 * c + 1);
                    let ghost raw1 = klp.words@;
                    remove_anal(klp, n_index, 2 * c);
                    proof {
                        let n = raw1.len() as int;
                        assert(words_v(raw1).len() == n);
                        assert(klp.words@ == raw1.subrange(0, n_index as int) + raw1.subrange(n_index + 2 * c, n));
                        assert(words_v(klp.words@) =~= words_v(raw1).subrange(0, n_index as int) + words_v(raw1).subrange(
                            n_index + 2 * c,
                            n,
                        ));
                        assert(words_v(klp.words@) =~= sum_groups(ws, i5 as int, c as int));
                    }
                    i5 = n_index;
                } else {
                    proof {
                        assert(sep_from(ws, i5 as int) == sep_from(ws, i4 as int));
                    }
                    i5 = i4;
                }
                if i5 >= klp.words.len() || klp.words.len() - i5 <= 2 {
                    return;
                }
            }
        }
    }
}

/// Division by 6 rounding toward zero.
pub open spec fn tdiv6(x: int) -> int {
    if x >= 0 {
        x / 6
    } else {
        -((-x) / 6)
    }
}

/// Letters of the morphemes' spellings, all together.
pub open spec fn total_pyogi(ms: Seq<MorphV>) -> int
    decreases ms.len(),
{
    if ms.len() == 0 {
        0
    } else {
        total_pyogi(ms.drop_last()) + ms.last().1.len()
    }
}

/// Scanning the jamo table within morpheme `n1` from entry `i7` on: `Err` with the cut
/// (syllable count, letters into the morpheme) where the morpheme is the eleventh or
/// later and the entry starts a syllable, or the entry passes 59; else `Ok` with the
/// entry the next morpheme starts from.
pub open spec fn cut_inner(tbl: Seq<i16>, i5: int, n1: int, i7: int, s1: int, s3: int, acc: int) -> Result<int, (int, int)>
    decreases i5 - i7,
{
    if i7 < 0 || i7 >= i5 || i7 + 1 >= tbl.len() {
        Ok(i7)
    } else if (n1 > 9 && i7 % 3 == 0) || i7 > 59 {
        Err((i7 / 3, tdiv6(s1 - acc) - 1))
    } else {
        let s1n = tbl[i7 + 1] as int;
        if s3 < s1n {
            Ok(i7 + 1)
        } else {
            cut_inner(tbl, i5, n1, i7 + 1, s1n, s3, acc)
        }
    }
}

/// Where a long word is cut, scanning its morphemes from `n1` on with the jamo table at
/// entry `i7` and `acc` spelling units (six per letter) behind: (morpheme, syllable
/// count, letters into the morpheme), or `None` where it is not cut.
pub open spec fn cut_scan(ms: Seq<MorphV>, tbl: Seq<i16>, i5: int, n1: int, i7: int, acc: int) -> Option<(int, int, int)>
    decreases ms.len() - n1,
{
    if n1 < 0 || n1 >= ms.len() || i7 < 0 || i7 >= tbl.len() {
        None
    } else {
        let s3 = acc + 6 * ms[n1].1.len();
        let s1 = tbl[i7] as int;
        if s1 <= s3 {
            match cut_inner(tbl, i5, n1, i7, s1, s3, acc) {
                Err(c) => Some((n1, c.0, c.1)),
                Ok(i7n) => cut_scan(ms, tbl, i5, n1 + 1, i7n, s3),
            }
        } else {
            cut_scan(ms, tbl, i5, n1 + 1, i7, s3)
        }
    }
}

/// The two words a word is cut into: the first `n_len` source units with the morphemes
/// before `n1`, and the rest (string type 3); where the cut falls `nms` letters into
/// morpheme `n1`, that morpheme's spelling is split between the two.
pub open spec fn cut_words(w: WordV, n1: int, n_len: int, nms: int) -> (WordV, WordV) {
    let first = (w.0.subrange(0, n_len), w.1.subrange(0, n1), w.2, w.3, w.4);
    let second = (w.0.subrange(n_len, w.0.len() as int), w.1.subrange(n1, w.1.len() as int), 3u8, Seq::<IrrV>::empty(), false);
    if nms == 0 {
        (first, second)
    } else {
        let sp = w.1[n1];
        let pre = sp.1.subrange(0, nms);
        let suf = sp.1.subrange(nms, sp.1.len() as int);
        (
            (first.0, first.1.push((sp.0, pre, pyogi_cvc(pre), sp.3, sp.4)), first.2, first.3, first.4),
            (second.0, second.1.update(0, (sp.0, suf, pyogi_cvc(suf), sp.3, false)), second.2, second.3, second.4),
        )
    }
}

/// Cutting one word: `None` where the jamo table or the spelling units overflow, or the
/// cut falls outside the morpheme it names; else the cut, if any.
pub open spec fn cut_one(w: WordV) -> Option<Option<(WordV, WordV)>> {
    if !(width_upto(w.0, w.0.len() as int) <= i16::MAX && 6 * total_pyogi(w.1) <= i32::MAX) {
        None
    } else {
        match cut_scan(w.1, cvc_table(w.0), (3 * w.0.len()) as int, 0, 0, 0) {
            None => Some(None),
            Some(c) => if c.2 == 0 || (0 < c.2 <= w.1[c.0].1.len()) {
                Some(Some(cut_words(w, c.0, c.1, c.2)))
            } else {
                None
            },
        }
    }
}

proof fn lemma_total_pyogi_nonneg(ms: Seq<MorphV>)
    ensures
        total_pyogi(ms) >= 0,
    decreases ms.len(),
{
    if ms.len() > 0 {
        lemma_total_pyogi_nonneg(ms.drop_last());
    }
}

proof fn lemma_total_pyogi_prefix(ms: Seq<MorphV>, k: int)
    requires
        0 <= k < ms.len(),
    ensures
        total_pyogi(ms.subrange(0, k + 1)) == total_pyogi(ms.subrange(0, k)) + ms[k].1.len(),
        total_pyogi(ms.subrange(0, k + 1)) <= total_pyogi(ms),
    decreases ms.len() - k,
{
    assert(ms.subrange(0, k + 1).drop_last() =~= ms.subrange(0, k));
    if k + 1 < ms.len() {
        lemma_total_pyogi_prefix(ms, k + 1);
    } else {
        assert(ms.subrange(0, k + 1) =~= ms);
    }
}

fn tdiv6_exec(x: i64) -> (r: i64)
    requires
        -0x1_0000_0000 <= x <= 0x1_0000_0000,
    ensures
        r == tdiv6(x as int),
        -0x3000_0000 <= r <= 0x3000_0000,
{
    if x >= 0 {
        x / 6
    } else {
        let y: i64 = -x;
        -(y / 6)
    }
}

fn units_range(v: &Vec<u16>, a: usize, b: usize) -> (r: Vec<u16>)
    requires
        a <= b <= v@.len(),
    ensures
        r@ == v@.subrange(a as int, b as int),
{
    let mut out: Vec<u16> = Vec::new();
    let mut i: usize = a;
    while i < b
        invariant
            a <= i <= b <= v@.len(),
            out@ == v@.subrange(a as int, i as int),
        decreases b - i,
    {
        out.push(v[i]);
        i = i + 1;
        proof {
            assert(out@ =~= v@.subrange(a as int, i as int));
        }
    }
    out
}

fn morphs_range(v: &Vec<MaMorph>, a: usize, b: usize) -> (r: Vec<MaMorph>)
    requires
        a <= b <= v@.len(),
    ensures
        morphs_v(r@) == morphs_v(v@).subrange(a as int, b as int),
{
    let mut out: Vec<MaMorph> = Vec::new();
    let mut i: usize = a;
    proof {
        assert(morphs_v(out@) =~= morphs_v(v@).subrange(a as int, a as int));
    }
    while i < b
        invariant
            a <= i <= b <= v@.len(),
            morphs_v(out@) == morphs_v(v@).subrange(a as int, i as int),
        decreases b - i,
    {
        let ghost before = out@;
        out.push(copy_morph(&v[i]));
        i = i + 1;
        proof {
            assert(morphs_v(out@) =~= morphs_v(before).push(morph_v(v@[i - 1])));
            assert(morphs_v(out@) =~= morphs_v(v@).subrange(a as int, i as int));
        }
    }
    out
}

fn split_morph(sp: &MaMorph, at: usize, merged: bool) -> (r: (MaMorph, MaMorph))
    requires
        at <= sp.pyogi@.len(),
    ensures
        morph_v(r.0) == (sp.ch_tag, sp.pyogi@.subrange(0, at as int), pyogi_cvc(sp.pyogi@.subrange(0, at as int)), sp.prob, sp.b_merged),
        morph_v(r.1) == (sp.ch_tag, sp.pyogi@.subrange(at as int, sp.pyogi@.len() as int), pyogi_cvc(
            sp.pyogi@.subrange(at as int, sp.pyogi@.len() as int),
        ), sp.prob, merged),
{
    let pre = crate::common::copy_range(sp.pyogi.as_slice(), 0, at);
    let suf = crate::common::copy_range(sp.pyogi.as_slice(), at, sp.pyogi.len());
    let pc = conv_pyogi_to_cvc(pre.as_slice());
    let sc = conv_pyogi_to_cvc(suf.as_slice());
    (
        MaMorph { ch_tag: sp.ch_tag, pyogi: pre, cvc: pc, prob: sp.prob, b_merged: sp.b_merged },
        MaMorph { ch_tag: sp.ch_tag, pyogi: suf, cvc: sc, prob: sp.prob, b_merged: merged },
    )
}

/// Cuts word `n_index` in two after `n_len` source units and before morpheme `n_start`,
/// `n_morph_start` letters into it (see `cut_words`); the second part follows the first.
pub fn two_cut_anal(klp: &mut KlpState, n_index: usize, n_start: usize, n_len: usize, n_morph_start: i32)
    requires
        n_index < old(klp).words@.len(),
        n_len <= old(klp).words@[n_index as int].source@.len(),
        n_start < old(klp).words@[n_index as int].morphs@.len(),
        n_morph_start == 0 || 0 < n_morph_start <= old(klp).words@[n_index as int].morphs@[n_start as int].pyogi@.len(),
    ensures
        same_state(*final(klp), *old(klp)),
        ({
            let c = cut_words(word_v(old(klp).words@[n_index as int]), n_start as int, n_len as int, n_morph_start as int);
            words_v(final(klp).words@) == words_v(old(klp).words@).update(n_index as int, c.0).insert(n_index + 1, c.1)
        }),
{
    let ghost ws = words_v(klp.words@);
    let len0 = klp.words.len();
    let orig = klp.words.remove(n_index);
    let ghost ow = word_v(orig);
    let slen = orig.source.len();
    let mlen = orig.morphs.len();
    let mut f_morphs = morphs_range(&orig.morphs, 0, n_start);
    let mut s_morphs = morphs_range(&orig.morphs, n_start, mlen);
    if n_morph_start != 0 {
        let at = n_morph_start as usize;
        let (pre, suf) = split_morph(&orig.morphs[n_start], at, false);
        let ghost fm = f_morphs@;
        let ghost sm = s_morphs@;
        proof {
            assert(morphs_v(s_morphs@).len() == s_morphs@.len());
        }
        f_morphs.push(pre);
        s_morphs.set(0, suf);
        proof {
            assert(morphs_v(f_morphs@) =~= morphs_v(fm).push(morph_v(pre)));
            assert(morphs_v(s_morphs@) =~= morphs_v(sm).update(0, morph_v(suf)));
            assert(ow.1[n_start as int] == morph_v(orig.morphs@[n_start as int]));
        }
    }
    let mut f_irr: Vec<IregulerStr> = Vec::new();
    proof {
        assert(irrs_v(f_irr@) =~= Seq::<IrrV>::empty());
    }
    append_irrs(&mut f_irr, &orig.ireguler);
    proof {
        assert(irrs_v(f_irr@) =~= irrs_v(orig.ireguler@));
    }
    let first = MaWord {
        source: units_range(&orig.source, 0, n_len),
        morphs: f_morphs,
        b_str_type: orig.b_str_type,
        ireguler: f_irr,
        b_sentence_end: orig.b_sentence_end,
    };
    let second = MaWord {
        source: units_range(&orig.source, n_len, slen),
        morphs: s_morphs,
        b_str_type: 3,
        ireguler: Vec::new(),
        b_sentence_end: false,
    };
    let ghost c = cut_words(ow, n_start as int, n_len as int, n_morph_start as int);
    proof {
        assert(irrs_v(second.ireguler@) =~= Seq::<IrrV>::empty());
        assert(word_v(first) =~~= c.0);
        assert(word_v(second) =~~= c.1);
    }
    klp.words.insert(n_index, first);
    let next = n_index + 1;
    proof {
        assert(next <= len0);
    }
    klp.words.insert(next, second);
    proof {
        assert(words_v(klp.words@) =~= ws.update(n_index as int, c.0).insert(n_index + 1, c.1));
    }
}

fn scan_inner(tbl: &Vec<i16>, i5: usize, n1: usize, i7: usize, s1: i32, s3: i32, acc: i32) -> (r: Result<usize, (usize, i32)>)
    requires
        i5 + 2 == tbl@.len(),
        i7 <= i5,
        0 <= acc,
        i16::MIN <= s1 <= i16::MAX,
        forall|k: int| 0 <= k < tbl@.len() ==> i16::MIN <= #[trigger] tbl@[k] <= i16::MAX,
    ensures
        match cut_inner(tbl@, i5 as int, n1 as int, i7 as int, s1 as int, s3 as int, acc as int) {
            Ok(j) => r == Ok::<usize, (usize, i32)>(j as usize) && 0 <= j <= i5,
            Err(c) => r matches Err(x) && x.0 == c.0 && x.1 == c.1 && 3 * x.0 < i5,
        },
{
    let mut j: usize = i7;
    let mut cur: i32 = s1;
    while j < i5
        invariant
            i5 + 2 == tbl@.len(),
            j <= i5,
            0 <= acc,
            i16::MIN <= cur <= i16::MAX,
            cut_inner(tbl@, i5 as int, n1 as int, i7 as int, s1 as int, s3 as int, acc as int) == cut_inner(
                tbl@,
                i5 as int,
                n1 as int,
                j as int,
                cur as int,
                s3 as int,
                acc as int,
            ),
        decreases i5 - j,
    {
        if (n1 > 9 && j % 3 == 0) || j > 59 {
            let d = tdiv6_exec((cur as i64) - (acc as i64));
            return Err((j / 3, (d - 1) as i32));
        }
        let next = tbl[j + 1] as i32;
        if s3 < next {
            return Ok(j + 1);
        }
        cur = next;
        j = j + 1;
    }
    Ok(j)
}

/// Cuts word `n` where it is too long to analyse in one piece (see `cut_one`).
#[verifier::spinoff_prover]
#[verifier::rlimit(40)]
pub fn process_last_cut_one(klp: &mut KlpState, n: usize)
    requires
        n < old(klp).words@.len(),
        cut_one(word_v(old(klp).words@[n as int])) is Some,
    ensures
        same_state(*final(klp), *old(klp)),
        match cut_one(word_v(old(klp).words@[n as int]))->0 {
            None => final(klp).words@ == old(klp).words@,
            Some(c) => words_v(final(klp).words@) == words_v(old(klp).words@).update(n as int, c.0).insert(n + 1, c.1),
        },
{
    let ghost w = word_v(klp.words@[n as int]);
    let table = set_word_cvc_table(klp.words[n].source.as_slice());
    let i5 = table.len() - 2;
    let mcnt = klp.words[n].morphs.len();
    let mut lens: Vec<usize> = Vec::new();
    let mut k: usize = 0;
    while k < mcnt
        invariant
            mcnt == klp.words@[n as int].morphs@.len(),
            n < klp.words@.len(),
            w == word_v(klp.words@[n as int]),
            k <= mcnt,
            lens@.len() == k,
            forall|t: int| 0 <= t < k ==> #[trigger] lens@[t] == w.1[t].1.len(),
        decreases mcnt - k,
    {
        proof {
            assert(w.1[k as int] == morph_v(klp.words@[n as int].morphs@[k as int]));
        }
        lens.push(klp.words[n].morphs[k].pyogi.len());
        k = k + 1;
    }
    proof {
        assert(forall|t: int| 0 <= t < table@.len() ==> i16::MIN <= #[trigger] table@[t] <= i16::MAX);
        assert(w.1.subrange(0, 0) =~= Seq::<MorphV>::empty());
    }
    let ghost tbl = table@;
    let mut i7: usize = 0;
    let mut acc: i32 = 0;
    let mut n1: usize = 0;
    while n1 < mcnt
        invariant
            tbl == table@,
            tbl == cvc_table(w.0),
            i5 + 2 == tbl.len(),
            i5 == 3 * w.0.len(),
            mcnt == w.1.len(),
            lens@.len() == mcnt,
            forall|t: int| 0 <= t < mcnt ==> #[trigger] lens@[t] == w.1[t].1.len(),
            n1 <= mcnt,
            i7 <= i5,
            6 * total_pyogi(w.1) <= i32::MAX,
            acc == 6 * total_pyogi(w.1.subrange(0, n1 as int)),
            0 <= acc,
            forall|t: int| 0 <= t < tbl.len() ==> i16::MIN <= #[trigger] tbl[t] <= i16::MAX,
            cut_scan(w.1, tbl, i5 as int, 0, 0, 0) == cut_scan(w.1, tbl, i5 as int, n1 as int, i7 as int, acc as int),
            n < klp.words@.len(),
            w == word_v(klp.words@[n as int]),
            klp.words@ == old(klp).words@,
            same_state(*klp, *old(klp)),
            cut_one(w) is Some,
        decreases mcnt - n1,
    {
        proof {
            lemma_total_pyogi_prefix(w.1, n1 as int);
            lemma_total_pyogi_nonneg(w.1.subrange(0, n1 as int));
            assert(lens@[n1 as int] == w.1[n1 as int].1.len());
            assert(lens@[n1 as int] <= total_pyogi(w.1));
        }
        let s3: i32 = acc + (lens[n1] as i32) * 6;
        let s1: i32 = table[i7] as i32;
        if s1 <= s3 {
            match scan_inner(&table, i5, n1, i7, s1, s3, acc) {
                Err(c) => {
                    let n_len = c.0;
                    let nms = c.1;
                    proof {
                        assert(cut_scan(w.1, tbl, i5 as int, 0, 0, 0) == Some((n1 as int, n_len as int, nms as int)));
                        assert(w.1[n1 as int] == morph_v(klp.words@[n as int].morphs@[n1 as int]));
                    }
                    two_cut_anal(klp, n, n1, n_len, nms);
                    return;
                },
                Ok(j) => {
                    i7 = j;
                },
            }
        }
        n1 = n1 + 1;
        acc = s3;
    }
}

/// A word's weight: its source units and morphemes, plus one.
pub open spec fn word_weight(w: WordV) -> int {
    (w.0.len() + w.1.len() + 1) as int
}

/// The weight of the words from `n` on.
pub open spec fn rest_weight(ws: Seq<WordV>, n: int) -> int
    decreases ws.len() - n,
{
    if n < 0 || n >= ws.len() {
        0
    } else {
        word_weight(ws[n]) + rest_weight(ws, n + 1)
    }
}

pub proof fn lemma_rest_nonneg(ws: Seq<WordV>, n: int)
    ensures
        rest_weight(ws, n) >= 0,
    decreases ws.len() - n,
{
    if 0 <= n < ws.len() {
        lemma_rest_nonneg(ws, n + 1);
    }
}

pub proof fn lemma_rest_suffix(s: Seq<WordV>, i: int, t: Seq<WordV>, j: int)
    requires
        0 <= i <= s.len(),
        0 <= j <= t.len(),
        s.subrange(i, s.len() as int) == t.subrange(j, t.len() as int),
    ensures
        rest_weight(s, i) == rest_weight(t, j),
    decreases s.len() - i,
{
    if i < s.len() {
        assert(s.subrange(i, s.len() as int).len() == s.len() - i);
        assert(t.subrange(j, t.len() as int).len() == t.len() - j);
        assert(j < t.len());
        assert(s[i] == s.subrange(i, s.len() as int)[0]);
        assert(t[j] == t.subrange(j, t.len() as int)[0]);
        assert(s.subrange(i + 1, s.len() as int) =~= s.subrange(i, s.len() as int).subrange(1, s.len() - i));
        assert(t.subrange(j + 1, t.len() as int) =~= t.subrange(j, t.len() as int).subrange(1, t.len() - j));
        lemma_rest_suffix(s, i + 1, t, j + 1);
    } else {
        assert(t.subrange(j, t.len() as int).len() == 0);
    }
}

pub proof fn lemma_cut_inner(tbl: Seq<i16>, i5: int, n1: int, i7: int, s1: int, s3: int, acc: int)
    ensures
        cut_inner(tbl, i5, n1, i7, s1, s3, acc) matches Err(c) ==> (n1 > 9 || c.0 >= 20) && 0 <= 3 * c.0 < i5,
    decreases i5 - i7,
{
    if !(i7 < 0 || i7 >= i5 || i7 + 1 >= tbl.len()) && !((n1 > 9 && i7 % 3 == 0) || i7 > 59) {
        let s1n = tbl[i7 + 1] as int;
        if !(s3 < s1n) {
            lemma_cut_inner(tbl, i5, n1, i7 + 1, s1n, s3, acc);
        }
    }
}

pub proof fn lemma_cut_scan(ms: Seq<MorphV>, tbl: Seq<i16>, i5: int, n1: int, i7: int, acc: int)
    ensures
        cut_scan(ms, tbl, i5, n1, i7, acc) matches Some(c) ==> (c.0 > 9 || c.1 >= 20) && 0 <= c.0 < ms.len() && 0 <= 3
            * c.1 < i5,
    decreases ms.len() - n1,
{
    if !(n1 < 0 || n1 >= ms.len() || i7 < 0 || i7 >= tbl.len()) {
        let s3 = acc + 6 * ms[n1].1.len();
        let s1 = tbl[i7] as int;
        lemma_cut_inner(tbl, i5, n1, i7, s1, s3, acc);
        if s1 <= s3 {
            match cut_inner(tbl, i5, n1, i7, s1, s3, acc) {
                Err(c) => {},
                Ok(i7n) => {
                    lemma_cut_scan(ms, tbl, i5, n1 + 1, i7n, s3);
                },
            }
        } else {
            lemma_cut_scan(ms, tbl, i5, n1 + 1, i7, s3);
        }
    }
}

/// A cut word's second part weighs less than the word.
pub proof fn lemma_cut_lighter(w: WordV)
    requires
        cut_one(w) matches Some(Some(c)),
    ensures
        word_weight((cut_one(w)->0->0).1) < word_weight(w),
        ((cut_one(w)->0->0).0).0.len() + ((cut_one(w)->0->0).1).0.len() == w.0.len(),
{
    lemma_cut_scan(w.1, cvc_table(w.0), (3 * w.0.len()) as int, 0, 0, 0);
}

/// Cutting the words too long to analyse, from word `n` on: a word of more than ten
/// morphemes or nineteen source units is cut (see `cut_one`), and its second part is
/// looked at next; `None` where a cut is not defined.
pub open spec fn last_cut_from(ws: Seq<WordV>, n: int) -> Option<Seq<WordV>>
    decreases rest_weight(ws, n),
{
    if n < 0 || n >= ws.len() {
        Some(ws)
    } else {
        proof {
            lemma_rest_nonneg(ws, n + 1);
        }
        if ws[n].1.len() > 10 || ws[n].0.len() > 19 {
            match cut_one(ws[n]) {
                None => None,
                Some(None) => last_cut_from(ws, n + 1),
                Some(Some(c)) => {
                    let next = ws.update(n, c.0).insert(n + 1, c.1);
                    proof {
                        lemma_cut_lighter(ws[n]);
                        lemma_rest_nonneg(next, n + 1);
                        assert(next.subrange(n + 2, next.len() as int) =~= ws.subrange(n + 1, ws.len() as int));
                        lemma_rest_suffix(next, n + 2, ws, n + 1);
                        assert(next[n + 1] == c.1);
                    }
                    last_cut_from(next, n + 1)
                },
            }
        } else {
            last_cut_from(ws, n + 1)
        }
    }
}

/// Cuts the words too long to analyse (see `last_cut_from`).
#[verifier::spinoff_prover]
#[verifier::rlimit(40)]
pub fn process_last_cut(klp: &mut KlpState)
    requires
        last_cut_from(words_v(old(klp).words@), 0) is Some,
    ensures
        same_state(*final(klp), *old(klp)),
        words_v(final(klp).words@) == last_cut_from(words_v(old(klp).words@), 0)->0,
{
    let mut n: usize = 0;
    while n < klp.words.len()
        invariant
            same_state(*klp, *old(klp)),
            last_cut_from(words_v(klp.words@), n as int) == last_cut_from(words_v(old(klp).words@), 0),
            last_cut_from(words_v(old(klp).words@), 0) is Some,
        decreases rest_weight(words_v(klp.words@), n as int),
    {
        let ghost ws = words_v(klp.words@);
        proof {
            assert(ws[n as int] == word_v(klp.words@[n as int]));
            lemma_rest_nonneg(ws, n + 1);
        }
        if klp.words[n].morphs.len() > 10 || klp.words[n].source.len() > 19 {
            process_last_cut_one(klp, n);
            proof {
                match cut_one(ws[n as int])->0 {
                    None => {
                        assert(words_v(klp.words@) == ws);
                    },
                    Some(c) => {
                        let next = ws.update(n as int, c.0).insert(n + 1, c.1);
                        lemma_cut_lighter(ws[n as int]);
                        lemma_rest_nonneg(next, n + 1);
                        assert(next.subrange(n + 2, next.len() as int) =~= ws.subrange(n + 1, ws.len() as int));
                        lemma_rest_suffix(next, n + 2, ws, n + 1);
                        assert(next[n + 1] == c.1);
                    },
                }
            }
        }
        n = n + 1;
    }
}

/// A morpheme tagged `:` retagged `9`.
pub open spec fn retag_morph(m: MorphV) -> MorphV {
    if m.0 == 0x3A {
        (0x39u8, m.1, m.2, m.3, m.4)
    } else {
        m
    }
}

/// A word with its `:` morphemes retagged `9`.
pub open spec fn retag_word(w: WordV) -> WordV {
    (w.0, w.1.map_values(|m: MorphV| retag_morph(m)), w.2, w.3, w.4)
}

/// Every morpheme tagged `:` retagged `9`.
pub open spec fn retag_to(ws: Seq<WordV>) -> Seq<WordV> {
    ws.map_values(|w: WordV| retag_word(w))
}

fn retag_one(w: &MaWord) -> (r: MaWord)
    ensures
        word_v(r) == retag_word(word_v(*w)),
{
    let mut morphs: Vec<MaMorph> = Vec::new();
    let ghost mv = morphs_v(w.morphs@);
    let mut j: usize = 0;
    while j < w.morphs.len()
        invariant
            j <= w.morphs@.len(),
            mv == morphs_v(w.morphs@),
            morphs_v(morphs@) == mv.subrange(0, j as int).map_values(|m: MorphV| retag_morph(m)),
        decreases w.morphs@.len() - j,
    {
        let mut x = copy_morph(&w.morphs[j]);
        if x.ch_tag == 0x3A {
            x.ch_tag = 0x39;
        }
        let ghost before = morphs@;
        morphs.push(x);
        j = j + 1;
        proof {
            assert(mv[j - 1] == morph_v(w.morphs@[j - 1]));
            assert(morphs_v(morphs@) =~= morphs_v(before).push(retag_morph(mv[j - 1])));
            assert(morphs_v(morphs@) =~= mv.subrange(0, j as int).map_values(|m: MorphV| retag_morph(m)));
        }
    }
    proof {
        assert(mv.subrange(0, mv.len() as int) =~= mv);
    }
    let mut irr: Vec<IregulerStr> = Vec::new();
    proof {
        assert(irrs_v(irr@) =~= Seq::<IrrV>::empty());
    }
    append_irrs(&mut irr, &w.ireguler);
    let mut source: Vec<u16> = Vec::new();
    append_units(&mut source, &w.source);
    let r = MaWord { source, morphs, b_str_type: w.b_str_type, ireguler: irr, b_sentence_end: w.b_sentence_end };
    proof {
        assert(irrs_v(r.ireguler@) =~= irrs_v(w.ireguler@));
        assert(r.source@ =~= w.source@);
    }
    r
}

/// Retags every `:` morpheme as `9`.
pub fn process_modify_ma_result_to(klp: &mut KlpState)
    ensures
        same_state(*final(klp), *old(klp)),
        words_v(final(klp).words@) == retag_to(words_v(old(klp).words@)),
{
    let ghost ws = words_v(klp.words@);
    let mut out: Vec<MaWord> = Vec::new();
    let mut i: usize = 0;
    while i < klp.words.len()
        invariant
            i <= klp.words@.len(),
            ws == words_v(klp.words@),
            klp.words@ == old(klp).words@,
            same_state(*klp, *old(klp)),
            words_v(out@) == ws.subrange(0, i as int).map_values(|w: WordV| retag_word(w)),
        decreases klp.words@.len() - i,
    {
        let r = retag_one(&klp.words[i]);
        let ghost before = out@;
        out.push(r);
        i = i + 1;
        proof {
            assert(ws[i - 1] == word_v(klp.words@[i - 1]));
            assert(words_v(out@) =~= words_v(before).push(retag_word(ws[i - 1])));
            assert(words_v(out@) =~= ws.subrange(0, i as int).map_values(|w: WordV| retag_word(w)));
        }
    }
    proof {
        assert(ws.subrange(0, ws.len() as int) =~= ws);
    }
    klp.words = out;
}

/// The ordinals of a spelling, or the spelling itself where it has none.
pub open spec fn morph_cvc(p: Seq<u8>) -> Seq<u8> {
    if pyogi_cvc(p).len() == 0 {
        p
    } else {
        pyogi_cvc(p)
    }
}

/// Each byte widened to a code unit.
pub open spec fn widen(b: Seq<u8>) -> Seq<u16> {
    b.map_values(|c: u8| c as u16)
}

/// A word turned into the ASCII text `text` with tag `tag` (string type 3): its source is
/// the text, and its first morpheme, if any, is respelled as the text.
pub open spec fn converted(w: WordV, text: Seq<u8>, tag: u8) -> WordV {
    let ms = if w.1.len() > 0 {
        w.1.update(0, (tag, text, morph_cvc(text), w.1[0].3, w.1[0].4))
    } else {
        w.1
    };
    (widen(text), ms, 3u8, w.3, w.4)
}

/// Turns a word into the ASCII text `text` with tag `tag` (see `converted`).
pub fn convert_anal(word: &mut MaWord, text: &[u8], tag: u8)
    ensures
        word_v(*final(word)) == converted(word_v(*old(word)), text@, tag),
{
    let ghost w0 = word_v(*word);
    let c = conv_pyogi_to_cvc(text);
    let cvc = if c.len() == 0 {
        crate::common::copy_range(text, 0, text.len())
    } else {
        c
    };
    proof {
        assert(text@.subrange(0, text@.len() as int) =~= text@);
    }
    if word.morphs.len() > 0 {
        let mut m = word.morphs.remove(0);
        m.ch_tag = tag;
        m.pyogi = crate::common::copy_range(text, 0, text.len());
        m.cvc = cvc;
        word.morphs.insert(0, m);
        proof {
            assert(morphs_v(word.morphs@) =~= w0.1.update(0, (tag, text@, morph_cvc(text@), w0.1[0].3, w0.1[0].4)));
        }
    }
    let mut src: Vec<u16> = Vec::new();
    let mut i: usize = 0;
    while i < text.len()
        invariant
            i <= text@.len(),
            src@ == widen(text@.subrange(0, i as int)),
        decreases text@.len() - i,
    {
        src.push(text[i] as u16);
        i = i + 1;
        proof {
            assert(src@ =~= widen(text@.subrange(0, i as int)));
        }
    }
    word.source = src;
    word.b_str_type = 3;
}

/// Dropping stray spaces inside digit groups from word `i5` on: in digit, `L`, space,
/// digit, a one-unit space is dropped; in digit, space, digit, a one-unit space becomes a
/// comma separator (string type 0).
pub open spec fn del_space_from(ws: Seq<WordV>, i5: int) -> Seq<WordV>
    decreases ws.len() - i5,
{
    if i5 < 0 || ws.len() <= i5 + 1 {
        ws
    } else {
        let next = if i5 + 2 >= ws.len() {
            ws
        } else if i5 + 3 < ws.len() && pumsa_at(ws, i5, seq![0x49u8, 0x4C, 0x6B, 0x49]) {
            if ws[i5 + 2].0.len() == 1 {
                ws.remove(i5 + 2)
            } else {
                ws
            }
        } else if pumsa_at(ws, i5, seq![0x49u8, 0x6B, 0x49]) && ws[i5 + 1].0.len() == 1 {
            let c = converted(ws[i5 + 1], seq![0x2Cu8], 0x4D);
            ws.update(i5 + 1, (c.0, c.1, 0u8, c.3, c.4))
        } else {
            ws
        };
        del_space_from(next, i5 + 1)
    }
}

/// Drops stray spaces inside digit groups (see `del_space_from`).
#[verifier::spinoff_prover]
#[verifier::rlimit(40)]
pub fn process_del_space_symbol(klp: &mut KlpState)
    ensures
        same_state(*final(klp), *old(klp)),
        words_v(final(klp).words@) == del_space_from(words_v(old(klp).words@), 0),
{
    let ilki: [u8; 4] = [0x49, 0x4C, 0x6B, 0x49];
    let iki: [u8; 3] = [0x49, 0x6B, 0x49];
    let comma: [u8; 1] = [0x2C];
    proof {
        assert(ilki@ =~= seq![0x49u8, 0x4C, 0x6B, 0x49]);
        assert(iki@ =~= seq![0x49u8, 0x6B, 0x49]);
        assert(comma@ =~= seq![0x2Cu8]);
    }
    let mut i5: usize = 0;
    while i5 < klp.words.len() && klp.words.len() - i5 > 1
        invariant
            ilki@ == seq![0x49u8, 0x4C, 0x6B, 0x49],
            iki@ == seq![0x49u8, 0x6B, 0x49],
            comma@ == seq![0x2Cu8],
            same_state(*klp, *old(klp)),
            del_space_from(words_v(klp.words@), i5 as int) == del_space_from(words_v(old(klp).words@), 0),
        decreases klp.words@.len() - i5,
    {
        let ghost ws = words_v(klp.words@);
        let len = klp.words.len();
        if len - i5 <= 2 {
        } else if len - i5 > 3 && is_pumsa_array(&klp.words, i5, ilki.as_slice()) {
            proof {
                assert(ws[i5 + 2] == word_v(klp.words@[i5 + 2]));
            }
            if klp.words[i5 + 2].source.len() == 1 {
                remove_word(klp, i5 + 2);
            }
        } else if is_pumsa_array(&klp.words, i5, iki.as_slice()) && klp.words[i5 + 1].source.len() == 1 {
            proof {
                assert(ws[i5 + 1] == word_v(klp.words@[i5 + 1]));
            }
            let mut w = klp.words.remove(i5 + 1);
            convert_anal(&mut w, comma.as_slice(), 0x4D);
            w.b_str_type = 0;
            klp.words.insert(i5 + 1, w);
            proof {
                assert(words_v(klp.words@) =~= ws.update(
                    i5 + 1,
                    ({
                        let c = converted(ws[i5 + 1], seq![0x2Cu8], 0x4D);
                        (c.0, c.1, 0u8, c.3, c.4)
                    }),
                ));
            }
        }
        proof {
            assert(words_v(klp.words@).len() == klp.words@.len());
        }
        i5 = i5 + 1;
    }
}

/// Words `a..b` joined into one word (string type 3) in place: the list and how many
/// words fewer it has.
pub open spec fn merge_range(ws: Seq<WordV>, a: int, b: int) -> (Seq<WordV>, int) {
    if b <= a {
        (ws, 0)
    } else {
        (ws.subrange(0, a) + seq![joined(ws, a, b, 3)] + ws.subrange(b, ws.len() as int), b - a - 1)
    }
}

/// Where a group that starts at `n1` ends, reading words from `start` on with `nm`
/// morphemes and `nl` source units behind: the first word at which the group passes ten
/// morphemes or nineteen units, or `end + 1` where it reaches past `end` first.
pub open spec fn group_end(ws: Seq<WordV>, start: int, end: int, nm: int, nl: int) -> int
    decreases end + 1 - start,
{
    if start < 0 || start > end || start >= ws.len() {
        end + 1
    } else {
        let m = nm + ws[start].1.len();
        let l = nl + ws[start].0.len();
        if l > 19 || m > 10 {
            start
        } else {
            group_end(ws, start + 1, end, m, l)
        }
    }
}

pub proof fn lemma_group_end(ws: Seq<WordV>, start: int, end: int, nm: int, nl: int)
    ensures
        start <= group_end(ws, start, end, nm, nl) || group_end(ws, start, end, nm, nl) == end + 1,
        group_end(ws, start, end, nm, nl) <= end + 1 || start > end,
        group_end(ws, start, end, nm, nl) >= start || group_end(ws, start, end, nm, nl) == end + 1,
    decreases end + 1 - start,
{
    if !(start < 0 || start > end || start >= ws.len()) {
        let m = nm + ws[start].1.len();
        let l = nl + ws[start].0.len();
        if !(l > 19 || m > 10) {
            lemma_group_end(ws, start + 1, end, m, l);
        }
    }
}

/// Joining the words `n1..=end` group by group, each group as many words as fit in ten
/// morphemes and nineteen units (a word that alone does not fit stays alone): the list
/// and where the word after `end` (counted by `n_ret`) ends up.
pub open spec fn merge_groups(ws: Seq<WordV>, n1: int, end: int, n_ret: int) -> (Seq<WordV>, int)
    decreases end - n1,
{
    if n1 < 0 || end < n1 || end >= ws.len() {
        (ws, end + n_ret)
    } else {
        let start = group_end(ws, n1, end, 0, 0);
        proof {
            lemma_group_end(ws, n1, end, 0, 0);
        }
        let mr = merge_range(ws, n1, start);
        if start > end {
            (mr.0, end + n_ret - mr.1)
        } else {
            let end2 = end - mr.1;
            if end2 < n1 + 1 {
                (mr.0, end2 + n_ret)
            } else {
                merge_groups(mr.0, n1 + 1, end2, n_ret)
            }
        }
    }
}

/// Joining the words `n_start..=n_end` into groups (a closing space word stays out):
/// the list and where word `n_end` ends up.
pub open spec fn merge_process_spec(ws: Seq<WordV>, n_start: int, n_end: int) -> (Seq<WordV>, int) {
    if n_end <= n_start || n_end >= ws.len() {
        (ws, n_end)
    } else if first_tag(ws[n_end]) == Some(0x6Bu8) {
        if n_end - 1 < n_start {
            (ws, n_end)
        } else {
            merge_groups(ws, n_start, n_end - 1, 1)
        }
    } else {
        merge_groups(ws, n_start, n_end, 0)
    }
}

pub proof fn lemma_merge_groups(ws: Seq<WordV>, n1: int, end: int, n_ret: int)
    requires
        0 <= n1,
        end < ws.len(),
    ensures
        merge_groups(ws, n1, end, n_ret).1 == end + n_ret - (ws.len() - merge_groups(ws, n1, end, n_ret).0.len()),
        merge_groups(ws, n1, end, n_ret).0.len() <= ws.len(),
        end < n1 ==> merge_groups(ws, n1, end, n_ret).0 == ws,
    decreases end - n1,
{
    if !(n1 < 0 || end < n1 || end >= ws.len()) {
        let start = group_end(ws, n1, end, 0, 0);
        lemma_group_end(ws, n1, end, 0, 0);
        let mr = merge_range(ws, n1, start);
        if start > end {
        } else {
            let end2 = end - mr.1;
            if !(end2 < n1 + 1) {
                lemma_merge_groups(mr.0, n1 + 1, end2, n_ret);
            }
        }
    }
}

/// Joins words `a..b` into one word of string type 3 (see `merge_range`); returns how
/// many words fewer the list has.
pub fn merge_process_range(klp: &mut KlpState, a: usize, b: usize) -> (r: usize)
    requires
        b <= old(klp).words@.len(),
    ensures
        same_state(*final(klp), *old(klp)),
        words_v(final(klp).words@) == merge_range(words_v(old(klp).words@), a as int, b as int).0,
        r == merge_range(words_v(old(klp).words@), a as int, b as int).1,
{
    if b <= a {
        return 0;
    }
    let ghost ws = words_v(klp.words@);
    let merged = join_words(&klp.words, a, b, 3);
    let ghost raw = klp.words@;
    let mut k: usize = a;
    while k < b
        invariant
            a <= k <= b <= raw.len(),
            klp.words@ == raw.subrange(0, a as int) + raw.subrange(k as int, raw.len() as int),
            same_state(*klp, *old(klp)),
        decreases b - k,
    {
        klp.words.remove(a);
        k = k + 1;
        proof {
            assert(klp.words@ =~= raw.subrange(0, a as int) + raw.subrange(k as int, raw.len() as int));
        }
    }
    klp.words.insert(a, merged);
    proof {
        assert(ws == words_v(raw));
        assert(words_v(klp.words@) =~= ws.subrange(0, a as int) + seq![joined(ws, a as int, b as int, 3)] + ws.subrange(
            b as int,
            ws.len() as int,
        ));
    }
    b - a - 1
}

fn find_group_end(klp: &KlpState, n1: usize, end: usize) -> (start: usize)
    requires
        n1 <= end < klp.words@.len(),
    ensures
        start == group_end(words_v(klp.words@), n1 as int, end as int, 0, 0),
        n1 <= start <= end + 1,
{
    let ghost ws = words_v(klp.words@);
    let len = klp.words.len();
    let mut start: usize = n1;
    let mut nm: usize = 0;
    let mut nl: usize = 0;
    loop
        invariant
            ws == words_v(klp.words@),
            len == klp.words@.len(),
            n1 <= start <= end < len,
            nm <= 10,
            nl <= 19,
            group_end(ws, n1 as int, end as int, 0, 0) == group_end(ws, start as int, end as int, nm as int, nl as int),
        decreases end - start,
    {
        proof {
            assert(ws[start as int] == word_v(klp.words@[start as int]));
        }
        let m = klp.words[start].morphs.len();
        let l = klp.words[start].source.len();
        if l > 19 - nl || m > 10 - nm {
            return start;
        }
        nl = nl + l;
        nm = nm + m;
        proof {
            assert(group_end(ws, start as int, end as int, (nm - m) as int, (nl - l) as int) == group_end(
                ws,
                start + 1,
                end as int,
                nm as int,
                nl as int,
            ));
        }
        if start == end {
            proof {
                assert(group_end(ws, end + 1, end as int, nm as int, nl as int) == end + 1);
            }
            return end + 1;
        }
        start = start + 1;
    }
}

/// Joins the words `n_start..=n_end` group by group (see `merge_process_spec`); returns
/// where word `n_end` ends up.
#[verifier::spinoff_prover]
#[verifier::rlimit(40)]
pub fn merge_process(klp: &mut KlpState, n_start: usize, n_end: usize) -> (r: usize)
    requires
        n_end <= n_start || n_end < old(klp).words@.len(),
    ensures
        same_state(*final(klp), *old(klp)),
        words_v(final(klp).words@) == merge_process_spec(words_v(old(klp).words@), n_start as int, n_end as int).0,
        r == merge_process_spec(words_v(old(klp).words@), n_start as int, n_end as int).1,
{
    if n_end <= n_start {
        return n_end;
    }
    let ghost ws0 = words_v(klp.words@);
    proof {
        assert(ws0[n_end as int] == word_v(klp.words@[n_end as int]));
    }
    let mut end: usize = n_end;
    let mut n_ret: usize = 0;
    if first_tag_exec(&klp.words[end]) == Some(0x6Bu8) {
        if end - 1 < n_start {
            return n_end;
        }
        end = end - 1;
        n_ret = 1;
    }
    let ghost target = merge_groups(ws0, n_start as int, end as int, n_ret as int);
    proof {
        lemma_merge_groups(ws0, n_start as int, end as int, n_ret as int);
    }
    let mut n1: usize = n_start;
    loop
        invariant
            n1 <= end < klp.words@.len(),
            n_ret <= 1,
            n_start <= n1,
            same_state(*klp, *old(klp)),
            merge_groups(words_v(klp.words@), n1 as int, end as int, n_ret as int) == target,
            target == merge_process_spec(ws0, n_start as int, n_end as int),
            ws0 == words_v(old(klp).words@),
        decreases end - n1,
    {
        let ghost ws = words_v(klp.words@);
        proof {
            lemma_group_end(ws, n1 as int, end as int, 0, 0);
        }
        let start = find_group_end(klp, n1, end);
        let ghost len_before = klp.words@.len();
        let ret = merge_process_range(klp, n1, start);
        proof {
            assert(words_v(klp.words@).len() == klp.words@.len());
            if start > n1 {
                assert(klp.words@.len() == len_before - ret);
            } else {
                assert(ret == 0);
                assert(klp.words@.len() == len_before);
            }
        }
        if start > end {
            return (end + n_ret) - ret;
        }
        end = end - ret;
        let cur_len = klp.words.len();
        proof {
            assert(end < cur_len);
        }
        if end <= n1 {
            return end + n_ret;
        }
        n1 = n1 + 1;
    }
}

/// The words from `i` on, where a bound word (`k`, `L` or `M`) closes the group before
/// it (from `ns`) to be joined: the list and where the last group starts.
pub open spec fn last_merge_scan(ws: Seq<WordV>, i: int, ns: int) -> (Seq<WordV>, int)
    decreases ws.len() - i,
{
    if i < 0 || i >= ws.len() || ns < 0 {
        (ws, ns)
    } else if is_bound_tag(first_tag(ws[i])) {
        let mp = merge_process_spec(ws, ns, i);
        proof {
            lemma_merge_process_spec(ws, ns, i);
        }
        last_merge_scan(mp.0, mp.1 + 1, mp.1 + 1)
    } else {
        last_merge_scan(ws, i + 1, ns)
    }
}

/// `k`, `L`, `M`.
pub open spec fn is_bound_tag(t: Option<u8>) -> bool {
    t == Some(0x6Bu8) || t == Some(0x4Cu8) || t == Some(0x4Du8)
}

pub proof fn lemma_merge_process_spec(ws: Seq<WordV>, ns: int, i: int)
    requires
        0 <= i < ws.len(),
        0 <= ns,
    ensures
        merge_process_spec(ws, ns, i).1 == i - (ws.len() - merge_process_spec(ws, ns, i).0.len()),
        merge_process_spec(ws, ns, i).0.len() <= ws.len(),
{
    if !(i <= ns || i >= ws.len()) {
        if first_tag(ws[i]) == Some(0x6Bu8) {
            if !(i - 1 < ns) {
                lemma_merge_groups(ws, ns, i - 1, 1);
            }
        } else {
            lemma_merge_groups(ws, ns, i, 0);
        }
    }
}

/// The words whose first morpheme is not bound.
pub open spec fn drop_bound(ws: Seq<WordV>) -> Seq<WordV>
    decreases ws.len(),
{
    if ws.len() == 0 {
        ws
    } else if is_bound_tag(first_tag(ws.last())) {
        drop_bound(ws.drop_last())
    } else {
        drop_bound(ws.drop_last()).push(ws.last())
    }
}

/// Joining each run of words before a bound word, and the last run, into groups that fit
/// (see `merge_process_spec`), then dropping the bound words.
pub open spec fn last_merge(ws: Seq<WordV>) -> Seq<WordV> {
    let sc = last_merge_scan(ws, 0, 0);
    let joined_all = if sc.0.len() > 0 {
        merge_process_spec(sc.0, sc.1, sc.0.len() - 1).0
    } else {
        sc.0
    };
    drop_bound(joined_all)
}

/// Joins runs of words into groups that fit and drops the bound words (see
/// `last_merge`).
#[verifier::spinoff_prover]
#[verifier::rlimit(40)]
pub fn process_last_merge(klp: &mut KlpState)
    ensures
        same_state(*final(klp), *old(klp)),
        words_v(final(klp).words@) == last_merge(words_v(old(klp).words@)),
{
    let ghost ws0 = words_v(klp.words@);
    let mut i: usize = 0;
    let mut ns: usize = 0;
    while i < klp.words.len()
        invariant
            same_state(*klp, *old(klp)),
            last_merge_scan(words_v(klp.words@), i as int, ns as int) == last_merge_scan(ws0, 0, 0),
            ws0 == words_v(old(klp).words@),
        decreases klp.words@.len() - i,
    {
        let ghost ws = words_v(klp.words@);
        proof {
            assert(ws[i as int] == word_v(klp.words@[i as int]));
        }
        let t = first_tag_exec(&klp.words[i]);
        if t == Some(0x6Bu8) || t == Some(0x4Cu8) || t == Some(0x4Du8) {
            proof {
                lemma_merge_process_spec(ws, ns as int, i as int);
            }
            let r = merge_process(klp, ns, i);
            proof {
                assert(words_v(klp.words@).len() == klp.words@.len());
            }
            i = r + 1;
            ns = i;
        } else {
            i = i + 1;
        }
    }
    let ghost sc = words_v(klp.words@);
    proof {
        assert(last_merge_scan(sc, i as int, ns as int) == (sc, ns as int));
    }
    if klp.words.len() > 0 {
        let l = klp.words.len() - 1;
        merge_process(klp, ns, l);
    }
    let ghost ja = words_v(klp.words@);
    let mut out: Vec<MaWord> = Vec::new();
    let n = klp.words.len();
    let mut k: usize = 0;
    proof {
        assert(ja.subrange(0, 0) =~= Seq::<WordV>::empty());
    }
    while k < n
        invariant
            n == klp.words@.len(),
            k <= n,
            ja == words_v(klp.words@),
            words_v(out@) == drop_bound(ja.subrange(0, k as int)),
            same_state(*klp, *old(klp)),
        decreases n - k,
    {
        proof {
            assert(ja[k as int] == word_v(klp.words@[k as int]));
            assert(ja.subrange(0, k + 1).drop_last() =~= ja.subrange(0, k as int));
            assert(ja.subrange(0, k + 1).last() == ja[k as int]);
        }
        let t = first_tag_exec(&klp.words[k]);
        if !(t == Some(0x6Bu8) || t == Some(0x4Cu8) || t == Some(0x4Du8)) {
            let w2 = copy_word(&klp.words[k]);
            let ghost before = out@;
            out.push(w2);
            proof {
                assert(words_v(out@) =~= words_v(before).push(ja[k as int]));
            }
        }
        k = k + 1;
    }
    proof {
        assert(ja.subrange(0, n as int) =~= ja);
    }
    klp.words = out;
}

/// The value of a word's source read as a number, where the word is a plain string
/// (string type 0).
pub open spec fn digit_str(w: WordV) -> Option<int> {
    if w.2 != 0 {
        None
    } else {
        Some(wtoi_from(w.0, 0, 0))
    }
}

/// The number a plain word reads as.
pub fn is_digit_str(w: &MaWord) -> (r: Option<i32>)
    ensures
        match digit_str(word_v(*w)) {
            Some(n) => r == Some(n as i32) && r->0 == n,
            None => r is None,
        },
{
    if w.b_str_type != 0 {
        return None;
    }
    let n = wtoi(w.source.as_slice());
    Some(n)
}

/// The number a plain word of `n_len` source units reads as.
pub fn is_length_str(w: &MaWord, n_len: usize) -> (r: Option<i32>)
    ensures
        w.source@.len() != n_len ==> r is None,
        w.source@.len() == n_len ==> match digit_str(word_v(*w)) {
            Some(n) => r == Some(n as i32) && r->0 == n,
            None => r is None,
        },
{
    if w.source.len() != n_len {
        return None;
    }
    is_digit_str(w)
}

/// The year a word reads as (1801 to 3000).
pub fn is_year_str(w: &MaWord) -> (r: Option<i32>)
    ensures
        match digit_str(word_v(*w)) {
            Some(n) => if 1801 <= n <= 3000 { r == Some(n as i32) && r->0 == n } else { r is None },
            None => r is None,
        },
{
    match is_digit_str(w) {
        Some(n) => if is_year(n) { Some(n) } else { None },
        None => None,
    }
}

/// The month a word reads as (1 to 12).
pub fn is_month_str(w: &MaWord) -> (r: Option<i32>)
    ensures
        match digit_str(word_v(*w)) {
            Some(n) => if 1 <= n <= 12 { r == Some(n as i32) && r->0 == n } else { r is None },
            None => r is None,
        },
{
    match is_digit_str(w) {
        Some(n) => if is_month(n) { Some(n) } else { None },
        None => None,
    }
}

/// The day a word reads as (1 to 31).
pub fn is_day_str(w: &MaWord) -> (r: Option<i32>)
    ensures
        match digit_str(word_v(*w)) {
            Some(n) => if 1 <= n <= 31 { r == Some(n as i32) && r->0 == n } else { r is None },
            None => r is None,
        },
{
    match is_digit_str(w) {
        Some(n) => if is_day(n) { Some(n) } else { None },
        None => None,
    }
}

/// The year of the Juche calendar a word reads as (1 to 200).
pub fn is_juche_year_str(w: &MaWord) -> (r: Option<i32>)
    ensures
        match digit_str(word_v(*w)) {
            Some(n) => if 1 <= n <= 200 { r == Some(n as i32) && r->0 == n } else { r is None },
            None => r is None,
        },
{
    match is_digit_str(w) {
        Some(n) => if is_juche_year(n) { Some(n) } else { None },
        None => None,
    }
}

/// A number under 100 that a word reads as.
pub fn is_digit_value(w: &MaWord) -> (r: Option<i32>)
    ensures
        match digit_str(word_v(*w)) {
            Some(n) => if n < 100 { r == Some(n as i32) && r->0 == n } else { r is None },
            None => r is None,
        },
{
    match is_digit_str(w) {
        Some(n) => if n < 100 { Some(n) } else { None },
        None => None,
    }
}

/// The spellings of a word's morphemes, one after another.
pub open spec fn word_pyogi_of(ms: Seq<MorphV>) -> Seq<u8>
    decreases ms.len(),
{
    if ms.len() == 0 {
        Seq::empty()
    } else {
        word_pyogi_of(ms.drop_last()) + ms.last().1
    }
}

/// The spellings of a word's morphemes, one after another.
pub fn word_pyogi(w: &MaWord) -> (r: Vec<u8>)
    ensures
        r@ == word_pyogi_of(morphs_v(w.morphs@)),
{
    let ghost mv = morphs_v(w.morphs@);
    let mut out: Vec<u8> = Vec::new();
    let mut i: usize = 0;
    proof {
        assert(mv.subrange(0, 0) =~= Seq::<MorphV>::empty());
    }
    while i < w.morphs.len()
        invariant
            i <= w.morphs@.len(),
            mv == morphs_v(w.morphs@),
            out@ == word_pyogi_of(mv.subrange(0, i as int)),
        decreases w.morphs@.len() - i,
    {
        let p = w.morphs[i].pyogi.as_slice();
        let mut j: usize = 0;
        let ghost start = out@;
        while j < p.len()
            invariant
                j <= p@.len(),
                out@ == start + p@.subrange(0, j as int),
            decreases p@.len() - j,
        {
            out.push(p[j]);
            j = j + 1;
            proof {
                assert(out@ =~= start + p@.subrange(0, j as int));
            }
        }
        proof {
            assert(p@.subrange(0, p@.len() as int) =~= p@);
            assert(mv.subrange(0, i + 1).drop_last() =~= mv.subrange(0, i as int));
            assert(mv[i as int] == morph_v(w.morphs@[i as int]));
        }
        i = i + 1;
    }
    proof {
        assert(mv.subrange(0, mv.len() as int) =~= mv);
    }
    out
}

/// Whether a word's spellings together are `s`.
pub fn pyogi_equals(w: &MaWord, s: &[u8]) -> (b: bool)
    ensures
        b == (word_pyogi_of(morphs_v(w.morphs@)) == s@),
{
    let p = word_pyogi(w);
    crate::common::bytes_eq(p.as_slice(), s)
}

/// Whether a word is the one-unit symbol `ch`.
pub fn is_symbol_str(w: &MaWord, ch: u8) -> (b: bool)
    ensures
        b == (w.source@.len() == 1 && w.source@[0] == ch as u16),
{
    w.source.len() == 1 && w.source[0] == ch as u16
}

/// A number that lies in `lo..=hi`.
pub open spec fn reads_between(o: Option<int>, lo: int, hi: int) -> bool {
    match o {
        Some(v) => lo <= v <= hi,
        None => false,
    }
}

/// A number below `hi`.
pub open spec fn reads_below(o: Option<int>, hi: int) -> bool {
    match o {
        Some(v) => v < hi,
        None => false,
    }
}

/// The parenthesised Juche year before a common-era year: `*`, digits, `N`, digits,
/// `O`, `*` from word `i`, the first word spelled `juc9`, the last `nyeN`, the Juche year
/// 1 to 200 and the common-era year 1801 to 3000, 1911 apart.
pub open spec fn juche_nyeon_at(ws: Seq<WordV>, i: int) -> bool {
    &&& 0 <= i
    &&& i + 5 < ws.len()
    &&& pumsa_at(ws, i, seq![0x2Au8, 0x49, 0x4E, 0x49, 0x4F, 0x2A])
    &&& word_pyogi_of(ws[i].1) == seq![0x6Au8, 0x75, 0x63, 0x39]
    &&& word_pyogi_of(ws[i + 5].1) == seq![0x6Eu8, 0x79, 0x65, 0x4E]
    &&& digit_str(ws[i + 1]) matches Some(j) && 1 <= j <= 200
    &&& digit_str(ws[i + 3]) matches Some(y) && 1801 <= y <= 3000
    &&& digit_str(ws[i + 1])->0 + 0x777 == digit_str(ws[i + 3])->0
}

/// Whether a Juche year stands in parentheses after a common-era year at word `n_index`
/// (see `juche_nyeon_at`).
pub fn is_juche_nyeon(klp: &KlpState, n_index: isize) -> (b: bool)
    ensures
        b == juche_nyeon_at(words_v(klp.words@), n_index as int),
{
    if n_index < 0 {
        return false;
    }
    juche_from(klp, n_index as usize)
}

fn juche_from(klp: &KlpState, i: usize) -> (b: bool)
    ensures
        b == juche_nyeon_at(words_v(klp.words@), i as int),
{
    let ghost ws = words_v(klp.words@);
    if i >= klp.words.len() || klp.words.len() - i <= 5 {
        return false;
    }
    let tag: [u8; 6] = [0x2A, 0x49, 0x4E, 0x49, 0x4F, 0x2A];
    let juc: [u8; 4] = [0x6A, 0x75, 0x63, 0x39];
    let nyen: [u8; 4] = [0x6E, 0x79, 0x65, 0x4E];
    proof {
        assert(tag@ =~= seq![0x2Au8, 0x49, 0x4E, 0x49, 0x4F, 0x2A]);
        assert(juc@ =~= seq![0x6Au8, 0x75, 0x63, 0x39]);
        assert(nyen@ =~= seq![0x6Eu8, 0x79, 0x65, 0x4E]);
        assert(ws[i as int] == word_v(klp.words@[i as int]));
        assert(ws[i + 1] == word_v(klp.words@[i + 1]));
        assert(ws[i + 3] == word_v(klp.words@[i + 3]));
        assert(ws[i + 5] == word_v(klp.words@[i + 5]));
    }
    if !is_pumsa_array(&klp.words, i, tag.as_slice()) {
        return false;
    }
    if !pyogi_equals(&klp.words[i], juc.as_slice()) || !pyogi_equals(&klp.words[i + 5], nyen.as_slice()) {
        return false;
    }
    let j = match is_juche_year_str(&klp.words[i + 1]) {
        Some(j) => j,
        None => {
            return false;
        },
    };
    let y = match is_year_str(&klp.words[i + 3]) {
        Some(y) => y,
        None => {
            return false;
        },
    };
    j + 0x777 == y
}

/// Whether the words from `n_index` are a year in parentheses: `N`, year, `O`.
pub fn is_year_parentheses(klp: &KlpState, n_index: isize) -> (b: bool)
    ensures
        b == (0 <= n_index && n_index + 2 < klp.words@.len() && pumsa_at(
            words_v(klp.words@),
            n_index as int,
            seq![0x4Eu8, 0x49, 0x4F],
        ) && reads_between(digit_str(words_v(klp.words@)[n_index + 1]), 1801, 3000)),
{
    if n_index < 0 {
        return false;
    }
    year_paren_from(klp, n_index as usize)
}

fn year_paren_from(klp: &KlpState, i: usize) -> (b: bool)
    ensures
        b == year_paren_at(words_v(klp.words@), i as int),
{
    let ghost ws = words_v(klp.words@);
    if i >= klp.words.len() || klp.words.len() - i <= 2 {
        return false;
    }
    let tag: [u8; 3] = [0x4E, 0x49, 0x4F];
    proof {
        assert(tag@ =~= seq![0x4Eu8, 0x49, 0x4F]);
        assert(ws[i + 1] == word_v(klp.words@[i + 1]));
    }
    is_pumsa_array(&klp.words, i, tag.as_slice()) && is_year_str(&klp.words[i + 1]).is_some()
}

/// Whether the words from `n_index` are a small number before parentheses: `N`, `I`,
/// `O`, the first word reading as a number under 100.
pub fn is_double_parentheses(klp: &KlpState, n_index: isize) -> (b: bool)
    ensures
        b == (0 <= n_index && n_index + 2 < klp.words@.len() && pumsa_at(
            words_v(klp.words@),
            n_index as int,
            seq![0x4Eu8, 0x49, 0x4F],
        ) && reads_below(digit_str(words_v(klp.words@)[n_index as int]), 100)),
{
    if n_index < 0 {
        return false;
    }
    double_paren_from(klp, n_index as usize)
}

fn double_paren_from(klp: &KlpState, i: usize) -> (b: bool)
    ensures
        b == double_paren_at(words_v(klp.words@), i as int),
{
    let ghost ws = words_v(klp.words@);
    if i >= klp.words.len() || klp.words.len() - i <= 2 {
        return false;
    }
    let tag: [u8; 3] = [0x4E, 0x49, 0x4F];
    proof {
        assert(tag@ =~= seq![0x4Eu8, 0x49, 0x4F]);
        assert(ws[i as int] == word_v(klp.words@[i as int]));
    }
    is_pumsa_array(&klp.words, i, tag.as_slice()) && is_digit_value(&klp.words[i]).is_some()
}

/// Whether the words from `n_index` are a small number and a closing parenthesis: `I`,
/// `O`, the first reading as a number under 100.
pub fn is_parentheses(klp: &KlpState, n_index: isize) -> (b: bool)
    ensures
        b == (0 <= n_index && n_index + 1 < klp.words@.len() && pumsa_at(
            words_v(klp.words@),
            n_index as int,
            seq![0x49u8, 0x4F],
        ) && reads_below(digit_str(words_v(klp.words@)[n_index as int]), 100)),
{
    if n_index < 0 {
        return false;
    }
    parens_from(klp, n_index as usize)
}

fn parens_from(klp: &KlpState, i: usize) -> (b: bool)
    ensures
        b == parens_at(words_v(klp.words@), i as int),
{
    let ghost ws = words_v(klp.words@);
    if i >= klp.words.len() || klp.words.len() - i <= 1 {
        return false;
    }
    let tag: [u8; 2] = [0x49, 0x4F];
    proof {
        assert(tag@ =~= seq![0x49u8, 0x4F]);
        assert(ws[i as int] == word_v(klp.words@[i as int]));
    }
    is_pumsa_array(&klp.words, i, tag.as_slice()) && is_digit_value(&klp.words[i]).is_some()
}

/// Every jamo triple of `c` is one a syllable can be made of.
pub open spec fn triples_ok(c: Seq<u8>) -> bool {
    forall|i: int| 0 <= i < c.len() / 3 ==> #[trigger] triple_ok(c[3 * i], c[3 * i + 1], c[3 * i + 2])
}

/// The word's spelling written back as Hangul syllables.
pub open spec fn word_wan(w: WordV) -> Seq<u16> {
    cvc_wan(pyogi_cvc(word_pyogi_of(w.1)))
}

/// What the pass that writes words back as Hangul keeps of a word: a bound word as it
/// is; a word of a string type other than 0 with its spelling written back as its source
/// (where that gives any syllable); a plain word tagged `J` as it is; nothing else.
pub open spec fn wansong_word(w: WordV) -> Option<WordV> {
    if is_bound_tag(first_tag(w)) {
        Some(w)
    } else if w.2 != 0 {
        if word_wan(w).len() > 0 {
            Some((word_wan(w), w.1, w.2, w.3, w.4))
        } else {
            Some(w)
        }
    } else if first_tag(w) == Some(0x4Au8) {
        Some(w)
    } else {
        None
    }
}

/// The words the pass keeps, in order.
pub open spec fn wansong(ws: Seq<WordV>) -> Seq<WordV>
    decreases ws.len(),
{
    if ws.len() == 0 {
        ws
    } else {
        match wansong_word(ws.last()) {
            Some(w) => wansong(ws.drop_last()).push(w),
            None => wansong(ws.drop_last()),
        }
    }
}

/// The words whose spelling the pass writes back have triples that make syllables.
pub open spec fn wansong_defined(ws: Seq<WordV>) -> bool {
    forall|i: int|
        0 <= i < ws.len() && !is_bound_tag(first_tag(ws[i])) && ws[i].2 != 0 ==> triples_ok(
            pyogi_cvc(word_pyogi_of(#[trigger] ws[i].1)),
        )
}

/// Writes the words' spellings back as Hangul and drops the words the analysis has no
/// use for (see `wansong`).
pub fn process_pyogi_to_wansong(klp: &mut KlpState)
    requires
        wansong_defined(words_v(old(klp).words@)),
    ensures
        same_state(*final(klp), *old(klp)),
        words_v(final(klp).words@) == wansong(words_v(old(klp).words@)),
{
    let ghost ws = words_v(klp.words@);
    let mut out: Vec<MaWord> = Vec::new();
    let mut i: usize = 0;
    proof {
        assert(ws.subrange(0, 0) =~= Seq::<WordV>::empty());
    }
    while i < klp.words.len()
        invariant
            i <= klp.words@.len(),
            ws == words_v(klp.words@),
            klp.words@ == old(klp).words@,
            same_state(*klp, *old(klp)),
            wansong_defined(ws),
            words_v(out@) == wansong(ws.subrange(0, i as int)),
        decreases klp.words@.len() - i,
    {
        let ghost w = ws[i as int];
        proof {
            assert(w == word_v(klp.words@[i as int]));
            assert(ws.subrange(0, i + 1).drop_last() =~= ws.subrange(0, i as int));
            assert(ws.subrange(0, i + 1).last() == w);
        }
        let t = first_tag_exec(&klp.words[i]);
        let bound = t == Some(0x6Bu8) || t == Some(0x4Cu8) || t == Some(0x4Du8);
        let ghost before = out@;
        if bound {
            out.push(copy_word(&klp.words[i]));
            proof {
                assert(words_v(out@) =~= words_v(before).push(w));
            }
        } else if klp.words[i].b_str_type != 0 {
            let src = word_pyogi(&klp.words[i]);
            let cvc = conv_pyogi_to_cvc(src.as_slice());
            proof {
                assert(triples_ok(pyogi_cvc(word_pyogi_of(ws[i as int].1))));
            }
            let wan = conv_cvc_to_uni_wan(cvc.as_slice());
            let mut c = copy_word(&klp.words[i]);
            if wan.len() > 0 {
                c.source = wan;
            }
            out.push(c);
            proof {
                assert(words_v(out@) =~= words_v(before).push(wansong_word(w)->0));
            }
        } else if t == Some(0x4Au8) {
            out.push(copy_word(&klp.words[i]));
            proof {
                assert(words_v(out@) =~= words_v(before).push(w));
            }
        }
        i = i + 1;
    }
    proof {
        assert(ws.subrange(0, ws.len() as int) =~= ws);
    }
    klp.words = out;
}

/// A word ending in a sentence mark whose last morpheme (`L` or `M`) has no ordinals
/// gets the mark as its ordinal, and, unless the mark is a comma, an empty `L` morpheme
/// after it.
pub open spec fn trailing_symbol(w: WordV) -> WordV {
    if w.0.len() > 0 && is_sen_mark(w.0.last()) && w.1.len() > 0 && (w.1.last().0 == 0x4C || w.1.last().0 == 0x4D)
        && w.1.last().2.len() == 0 {
        let ch = w.0.last();
        let lm = w.1.last();
        let ms = w.1.update(w.1.len() - 1, (lm.0, lm.1, seq![ch as u8], lm.3, lm.4));
        let ms2 = if ch != 0x2C {
            ms.push((0x4Cu8, Seq::<u8>::empty(), Seq::<u8>::empty(), 0u64, false))
        } else {
            ms
        };
        (w.0, ms2, w.2, w.3, w.4)
    } else {
        w
    }
}

/// Gives each word's closing sentence mark its ordinal (see `trailing_symbol`).
pub fn set_trailing_symbol_cvc(klp: &mut KlpState)
    ensures
        same_state(*final(klp), *old(klp)),
        words_v(final(klp).words@) == words_v(old(klp).words@).map_values(|w: WordV| trailing_symbol(w)),
{
    let ghost ws = words_v(klp.words@);
    let mut out: Vec<MaWord> = Vec::new();
    let mut i: usize = 0;
    while i < klp.words.len()
        invariant
            i <= klp.words@.len(),
            ws == words_v(klp.words@),
            klp.words@ == old(klp).words@,
            same_state(*klp, *old(klp)),
            words_v(out@) == ws.subrange(0, i as int).map_values(|w: WordV| trailing_symbol(w)),
        decreases klp.words@.len() - i,
    {
        let ghost w = ws[i as int];
        proof {
            assert(w == word_v(klp.words@[i as int]));
        }
        let mut c = copy_word(&klp.words[i]);
        let n = c.source.len();
        let m = c.morphs.len();
        if n > 0 && crate::tables::is_sen_symbol(c.source[n - 1]) && m > 0 {
            let tag = c.morphs[m - 1].ch_tag;
            if (tag == 0x4C || tag == 0x4D) && c.morphs[m - 1].cvc.len() == 0 {
                let ch = c.source[n - 1];
                let mut lm = c.morphs.remove(m - 1);
                let mut v: Vec<u8> = Vec::new();
                v.push(#[verifier::truncate] (ch as u8));
                lm.cvc = v;
                c.morphs.push(lm);
                if ch != 0x2C {
                    c.morphs.push(MaMorph { ch_tag: 0x4C, pyogi: Vec::new(), cvc: Vec::new(), prob: 0, b_merged: false });
                }
                proof {
                    assert(word_v(c) =~~= trailing_symbol(w));
                }
            }
        }
        let ghost before = out@;
        out.push(c);
        i = i + 1;
        proof {
            assert(word_v(c) == trailing_symbol(w));
            assert(words_v(out@) =~= words_v(before).push(trailing_symbol(w)));
            assert(words_v(out@) =~= ws.subrange(0, i as int).map_values(|w: WordV| trailing_symbol(w)));
        }
    }
    proof {
        assert(ws.subrange(0, ws.len() as int) =~= ws);
    }
    klp.words = out;
}

/// The word that `insert_anal` puts in: the ASCII text `text` as source and as the one
/// morpheme's spelling, tagged `tag`, string type 3.
pub open spec fn inserted(text: Seq<u8>, tag: u8) -> WordV {
    (widen(text), seq![(tag, text, morph_cvc(text), 0u64, false)], 3u8, Seq::<IrrV>::empty(), false)
}

/// Puts the word for the ASCII text `text` (see `inserted`) in at `n_index`.
pub fn insert_anal(klp: &mut KlpState, n_index: usize, text: &[u8], tag: u8)
    requires
        n_index <= old(klp).words@.len(),
    ensures
        same_state(*final(klp), *old(klp)),
        words_v(final(klp).words@) == words_v(old(klp).words@).insert(n_index as int, inserted(text@, tag)),
{
    let ghost ws = words_v(klp.words@);
    let c = conv_pyogi_to_cvc(text);
    let cvc = if c.len() == 0 {
        crate::common::copy_range(text, 0, text.len())
    } else {
        c
    };
    let pyogi = crate::common::copy_range(text, 0, text.len());
    proof {
        assert(text@.subrange(0, text@.len() as int) =~= text@);
    }
    let mut src: Vec<u16> = Vec::new();
    let mut i: usize = 0;
    while i < text.len()
        invariant
            i <= text@.len(),
            src@ == widen(text@.subrange(0, i as int)),
        decreases text@.len() - i,
    {
        src.push(text[i] as u16);
        i = i + 1;
        proof {
            assert(src@ =~= widen(text@.subrange(0, i as int)));
        }
    }
    let mut morphs: Vec<MaMorph> = Vec::new();
    morphs.push(MaMorph { ch_tag: tag, pyogi, cvc, prob: 0, b_merged: false });
    let w = MaWord { source: src, morphs, b_str_type: 3, ireguler: Vec::new(), b_sentence_end: false };
    proof {
        assert(morphs_v(w.morphs@) =~= seq![(tag, text@, morph_cvc(text@), 0u64, false)]);
        assert(irrs_v(w.ireguler@) =~= Seq::<IrrV>::empty());
        assert(word_v(w) =~~= inserted(text@, tag));
    }
    klp.words.insert(n_index, w);
    proof {
        assert(words_v(klp.words@) =~= ws.insert(n_index as int, inserted(text@, tag)));
    }
}

/// How many words from `k` on close a parenthesis (tag `O`).
pub open spec fn count_o(ws: Seq<WordV>, k: int) -> int
    decreases ws.len() - k,
{
    if k < 0 || k >= ws.len() {
        0
    } else {
        (if first_tag(ws[k]) == Some(0x4Fu8) { 1int } else { 0int }) + count_o(ws, k + 1)
    }
}

/// The first word from `k` on that closes a parenthesis, or the list's length.
pub open spec fn first_o(ws: Seq<WordV>, k: int) -> int
    decreases ws.len() - k,
{
    if k < 0 || k >= ws.len() {
        ws.len() as int
    } else if first_tag(ws[k]) == Some(0x4Fu8) {
        k
    } else {
        first_o(ws, k + 1)
    }
}

/// The last word from `p` down to `lo` that opens a parenthesis (tag `N`).
pub open spec fn find_open(ws: Seq<WordV>, p: int, lo: int) -> Option<int>
    decreases p + 1 - lo,
{
    if p < lo || p < 0 || p >= ws.len() {
        None
    } else if first_tag(ws[p]) == Some(0x4Eu8) {
        Some(p)
    } else {
        find_open(ws, p - 1, lo)
    }
}

pub proof fn lemma_count_o_nonneg(ws: Seq<WordV>, k: int)
    ensures
        count_o(ws, k) >= 0,
        count_o(ws, k + 1) <= count_o(ws, k) || k < 0,
    decreases ws.len() - k,
{
    if 0 <= k < ws.len() {
        lemma_count_o_nonneg(ws, k + 1);
    }
}

pub proof fn lemma_count_o_suffix(s: Seq<WordV>, i: int, t: Seq<WordV>, j: int)
    requires
        0 <= i <= s.len(),
        0 <= j <= t.len(),
        s.subrange(i, s.len() as int) == t.subrange(j, t.len() as int),
    ensures
        count_o(s, i) == count_o(t, j),
    decreases s.len() - i,
{
    assert(s.subrange(i, s.len() as int).len() == s.len() - i);
    assert(t.subrange(j, t.len() as int).len() == t.len() - j);
    if i < s.len() {
        assert(s[i] == s.subrange(i, s.len() as int)[0]);
        assert(t[j] == t.subrange(j, t.len() as int)[0]);
        assert(s.subrange(i + 1, s.len() as int) =~= s.subrange(i, s.len() as int).subrange(1, s.len() - i));
        assert(t.subrange(j + 1, t.len() as int) =~= t.subrange(j, t.len() as int).subrange(1, t.len() - j));
        lemma_count_o_suffix(s, i + 1, t, j + 1);
    }
}

pub proof fn lemma_first_o(ws: Seq<WordV>, k: int)
    requires
        0 <= k,
    ensures
        k <= first_o(ws, k) <= ws.len() || k > ws.len(),
        first_o(ws, k) < ws.len() ==> first_tag(ws[first_o(ws, k)]) == Some(0x4Fu8) && count_o(ws, k) == 1 + count_o(
            ws,
            first_o(ws, k) + 1,
        ),
    decreases ws.len() - k,
{
    if k < ws.len() && first_tag(ws[k]) != Some(0x4Fu8) {
        lemma_first_o(ws, k + 1);
    }
}

pub proof fn lemma_find_open(ws: Seq<WordV>, p: int, lo: int)
    ensures
        find_open(ws, p, lo) matches Some(q) ==> lo <= q <= p && 0 <= q < ws.len() && first_tag(ws[q]) == Some(0x4Eu8),
    decreases p + 1 - lo,
{
    if !(p < lo || p < 0 || p >= ws.len()) && first_tag(ws[p]) != Some(0x4Eu8) {
        lemma_find_open(ws, p - 1, lo);
    }
}

pub proof fn lemma_count_o_edits(ws: Seq<WordV>, n00: int, n01: int, c1: WordV, c2: WordV, x: WordV)
    requires
        0 <= n00 < n01 < ws.len(),
        first_tag(c2) != Some(0x4Fu8),
    ensures
        count_o(ws.remove(n01), n01) == count_o(ws, n01 + 1),
        count_o(ws.update(n01, c2).insert(n01 - 1, x), n01 + 1) == count_o(ws, n01 + 1),
        count_o(ws.remove(n01).update(n00, c1), n01 + 1) <= count_o(ws, n01 + 1),
        count_o(ws.update(n00, c1).update(n01, c2), n01 + 1) == count_o(ws, n01 + 1),
        count_o(ws.subrange(0, n00) + ws.subrange(n01 + 1, ws.len() as int), n00) == count_o(ws, n01 + 1),
        count_o(ws.update(n00, c1).remove(n01), n01) == count_o(ws, n01 + 1),
        count_o(ws, n01 + 1) >= 0,
        count_o(ws.remove(n01).update(n00, c1), n01 + 1) >= 0,
{
    let n = ws.len() as int;
    let a = ws.remove(n01);
    assert(a.subrange(n01, a.len() as int) =~= ws.subrange(n01 + 1, n));
    lemma_count_o_suffix(a, n01, ws, n01 + 1);
    let b = ws.update(n01, c2).insert(n01 - 1, x);
    assert(b[n01 + 1] == c2);
    assert(b.subrange(n01 + 2, b.len() as int) =~= ws.subrange(n01 + 1, n));
    lemma_count_o_suffix(b, n01 + 2, ws, n01 + 1);
    assert(count_o(b, n01 + 1) == count_o(b, n01 + 2));
    let c = ws.remove(n01).update(n00, c1);
    lemma_count_o_nonneg(ws, n01 + 1);
    lemma_count_o_nonneg(ws, n01 + 2);
    lemma_count_o_nonneg(c, n01 + 1);
    if n01 + 2 <= n {
        assert(c.subrange(n01 + 1, c.len() as int) =~= ws.subrange(n01 + 2, n));
        lemma_count_o_suffix(c, n01 + 1, ws, n01 + 2);
    } else {
        assert(count_o(c, n01 + 1) == 0);
    }
    let d = ws.update(n00, c1).update(n01, c2);
    assert(d.subrange(n01 + 1, n) =~= ws.subrange(n01 + 1, n));
    lemma_count_o_suffix(d, n01 + 1, ws, n01 + 1);
    let e = ws.subrange(0, n00) + ws.subrange(n01 + 1, n);
    assert(e.subrange(n00, e.len() as int) =~= ws.subrange(n01 + 1, n));
    lemma_count_o_suffix(e, n00, ws, n01 + 1);
    let f = ws.update(n00, c1).remove(n01);
    assert(f.subrange(n01, f.len() as int) =~= ws.subrange(n01 + 1, n));
    lemma_count_o_suffix(f, n01, ws, n01 + 1);
}

/// A small number and a closing parenthesis from word `i`.
pub open spec fn parens_at(ws: Seq<WordV>, i: int) -> bool {
    0 <= i && i + 1 < ws.len() && pumsa_at(ws, i, seq![0x49u8, 0x4F]) && reads_below(digit_str(ws[i]), 100)
}

/// A year in parentheses from word `i`.
pub open spec fn year_paren_at(ws: Seq<WordV>, i: int) -> bool {
    0 <= i && i + 2 < ws.len() && pumsa_at(ws, i, seq![0x4Eu8, 0x49, 0x4F]) && reads_between(
        digit_str(ws[i + 1]),
        1801,
        3000,
    )
}

/// A small number in parentheses from word `i`, read from the opening word.
pub open spec fn double_paren_at(ws: Seq<WordV>, i: int) -> bool {
    0 <= i && i + 2 < ws.len() && pumsa_at(ws, i, seq![0x4Eu8, 0x49, 0x4F]) && reads_below(digit_str(ws[i]), 100)
}

pub open spec fn text_comma() -> Seq<u8> {
    seq![0x2Cu8]
}

pub open spec fn text_space() -> Seq<u8> {
    seq![0x20u8]
}

/// "baNgwaLho", the reading of a closing parenthesis.
pub open spec fn text_bracket_close() -> Seq<u8> {
    seq![0x62u8, 0x61, 0x4E, 0x67, 0x77, 0x61, 0x4C, 0x68, 0x6F]
}

/// "va*gwaLho", the reading of a number in parentheses.
pub open spec fn text_bracket_num() -> Seq<u8> {
    seq![0x76u8, 0x61, 0x2A, 0x67, 0x77, 0x61, 0x4C, 0x68, 0x6F]
}

/// Handling the parentheses from word `l20` on, one closing parenthesis at a time: a
/// parenthesised Juche year, year or small number is read as such, a parenthesis before
/// a space or at the ends of the list is dropped or kept as a separator, other
/// parenthesised text is dropped, and a closing parenthesis with no opening one is read
/// or dropped.
pub open spec fn repeat_from(ws: Seq<WordV>, l20: int) -> Seq<WordV>
    decreases count_o(ws, l20),
{
    if l20 < 0 || ws.len() <= l20 {
        ws
    } else {
        let n01 = first_o(ws, l20);
        proof {
            lemma_first_o(ws, l20);
        }
        if n01 >= ws.len() {
            ws
        } else {
            let ni = n01 - 1;
            let open = if ni < l20 {
                None
            } else {
                find_open(ws, ni, l20)
            };
            proof {
                lemma_find_open(ws, ni, l20);
            }
            match open {
                None => {
                    if parens_at(ws, ni) {
                        let c = converted(ws[n01], text_comma(), 0x4D);
                        proof {
                            lemma_count_o_edits(ws, ni, n01, c, c, inserted(text_bracket_close(), 0x30));
                        }
                        repeat_from(ws.update(n01, c).insert(ni, inserted(text_bracket_close(), 0x30)), n01 + 1)
                    } else {
                        proof {
                            let a = ws.remove(n01);
                            assert(a.subrange(n01, a.len() as int) =~= ws.subrange(n01 + 1, ws.len() as int));
                            lemma_count_o_suffix(a, n01, ws, n01 + 1);
                            lemma_count_o_nonneg(a, n01);
                        }
                        repeat_from(ws.remove(n01), n01)
                    }
                },
                Some(n00) => {
                    let cs = converted(ws[n00], text_space(), 0x6B);
                    let cc = converted(ws[n00], text_comma(), 0x4D);
                    let cn = converted(ws[n00], text_bracket_num(), 0x30);
                    let c1 = converted(ws[n01], text_comma(), 0x4D);
                    proof {
                        lemma_count_o_edits(ws, n00, n01, cs, c1, cs);
                        lemma_count_o_edits(ws, n00, n01, cc, c1, cs);
                        lemma_count_o_edits(ws, n00, n01, cn, c1, cs);
                    }
                    if word_pyogi_of(ws[n01].1) == seq![0x29u8] && word_pyogi_of(ws[n00].1) == seq![0x28u8] {
                        if juche_nyeon_at(ws, n00 - 2) {
                            repeat_from(ws.remove(n01).update(n00, cc), n01 + 1)
                        } else if n01 - n00 == 2 && year_paren_at(ws, n00) {
                            repeat_from(ws.remove(n01).update(n00, cs), n01 + 1)
                        } else if n01 - n00 == 2 && double_paren_at(ws, n00) {
                            repeat_from(ws.update(n00, cn).update(n01, c1), n01 + 1)
                        } else if n00 > 0 && n01 + 1 < ws.len() {
                            if first_tag(ws[n01 + 1]) == Some(0x6Bu8) {
                                repeat_from(ws.remove(n01).update(n00, cc), n01 + 1)
                            } else {
                                repeat_from(ws.subrange(0, n00) + ws.subrange(n01 + 1, ws.len() as int), n00)
                            }
                        } else {
                            repeat_from(ws.update(n00, cs).remove(n01), n01)
                        }
                    } else {
                        repeat_from(ws.update(n00, cs).remove(n01), n01)
                    }
                },
            }
        }
    }
}

/// Word `i` turned into the ASCII text `text` with tag `tag` (see `converted`).
fn convert_word_at(klp: &mut KlpState, i: usize, text: &[u8], tag: u8)
    requires
        i < old(klp).words@.len(),
    ensures
        same_state(*final(klp), *old(klp)),
        words_v(final(klp).words@) == words_v(old(klp).words@).update(
            i as int,
            converted(words_v(old(klp).words@)[i as int], text@, tag),
        ),
{
    let ghost ws = words_v(klp.words@);
    let mut w = klp.words.remove(i);
    proof {
        assert(word_v(w) == ws[i as int]);
    }
    convert_anal(&mut w, text, tag);
    klp.words.insert(i, w);
    proof {
        assert(words_v(klp.words@) =~= ws.update(i as int, converted(ws[i as int], text@, tag)));
    }
}

/// Words `a..b` taken out.
fn remove_words(klp: &mut KlpState, a: usize, b: usize)
    requires
        a < b <= old(klp).words@.len(),
    ensures
        same_state(*final(klp), *old(klp)),
        words_v(final(klp).words@) == words_v(old(klp).words@).subrange(0, a as int) + words_v(
            old(klp).words@,
        ).subrange(b as int, old(klp).words@.len() as int),
{
    let ghost ws = klp.words@;
    remove_anal(klp, a, b - a);
    proof {
        assert(words_v(klp.words@) =~= words_v(ws).subrange(0, a as int) + words_v(ws).subrange(
            b as int,
            ws.len() as int,
        ));
    }
}

/// The first word from `k` on that closes a parenthesis, or the list's length.
fn first_o_exec(klp: &KlpState, k: usize) -> (r: usize)
    requires
        k <= klp.words@.len(),
    ensures
        r == first_o(words_v(klp.words@), k as int),
{
    let ghost ws = words_v(klp.words@);
    let mut i: usize = k;
    while i < klp.words.len()
        invariant
            k <= i <= klp.words@.len(),
            ws == words_v(klp.words@),
            first_o(ws, k as int) == first_o(ws, i as int),
        decreases klp.words@.len() - i,
    {
        proof {
            assert(ws[i as int] == word_v(klp.words@[i as int]));
        }
        if first_tag_exec(&klp.words[i]) == Some(0x4Fu8) {
            return i;
        }
        i = i + 1;
    }
    i
}

/// The last word from `p` down to `lo` that opens a parenthesis (see `find_open`).
fn find_open_exec(klp: &KlpState, p: usize, lo: usize) -> (r: Option<usize>)
    requires
        lo <= p < klp.words@.len(),
    ensures
        match r {
            Some(q) => find_open(words_v(klp.words@), p as int, lo as int) == Some(q as int),
            None => find_open(words_v(klp.words@), p as int, lo as int) is None,
        },
{
    let ghost ws = words_v(klp.words@);
    let mut q: usize = p;
    loop
        invariant
            lo <= q <= p < klp.words@.len(),
            ws == words_v(klp.words@),
            find_open(ws, q as int, lo as int) == find_open(ws, p as int, lo as int),
        decreases q,
    {
        proof {
            assert(ws[q as int] == word_v(klp.words@[q as int]));
        }
        if first_tag_exec(&klp.words[q]) == Some(0x4Eu8) {
            return Some(q);
        }
        if q == lo {
            return None;
        }
        q = q - 1;
    }
}

/// Reads the parentheses of the list (see `repeat_from`): a Juche year, a year or a small
/// number in parentheses is read as such, other parenthesised text is dropped or set off.
pub fn process_ma_repeat(klp: &mut KlpState)
    ensures
        same_state(*final(klp), *old(klp)),
        words_v(final(klp).words@) == repeat_from(words_v(old(klp).words@), 0),
{
    let comma: [u8; 1] = [0x2C];
    let space: [u8; 1] = [0x20];
    let close: [u8; 9] = [0x62, 0x61, 0x4E, 0x67, 0x77, 0x61, 0x4C, 0x68, 0x6F];
    let num: [u8; 9] = [0x76, 0x61, 0x2A, 0x67, 0x77, 0x61, 0x4C, 0x68, 0x6F];
    let lparen: [u8; 1] = [0x28];
    let rparen: [u8; 1] = [0x29];
    proof {
        assert(comma@ =~= text_comma());
        assert(space@ =~= text_space());
        assert(close@ =~= text_bracket_close());
        assert(num@ =~= text_bracket_num());
        assert(lparen@ =~= seq![0x28u8]);
        assert(rparen@ =~= seq![0x29u8]);
    }
    let mut l20: usize = 0;
    while l20 < klp.words.len()
        invariant
            comma@ == text_comma(),
            space@ == text_space(),
            close@ == text_bracket_close(),
            num@ == text_bracket_num(),
            lparen@ == seq![0x28u8],
            rparen@ == seq![0x29u8],
            same_state(*klp, *old(klp)),
            repeat_from(words_v(klp.words@), l20 as int) == repeat_from(words_v(old(klp).words@), 0),
        decreases count_o(words_v(klp.words@), l20 as int),
    {
        let ghost ws = words_v(klp.words@);
        proof {
            lemma_first_o(ws, l20 as int);
        }
        let n01 = first_o_exec(klp, l20);
        if n01 >= klp.words.len() {
            return;
        }
        let open = if n01 == 0 || n01 - 1 < l20 {
            None
        } else {
            find_open_exec(klp, n01 - 1, l20)
        };
        proof {
            lemma_find_open(ws, n01 - 1, l20 as int);
            assert(ws[n01 as int] == word_v(klp.words@[n01 as int]));
        }
        match open {
            None => {
                if n01 > 0 && parens_from(klp, n01 - 1) {
                    proof {
                        lemma_count_o_edits(
                            ws,
                            n01 - 1,
                            n01 as int,
                            converted(ws[n01 as int], text_comma(), 0x4D),
                            converted(ws[n01 as int], text_comma(), 0x4D),
                            inserted(text_bracket_close(), 0x30),
                        );
                    }
                    convert_word_at(klp, n01, comma.as_slice(), 0x4D);
                    insert_anal(klp, n01 - 1, close.as_slice(), 0x30);
                    l20 = n01 + 1;
                } else {
                    proof {
                        let a = ws.remove(n01 as int);
                        assert(a.subrange(n01 as int, a.len() as int) =~= ws.subrange(n01 + 1, ws.len() as int));
                        lemma_count_o_suffix(a, n01 as int, ws, n01 + 1);
                        lemma_count_o_nonneg(a, n01 as int);
                    }
                    remove_word(klp, n01);
                    l20 = n01;
                }
            },
            Some(n00) => {
                let ghost cs = converted(ws[n00 as int], text_space(), 0x6B);
                let ghost cc = converted(ws[n00 as int], text_comma(), 0x4D);
                let ghost cn = converted(ws[n00 as int], text_bracket_num(), 0x30);
                let ghost c1 = converted(ws[n01 as int], text_comma(), 0x4D);
                proof {
                    lemma_count_o_edits(ws, n00 as int, n01 as int, cs, c1, cs);
                    lemma_count_o_edits(ws, n00 as int, n01 as int, cc, c1, cs);
                    lemma_count_o_edits(ws, n00 as int, n01 as int, cn, c1, cs);
                    assert(ws[n00 as int] == word_v(klp.words@[n00 as int]));
                }
                if pyogi_equals(&klp.words[n01], rparen.as_slice()) && pyogi_equals(
                    &klp.words[n00],
                    lparen.as_slice(),
                ) {
                    if n00 >= 2 && juche_from(klp, n00 - 2) {
                        remove_word(klp, n01);
                        convert_word_at(klp, n00, comma.as_slice(), 0x4D);
                        l20 = n01 + 1;
                    } else if n01 - n00 == 2 && year_paren_from(klp, n00) {
                        remove_word(klp, n01);
                        convert_word_at(klp, n00, space.as_slice(), 0x6B);
                        l20 = n01 + 1;
                    } else if n01 - n00 == 2 && double_paren_from(klp, n00) {
                        convert_word_at(klp, n00, num.as_slice(), 0x30);
                        convert_word_at(klp, n01, comma.as_slice(), 0x4D);
                        l20 = n01 + 1;
                    } else if n00 > 0 && n01 + 1 < klp.words.len() {
                        proof {
                            assert(ws[n01 + 1] == word_v(klp.words@[n01 + 1]));
                        }
                        if first_tag_exec(&klp.words[n01 + 1]) == Some(0x6Bu8) {
                            remove_word(klp, n01);
                            convert_word_at(klp, n00, comma.as_slice(), 0x4D);
                            l20 = n01 + 1;
                        } else {
                            remove_words(klp, n00, n01 + 1);
                            l20 = n00;
                        }
                    } else {
                        convert_word_at(klp, n00, space.as_slice(), 0x6B);
                        remove_word(klp, n01);
                        l20 = n01;
                    }
                } else {
                    convert_word_at(klp, n00, space.as_slice(), 0x6B);
                    remove_word(klp, n01);
                    l20 = n01;
                }
            },
        }
    }
}

/// No separator word (tag `M`) is followed by a word of exactly three source units.
pub open spec fn no_three_unit_group(ws: Seq<WordV>) -> bool {
    forall|k: int| 0 <= k < ws.len() - 1 && first_tag(#[trigger] ws[k]) == Some(0x4Du8) ==> ws[k + 1].0.len() != 3
}

proof fn lemma_sep_unchanged(ws: Seq<WordV>, i5: int)
    requires
        no_three_unit_group(ws),
    ensures
        sep_from(ws, i5) == ws,
    decreases ws.len() - i5,
{
    if i5 < 0 || ws.len() <= i5 + 2 {
    } else if ws[i5].2 != 0 || ws[i5].0.len() > 3 {
        lemma_sep_unchanged(ws, i5 + 1);
    } else if !pumsa_at(ws, i5, seq![0x49u8, 0x4D, 0x49]) || (i5 > 0 && first_tag(ws[i5 - 1]) == Some(0x4Du8)) {
        lemma_sep_unchanged(ws, i5 + 1);
    } else {
        let n_index = i5 + 1;
        assert(first_tag(ws[n_index]) == Some(0x4Du8)) by {
            assert(first_tag(ws[i5 + 1]) == Some(0x4Du8));
        }
        assert(ws[n_index + 1].0.len() != 3);
        assert(group_count(ws, n_index) == 0);
        lemma_sep_unchanged(ws, n_index);
    }
}

/// Law: digit groups are joined only across a separator followed by a word of exactly
/// three units, so a word list in which no separator is followed by a three-unit word
/// (such as `1`, `,`, `2`) comes out unchanged.
pub proof fn law_digit_groups_need_three(ws: Seq<WordV>)
    requires
        no_three_unit_group(ws),
    ensures
        digit_seperate(ws) == ws,
{
    if ws.len() >= 3 {
        lemma_sep_unchanged(ws, 0);
    }
}

/// Law: every pair counted as a digit group is a plain separator word (tag `M`, string
/// type 0) followed by a digit word (tag `I`) of exactly three source units.
pub proof fn law_group_members(ws: Seq<WordV>, i4: int, k: int)
    requires
        0 <= i4,
        0 <= k < group_count(ws, i4),
    ensures
        i4 + 2 * k + 1 < ws.len(),
        first_tag(ws[i4 + 2 * k]) == Some(0x4Du8),
        ws[i4 + 2 * k].2 == 0,
        first_tag(ws[i4 + 2 * k + 1]) == Some(0x49u8),
        ws[i4 + 2 * k + 1].0.len() == 3,
    decreases k,
{
    assert(pumsa_at(ws, i4, seq![0x4Du8, 0x49]));
    assert(first_tag(ws[i4 + 0]) == Some(0x4Du8));
    assert(first_tag(ws[i4 + 1]) == Some(0x49u8));
    if k > 0 {
        law_group_members(ws, i4 + 2, k - 1);
        assert(i4 + 2 + 2 * (k - 1) == i4 + 2 * k);
    }
}

/// Word `k` is a separator (tag `M`) that no word of exactly three source units follows.
pub open spec fn lone_sep(ws: Seq<WordV>, k: int) -> bool {
    &&& 0 <= k < ws.len()
    &&& first_tag(ws[k]) == Some(0x4Du8)
    &&& (k + 1 >= ws.len() || ws[k + 1].0.len() != 3)
}

/// The word after word `k`, if any.
pub open spec fn follower(ws: Seq<WordV>, k: int) -> Option<WordV> {
    if 0 <= k + 1 < ws.len() {
        Some(ws[k + 1])
    } else {
        None
    }
}

/// The separators from word `k` on that no three-unit word follows, in order, each with
/// the word after it.
pub open spec fn lone_seps(ws: Seq<WordV>, k: int) -> Seq<(WordV, Option<WordV>)>
    decreases ws.len() - k,
{
    if k < 0 || k >= ws.len() {
        Seq::empty()
    } else {
        (if lone_sep(ws, k) {
            seq![(ws[k], follower(ws, k))]
        } else {
            Seq::empty()
        }) + lone_seps(ws, k + 1)
    }
}

proof fn lemma_lone_suffix(s: Seq<WordV>, i: int, t: Seq<WordV>, j: int)
    requires
        0 <= i <= s.len(),
        0 <= j <= t.len(),
        s.subrange(i, s.len() as int) == t.subrange(j, t.len() as int),
    ensures
        lone_seps(s, i) == lone_seps(t, j),
    decreases s.len() - i,
{
    assert(s.subrange(i, s.len() as int).len() == s.len() - i);
    assert(t.subrange(j, t.len() as int).len() == t.len() - j);
    if i < s.len() {
        assert(s[i] == s.subrange(i, s.len() as int)[0]);
        assert(t[j] == t.subrange(j, t.len() as int)[0]);
        if i + 1 < s.len() {
            assert(s[i + 1] == s.subrange(i, s.len() as int)[1]);
            assert(t[j + 1] == t.subrange(j, t.len() as int)[1]);
        }
        assert(lone_sep(s, i) == lone_sep(t, j));
        assert(follower(s, i) == follower(t, j));
        assert(s.subrange(i + 1, s.len() as int) =~= s.subrange(i, s.len() as int).subrange(1, s.len() - i));
        assert(t.subrange(j + 1, t.len() as int) =~= t.subrange(j, t.len() as int).subrange(1, t.len() - j));
        lemma_lone_suffix(s, i + 1, t, j + 1);
    }
}

proof fn lemma_lone_none(s: Seq<WordV>, a: int, b: int)
    requires
        0 <= a <= b <= s.len(),
        forall|m: int| a <= m < b ==> !lone_sep(s, m),
    ensures
        lone_seps(s, a) == lone_seps(s, b),
    decreases b - a,
{
    if a < b {
        lemma_lone_none(s, a + 1, b);
        assert(!lone_sep(s, a));
        assert(lone_seps(s, a) =~= Seq::<(WordV, Option<WordV>)>::empty() + lone_seps(s, a + 1));
    }
}

proof fn lemma_lone_prefix(s: Seq<WordV>, t: Seq<WordV>, k: int, b: int)
    requires
        0 <= k <= b,
        b <= s.len(),
        b <= t.len(),
        lone_seps(s, b) == lone_seps(t, b),
        forall|m: int|
            k <= m < b ==> lone_sep(s, m) == lone_sep(t, m) && (lone_sep(s, m) ==> s[m] == t[m] && follower(s, m)
                == follower(t, m)),
    ensures
        lone_seps(s, k) == lone_seps(t, k),
    decreases b - k,
{
    if k < b {
        lemma_lone_prefix(s, t, k + 1, b);
    }
}

proof fn lemma_lone_merge(ws: Seq<WordV>, i5: int, c: int)
    requires
        0 <= i5,
        i5 + 2 < ws.len(),
        pumsa_at(ws, i5, seq![0x49u8, 0x4D, 0x49]),
        i5 > 0 ==> first_tag(ws[i5 - 1]) != Some(0x4Du8),
        c == group_count(ws, i5 + 1),
        1 <= c,
        ws.len() <= i5 + 1 + 2 * c || first_tag(ws[i5 + 1 + 2 * c]) != Some(0x4Du8),
    ensures
        lone_seps(sum_groups(ws, i5, c), 0) == lone_seps(ws, 0),
{
    let n = i5 + 1;
    let i4 = n + 2 * c;
    lemma_group_count(ws, n);
    let out = sum_groups(ws, i5, c);
    let w = summed_word(ws[i5], alt_sources(ws, i5, c + 1));
    assert(first_tag(ws[i5 + 0]) == Some(0x49u8));
    assert(first_tag(w) == Some(0x49u8));
    assert(out.len() == ws.len() - 2 * c);
    assert(out[i5] == w);
    // The words after the joined groups are the same.
    assert(out.subrange(i5 + 1, out.len() as int) =~= ws.subrange(i4, ws.len() as int));
    lemma_lone_suffix(out, i5 + 1, ws, i4);
    // The joined word is no separator.
    assert(!lone_sep(out, i5));
    lemma_lone_none(out, i5, i5 + 1);
    // Nothing between the first digit word and the end of the groups is a lone separator.
    assert forall|m: int| i5 <= m < i4 implies !lone_sep(ws, m) by {
        if m > i5 {
            let j = m - n;
            if j % 2 == 0 {
                law_group_members(ws, n, j / 2);
                assert(n + 2 * (j / 2) == m);
            } else {
                law_group_members(ws, n, j / 2);
                assert(n + 2 * (j / 2) + 1 == m);
            }
        }
    }
    lemma_lone_none(ws, i5, i4);
    // Before the first digit word nothing changed.
    assert forall|m: int|
        0 <= m < i5 implies lone_sep(ws, m) == lone_sep(out, m) && (lone_sep(ws, m) ==> ws[m] == out[m]
            && follower(ws, m) == follower(out, m)) by {
        assert(out[m] == ws[m]);
        if m + 1 < i5 {
            assert(out[m + 1] == ws[m + 1]);
        } else {
            assert(!lone_sep(ws, m));
            assert(!lone_sep(out, m));
        }
    }
    lemma_lone_prefix(ws, out, 0, i5);
}

proof fn lemma_sep_keeps_lone(ws: Seq<WordV>, i5: int)
    ensures
        lone_seps(sep_from(ws, i5), 0) == lone_seps(ws, 0),
    decreases ws.len(), ws.len() - i5,
{
    if i5 < 0 || ws.len() <= i5 + 2 {
    } else if ws[i5].2 != 0 || ws[i5].0.len() > 3 {
        lemma_sep_keeps_lone(ws, i5 + 1);
    } else if !pumsa_at(ws, i5, seq![0x49u8, 0x4D, 0x49]) || (i5 > 0 && first_tag(ws[i5 - 1]) == Some(0x4Du8)) {
        lemma_sep_keeps_lone(ws, i5 + 1);
    } else {
        let n_index = i5 + 1;
        let c = group_count(ws, n_index);
        let i4 = n_index + 2 * c;
        lemma_group_count(ws, n_index);
        if c > 8 || c <= 0 {
            lemma_sep_keeps_lone(ws, i4);
        } else if ws.len() <= i4 || first_tag(ws[i4]) != Some(0x4Du8) {
            let out = sum_groups(ws, i5, c);
            assert(out.len() < ws.len());
            lemma_sep_keeps_lone(out, n_index);
            lemma_lone_merge(ws, i5, c);
        } else {
            lemma_sep_keeps_lone(ws, i4);
        }
    }
}

/// Law: joining digit groups keeps every separator that no word of exactly three units
/// follows, in order and with the word after it; so in `1`, `,`, `2` or `1`, `,`, `234`,
/// `,`, `5` the separator before the short word stays where it is.
pub proof fn law_lone_separators_stay(ws: Seq<WordV>)
    ensures
        lone_seps(digit_seperate(ws), 0) == lone_seps(ws, 0),
{
    if ws.len() >= 3 {
        lemma_sep_keeps_lone(ws, 0);
    }
}

} // verus!
