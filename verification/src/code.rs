//! Conversions between Hangul syllables (UTF-16), jamo index triples ("cvc": initial,
//! vowel, final) and the romanization letters ("pyogi").
use vstd::prelude::*;
use crate::tables::{
    SSCH_CHO, SSCH_JUNG, SSCH_JONG, ssch_letters, pyogi_class, cvc_type_from_pyogi, CHOSONG, JUNG_ONE, JUNG_TWO, JONG_ONE, JONG_TWO, CHO_NO, JUNG_NO, JONG_NO, UNI_JUNG_ID,
    UNI_JONG_ID, JAMO_CVC,
};

verus! {

/// Entry `i` of the initial-consonant ordinal table.
#[verifier::opaque]
pub open spec fn cho_no(i: int) -> u8 {
    CHO_NO@[i]
}

/// Entry `i` of the vowel ordinal table.
#[verifier::opaque]
pub open spec fn jung_no(i: int) -> u8 {
    JUNG_NO@[i]
}

/// Entry `i` of the final-consonant ordinal table.
#[verifier::opaque]
pub open spec fn jong_no(i: int) -> u8 {
    JONG_NO@[i]
}

/// Vowel index of the Unicode vowel ordinal `j`.
#[verifier::opaque]
pub open spec fn uni_jung(j: int) -> u8 {
    UNI_JUNG_ID@[j]
}

/// Final index of the Unicode final ordinal `k`.
#[verifier::opaque]
pub open spec fn uni_jong(k: int) -> u8 {
    UNI_JONG_ID@[k]
}

/// Triple of compatibility jamo `k`.
#[verifier::opaque]
pub open spec fn jamo_at(k: int) -> (u8, u8, u8) {
    JAMO_CVC@[k]
}

fn get_cho_no(i: usize) -> (r: u8)
    requires
        i < 32,
    ensures
        r == cho_no(i as int),
{
    reveal(cho_no);
    CHO_NO[i]
}

fn get_jung_no(i: usize) -> (r: u8)
    requires
        i < 32,
    ensures
        r == jung_no(i as int),
{
    reveal(jung_no);
    JUNG_NO[i]
}

fn get_jong_no(i: usize) -> (r: u8)
    requires
        i < 32,
    ensures
        r == jong_no(i as int),
{
    reveal(jong_no);
    JONG_NO[i]
}

fn get_uni_jung(j: usize) -> (r: u8)
    requires
        j < 21,
    ensures
        r == uni_jung(j as int),
        r < 32,
{
    reveal(uni_jung);
    UNI_JUNG_ID[j]
}

fn get_uni_jong(k: usize) -> (r: u8)
    requires
        k < 28,
    ensures
        r == uni_jong(k as int),
        r < 32,
{
    reveal(uni_jong);
    UNI_JONG_ID[k]
}

fn get_jamo(k: usize) -> (r: (u8, u8, u8))
    requires
        k < 51,
    ensures
        r == jamo_at(k as int),
{
    reveal(jamo_at);
    JAMO_CVC[k]
}

/// Code units the syllable decomposition accepts: from U+AC00 up, or below it by a
/// multiple of 588 (one initial-consonant step).
pub open spec fn wan_ok(w: u16) -> bool {
    w >= 0xAC00 || (0xAC00 - w) % 588 == 0
}

/// Jamo triple of a code unit: initial index `t / 588 + 2`, the vowel and final indices of
/// the Unicode ordinals, where `t` is the offset from U+AC00 (wrapping below it).
pub open spec fn uni_cvc(w: u16) -> Seq<u8> {
    if w >= 0xAC00 {
        let t = w - 0xAC00;
        seq![(t / 588 + 2) as u8, uni_jung((t % 588) / 28), uni_jong(t % 28)]
    } else {
        let k = (0xAC00 - w) / 588;
        seq![((258 - k) % 256) as u8, uni_jung(0), uni_jong(0)]
    }
}

/// The triples of all code units, one after another.
pub open spec fn wan_cvc(pw: Seq<u16>) -> Seq<u8> {
    Seq::new((3 * pw.len()) as nat, |i: int| uni_cvc(pw[i / 3])[i % 3])
}

/// Decomposes syllables into jamo index triples.
pub fn conv_uni_wan_to_cvc(pw: &[u16]) -> (r: Vec<u8>)
    requires
        forall|i: int| 0 <= i < pw@.len() ==> wan_ok(#[trigger] pw@[i]),
    ensures
        r@ == wan_cvc(pw@),
{
    let mut out: Vec<u8> = Vec::new();
    let mut i: usize = 0;
    while i < pw.len()
        invariant
            i <= pw@.len(),
            forall|j: int| 0 <= j < pw@.len() ==> wan_ok(#[trigger] pw@[j]),
            out@ == wan_cvc(pw@.subrange(0, i as int)),
        decreases pw@.len() - i,
    {
        let w = pw[i];
        let ghost before = out@;
        if w >= 0xAC00 {
            let t = (w - 0xAC00) as usize;
            out.push((t / 588 + 2) as u8);
            out.push(get_uni_jung((t % 588) / 28));
            out.push(get_uni_jong(t % 28));
        } else {
            let k = (0xAC00 - w) / 588;
            out.push(((258 - k) % 256) as u8);
            out.push(get_uni_jung(0));
            out.push(get_uni_jong(0));
        }
        proof {
            let p = pw@.subrange(0, i as int);
            let q = pw@.subrange(0, i + 1);
            assert(before == wan_cvc(p));
            assert(out@ =~= before + uni_cvc(w));
            assert forall|x: int| 0 <= x < 3 * q.len() implies #[trigger] wan_cvc(q)[x] == (before + uni_cvc(w))[x] by {
                if x < 3 * i {
                    assert(q[x / 3] == p[x / 3]);
                } else {
                    assert(x / 3 == i);
                }
            }
            assert(wan_cvc(q) =~= out@);
        }
        i = i + 1;
    }
    proof {
        assert(pw@.subrange(0, i as int) =~= pw@);
    }
    out
}

/// Code units `conv_uni_code_to_cvc` accepts: 0, from U+AC00 while the initial index stays
/// in its table, and the two units one or two initial steps below U+AC00.
pub open spec fn code_cvc_ok(w: u16) -> bool {
    w == 0 || (w >= 0xAC00 && (w - 0xAC00) / 588 + 2 < 32) || w == 0xAC00 - 588 || w == 0xAC00
        - 1176
}

/// Ordinal triple of a code unit (see `conv_uni_code_to_cvc`).
pub open spec fn uni_code_cvc(w: u16) -> Seq<u8> {
    if w == 0 {
        seq![0u8, 0u8, 0u8]
    } else if w >= 0xAC00 {
        let t = w - 0xAC00;
        seq![
            cho_no(t / 588 + 2),
            jung_no(uni_jung((t % 588) / 28) as int),
            jong_no(uni_jong(t % 28) as int),
        ]
    } else {
        seq![
            cho_no(
                if w == 0xAC00 - 588 {
                    1int
                } else {
                    0
                },
            ),
            jung_no(uni_jung(0) as int),
            jong_no(uni_jong(0) as int),
        ]
    }
}

/// Unicode ordinals (initial, vowel, final) of one syllable; zeros for 0.
pub fn conv_uni_code_to_cvc(w: u16) -> (r: [u8; 3])
    requires
        code_cvc_ok(w),
    ensures
        r@ == uni_code_cvc(w),
{
    let r = if w == 0 {
        [0u8, 0u8, 0u8]
    } else if w >= 0xAC00 {
        let t = (w - 0xAC00) as usize;
        [
            get_cho_no(t / 588 + 2),
            get_jung_no(get_uni_jung((t % 588) / 28) as usize),
            get_jong_no(get_uni_jong(t % 28) as usize),
        ]
    } else {
        let ci: usize = if w == 0xAC00 - 588 {
            1
        } else {
            0
        };
        [
            get_cho_no(ci),
            get_jung_no(get_uni_jung(0) as usize),
            get_jong_no(get_uni_jong(0) as usize),
        ]
    };
    assert(r@ =~= uni_code_cvc(w));
    r
}

/// Entry `c` of a 32-entry letter table, 0 past its end.
#[verifier::opaque]
pub open spec fn tbl(t: [u8; 32], c: u8) -> u8 {
    if c < 32 {
        t@[c as int]
    } else {
        0
    }
}

fn tbl_get(t: &[u8; 32], c: u8) -> (r: u8)
    ensures
        r == tbl(*t, c),
{
    reveal(tbl);
    if c < 32 {
        t[c as usize]
    } else {
        0
    }
}

/// The letter, or nothing for 0.
pub open spec fn opt_letter(x: u8) -> Seq<u8> {
    if x != 0 {
        seq![x]
    } else {
        Seq::empty()
    }
}

/// Romanization of one triple: the initial, the vowel's one or two letters, the final's
/// one or two letters.
pub open spec fn triple_pyogi(a: u8, b: u8, d: u8) -> Seq<u8> {
    opt_letter(tbl(CHOSONG, a)) + (if tbl(JUNG_ONE, b) != 0 {
        seq![tbl(JUNG_ONE, b)] + opt_letter(tbl(JUNG_TWO, b))
    } else {
        Seq::empty()
    }) + (if tbl(JONG_ONE, d) != 0 {
        seq![tbl(JONG_ONE, d)] + opt_letter(tbl(JONG_TWO, d))
    } else {
        Seq::empty()
    })
}

/// Romanization of the whole triples from position `i` on.
pub open spec fn cvc_pyogi_from(c: Seq<u8>, i: int) -> Seq<u8>
    decreases c.len() - i,
{
    if i < 0 || i + 2 >= c.len() {
        Seq::empty()
    } else {
        triple_pyogi(c[i], c[i + 1], c[i + 2]) + cvc_pyogi_from(c, i + 3)
    }
}

fn push_opt(out: &mut Vec<u8>, x: u8)
    ensures
        final(out)@ == old(out)@ + opt_letter(x),
{
    if x != 0 {
        out.push(x);
    }
    assert(out@ =~= old(out)@ + opt_letter(x));
}

/// Romanizes jamo index triples; a trailing partial triple is ignored.
pub fn conv_cvc_to_pyogi(cvc: &[u8]) -> (r: Vec<u8>)
    ensures
        r@ == cvc_pyogi_from(cvc@, 0),
{
    let len = cvc.len();
    let mut out: Vec<u8> = Vec::new();
    let mut i: usize = 0;
    while i < len && len - i > 2
        invariant
            len == cvc@.len(),
            i <= len,
            out@ + cvc_pyogi_from(cvc@, i as int) == cvc_pyogi_from(cvc@, 0),
        decreases len - i,
    {
        let ghost before = out@;
        push_opt(&mut out, tbl_get(&CHOSONG, cvc[i]));
        let j = tbl_get(&JUNG_ONE, cvc[i + 1]);
        if j != 0 {
            out.push(j);
            push_opt(&mut out, tbl_get(&JUNG_TWO, cvc[i + 1]));
        }
        let k = tbl_get(&JONG_ONE, cvc[i + 2]);
        if k != 0 {
            out.push(k);
            push_opt(&mut out, tbl_get(&JONG_TWO, cvc[i + 2]));
        }
        proof {
            assert(out@ =~= before + triple_pyogi(cvc@[i as int], cvc@[i + 1], cvc@[i + 2]));
            assert(before + triple_pyogi(cvc@[i as int], cvc@[i + 1], cvc@[i + 2]) + cvc_pyogi_from(
                cvc@,
                i + 3,
            ) =~= before + cvc_pyogi_from(cvc@, i as int));
        }
        i = i + 3;
    }
    proof {
        assert(out@ + Seq::<u8>::empty() =~= out@);
    }
    out
}

/// Romanizes syllables.
pub fn conv_uni_wan_to_pyogi(pw: &[u16]) -> (r: Vec<u8>)
    requires
        forall|i: int| 0 <= i < pw@.len() ==> wan_ok(#[trigger] pw@[i]),
    ensures
        r@ == cvc_pyogi_from(wan_cvc(pw@), 0),
{
    let cvc = conv_uni_wan_to_cvc(pw);
    conv_cvc_to_pyogi(cvc.as_slice())
}

/// A triple that stands for a lone jamo rather than a syllable: a filler initial with a
/// filler vowel or final, or a filler vowel and final.
pub open spec fn is_jamo_triple(a: u8, b: u8, d: u8) -> bool {
    if a == 1 {
        b == 1 || d == 1
    } else {
        b == 1 && d == 1
    }
}

/// A syllable triple indexes the ordinal tables.
pub open spec fn triple_ok(a: u8, b: u8, d: u8) -> bool {
    is_jamo_triple(a, b, d) || (a < 32 && b < 32 && d < 32)
}

/// Index of the first compatibility jamo with this triple.
pub open spec fn jamo_index(a: u8, b: u8, d: u8) -> Option<int> {
    if exists|k: int| 0 <= k < 51 && #[trigger] jamo_at(k) == (a, b, d) {
        Some(choose|k: int| 0 <= k < 51 && #[trigger] jamo_at(k) == (a, b, d) && forall|j: int| 0 <= j < k ==> jamo_at(j) != (a, b, d))
    } else {
        None
    }
}

/// The code unit of one triple: a compatibility jamo (0 when unknown), or the syllable
/// composed from the ordinals.
pub open spec fn triple_uni(a: u8, b: u8, d: u8) -> u16 {
    if is_jamo_triple(a, b, d) {
        match jamo_index(a, b, d) {
            Some(k) => (0x3131 + k) as u16,
            None => 0,
        }
    } else {
        ((cho_no(a as int) - 1) * 588 + (jung_no(b as int) - 1) * 28 + jong_no(d as int) - 0x5400
            + 0x10000) as u16
    }
}

/// The code units of all whole triples.
pub open spec fn cvc_wan(c: Seq<u8>) -> Seq<u16> {
    Seq::new((c.len() / 3) as nat, |i: int| triple_uni(c[3 * i], c[3 * i + 1], c[3 * i + 2]))
}

fn find_jamo(a: u8, b: u8, d: u8) -> (r: Option<usize>)
    ensures
        r == match jamo_index(a, b, d) {
            Some(k) => Some(k as usize),
            None => None::<usize>,
        },
{
    let mut k: usize = 0;
    while k < 51
        invariant
            k <= 51,
            forall|j: int| 0 <= j < k ==> #[trigger] jamo_at(j) != (a, b, d),
        decreases 51 - k,
    {
        let e = get_jamo(k);
        if e.0 == a && e.1 == b && e.2 == d {
            proof {
                let c = choose|c: int| 0 <= c < 51 && #[trigger] jamo_at(c) == (a, b, d) && forall|j: int| 0 <= j < c ==> jamo_at(j) != (a, b, d);
                assert(jamo_at(k as int) == (a, b, d));
                if c < k {
                    assert(jamo_at(c) != (a, b, d));
                }
                if c > k {
                    assert(jamo_at(k as int) != (a, b, d));
                }
            }
            return Some(k);
        }
        k = k + 1;
    }
    None
}

/// Composes jamo index triples into code units; a trailing partial triple is ignored.
pub fn conv_cvc_to_uni_wan(cvc: &[u8]) -> (r: Vec<u16>)
    requires
        forall|i: int|
            0 <= i < cvc@.len() / 3 ==> #[trigger] triple_ok(cvc@[3 * i], cvc@[3 * i + 1], cvc@[3 * i + 2]),
    ensures
        r@ == cvc_wan(cvc@),
{
    let len = cvc.len();
    let n = len / 3;
    let mut out: Vec<u16> = Vec::new();
    let mut i: usize = 0;
    while i < n
        invariant
            len == cvc@.len(),
            n == cvc@.len() / 3,
            i <= n,
            forall|j: int|
                0 <= j < cvc@.len() / 3 ==> #[trigger] triple_ok(cvc@[3 * j], cvc@[3 * j + 1], cvc@[3 * j + 2]),
            out@ == cvc_wan(cvc@).subrange(0, i as int),
        decreases n - i,
    {
        let a = cvc[3 * i];
        let b = cvc[3 * i + 1];
        let d = cvc[3 * i + 2];
        assert(triple_ok(cvc@[3 * i], cvc@[3 * i + 1], cvc@[3 * i + 2]));
        let jamo = if a == 1 {
            b == 1 || d == 1
        } else {
            b == 1 && d == 1
        };
        if jamo {
            match find_jamo(a, b, d) {
                Some(k) => out.push(0x3131 + k as u16),
                None => out.push(0),
            }
        } else {
            let v: i32 = (get_cho_no(a as usize) as i32 - 1) * 0x24c + (get_jung_no(b as usize) as i32
                - 1) * 0x1c + get_jong_no(d as usize) as i32 - 0x5400;
            out.push((v + 0x10000) as u16);
        }
        proof {
            assert(out@ =~= cvc_wan(cvc@).subrange(0, i + 1));
        }
        i = i + 1;
    }
    proof {
        assert(cvc_wan(cvc@).subrange(0, n as int) =~= cvc_wan(cvc@));
    }
    out
}

/// Syllables from U+AC00 to U+D7A3.
pub open spec fn is_syllable(w: u16) -> bool {
    0xAC00 <= w <= 0xD7A3
}

proof fn lemma_cho_fact(q: int)
    requires
        0 <= q <= 18,
    ensures
        cho_no(q + 2) == q + 1,
{
    reveal(cho_no);
    assert(q == 0 || q == 1 || q == 2 || q == 3 || q == 4 || q == 5 || q == 6 || q == 7 || q == 8
        || q == 9 || q == 10 || q == 11 || q == 12 || q == 13 || q == 14 || q == 15 || q == 16 || q
        == 17 || q == 18);
}

proof fn lemma_jung_fact(j: int)
    requires
        0 <= j < 21,
    ensures
        jung_no(uni_jung(j) as int) == j + 1,
        uni_jung(j) != 1,
        uni_jung(j) < 32,
{
    reveal(jung_no);
    reveal(uni_jung);
    assert(j == 0 || j == 1 || j == 2 || j == 3 || j == 4 || j == 5 || j == 6 || j == 7 || j == 8
        || j == 9 || j == 10 || j == 11 || j == 12 || j == 13 || j == 14 || j == 15 || j == 16 || j
        == 17 || j == 18 || j == 19 || j == 20);
}

proof fn lemma_jong_fact(k: int)
    requires
        0 <= k < 28,
    ensures
        jong_no(uni_jong(k) as int) == k,
        uni_jong(k) < 32,
{
    reveal(jong_no);
    reveal(uni_jong);
    assert(k == 0 || k == 1 || k == 2 || k == 3 || k == 4 || k == 5 || k == 6 || k == 7 || k == 8
        || k == 9 || k == 10 || k == 11 || k == 12 || k == 13 || k == 14 || k == 15 || k == 16 || k
        == 17 || k == 18 || k == 19 || k == 20 || k == 21 || k == 22 || k == 23 || k == 24 || k
        == 25 || k == 26 || k == 27);
}

proof fn lemma_syllable_roundtrip(w: u16)
    requires
        is_syllable(w),
    ensures
        wan_ok(w),
        triple_ok(uni_cvc(w)[0], uni_cvc(w)[1], uni_cvc(w)[2]),
        triple_uni(uni_cvc(w)[0], uni_cvc(w)[1], uni_cvc(w)[2]) == w,
{
    let t = w - 0xAC00;
    let q = t / 588;
    let r = t % 588;
    let j = r / 28;
    let k = t % 28;
    assert(0 <= q <= 18);
    assert(0 <= j < 21);
    assert(0 <= k < 28);
    assert(r % 28 == k) by {
        assert(t == 588 * q + r);
        assert(588 * q == 28 * (21 * q));
    }
    lemma_cho_fact(q);
    lemma_jung_fact(j);
    lemma_jong_fact(k);
    assert(q * 588 + j * 28 + k == t);
}

/// Decomposing Hangul syllables into jamo triples and composing the triples again gives
/// the syllables back.
pub proof fn law_syllables_roundtrip(pw: Seq<u16>)
    requires
        forall|i: int| 0 <= i < pw.len() ==> is_syllable(#[trigger] pw[i]),
    ensures
        forall|i: int| 0 <= i < pw.len() ==> wan_ok(#[trigger] pw[i]),
        forall|i: int|
            0 <= i < wan_cvc(pw).len() / 3 ==> #[trigger] triple_ok(
                wan_cvc(pw)[3 * i],
                wan_cvc(pw)[3 * i + 1],
                wan_cvc(pw)[3 * i + 2],
            ),
        cvc_wan(wan_cvc(pw)) == pw,
{
    let c = wan_cvc(pw);
    assert forall|i: int| 0 <= i < pw.len() implies wan_ok(#[trigger] pw[i]) by {
        lemma_syllable_roundtrip(pw[i]);
    }
    assert forall|i: int| 0 <= i < c.len() / 3 implies #[trigger] triple_ok(c[3 * i], c[3 * i + 1], c[3 * i + 2]) && triple_uni(c[3 * i], c[3 * i + 1], c[3 * i + 2]) == pw[i] by {
        lemma_syllable_roundtrip(pw[i]);
        assert((3 * i) / 3 == i && (3 * i + 1) / 3 == i && (3 * i + 2) / 3 == i);
        assert((3 * i) % 3 == 0 && (3 * i + 1) % 3 == 1 && (3 * i + 2) % 3 == 2);
    }
    assert(c.len() == 3 * pw.len());
    assert(c.len() / 3 == pw.len());
    assert forall|i: int| 0 <= i < pw.len() implies #[trigger] cvc_wan(c)[i] == pw[i] by {
        assert(i < c.len() / 3);
        assert(triple_ok(c[3 * i], c[3 * i + 1], c[3 * i + 2]));
    }
    assert(cvc_wan(c) =~= pw);
}

/// Whether `pre` is a non-empty prefix of `s`.
pub open spec fn is_nonempty_prefix(pre: Seq<u8>, s: Seq<u8>) -> bool {
    0 < pre.len() <= s.len() && s.subrange(0, pre.len() as int) == pre
}

/// The highest index below `k` whose romanization is a non-empty prefix of `s`.
pub open spec fn best_prefix(t: [(u8, u8); 32], s: Seq<u8>, k: int) -> Option<int>
    decreases k,
{
    if k <= 0 {
        None
    } else if is_nonempty_prefix(ssch_letters(t@[k - 1]), s) {
        Some(k - 1)
    } else {
        best_prefix(t, s, k - 1)
    }
}

/// Finds the highest table index whose romanization starts `p[i..]`.
fn search_ssch(t: &[(u8, u8); 32], p: &[u8], i: usize) -> (r: Option<usize>)
    requires
        i <= p@.len(),
    ensures
        r == match best_prefix(*t, p@.subrange(i as int, p@.len() as int), 32) {
            Some(k) => Some(k as usize),
            None => None::<usize>,
        },
        r matches Some(k) ==> k < 32 && is_nonempty_prefix(ssch_letters(t@[k as int]), p@.subrange(i as int, p@.len() as int)),
        r matches Some(k) ==> best_prefix(*t, p@.subrange(i as int, p@.len() as int), 32) == Some(k as int),
        r is None ==> best_prefix(*t, p@.subrange(i as int, p@.len() as int), 32) is None,
{
    let ghost s = p@.subrange(i as int, p@.len() as int);
    let len = p.len();
    let mut k: usize = 32;
    while k > 0
        invariant
            k <= 32,
            len == p@.len(),
            i <= len,
            s == p@.subrange(i as int, p@.len() as int),
            best_prefix(*t, s, 32) == best_prefix(*t, s, k as int),
        decreases k,
    {
        let e = t[k - 1];
        let l: usize = if e.0 == 0 {
            0
        } else if e.1 == 0 {
            1
        } else {
            2
        };
        assert(ssch_letters(e).len() == l);
        if l > 0 && l <= len - i {
            let m = if l == 1 {
                p[i] == e.0
            } else {
                p[i] == e.0 && p[i + 1] == e.1
            };
            proof {
                let pre = ssch_letters(e);
                if m {
                    assert(s.subrange(0, l as int) =~= pre);
                } else {
                    if s.subrange(0, l as int) == pre {
                        assert(s.subrange(0, l as int)[0] == pre[0]);
                        if l == 2 {
                            assert(s.subrange(0, l as int)[1] == pre[1]);
                        }
                    }
                }
            }
            if m {
                return Some(k - 1);
            }
        }
        k = k - 1;
    }
    None
}

/// Number of letters of a romanization entry.
pub open spec fn ssch_len(e: (u8, u8)) -> int {
    ssch_letters(e).len() as int
}

/// Tokens of a romanized string from position `i` on, as (kind, table index): vowels and
/// glides read against the vowel table (kind 2), finals against the final table (kind 3),
/// initials against the initial table (kind 0) one letter at a time, other letters
/// skipped; reading stops at the first letter no entry matches.
pub open spec fn tokens_from(p: Seq<u8>, i: int) -> Seq<(u8, u8)>
    decreases p.len() + 1 - i,
{
    if i < 0 || i >= p.len() {
        Seq::empty()
    } else {
        let c = pyogi_class(p[i]);
        let rest = p.subrange(i, p.len() as int);
        if c == 1 || c == 2 {
            match best_prefix(SSCH_JUNG, rest, 32) {
                None => Seq::empty(),
                Some(idx) => seq![(2u8, idx as u8)] + tokens_from(
                    p,
                    i + if ssch_len(SSCH_JUNG@[idx]) == 2 {
                        2int
                    } else {
                        1
                    },
                ),
            }
        } else if c == 3 {
            match best_prefix(SSCH_JONG, rest, 32) {
                None => Seq::empty(),
                Some(idx) => seq![(3u8, idx as u8)] + tokens_from(
                    p,
                    i + if ssch_len(SSCH_JONG@[idx]) == 2 {
                        2int
                    } else {
                        1
                    },
                ),
            }
        } else if c == 4 {
            tokens_from(p, i + 1)
        } else {
            match best_prefix(SSCH_CHO, rest, 32) {
                None => Seq::empty(),
                Some(idx) => seq![(0u8, idx as u8)] + tokens_from(p, i + 1),
            }
        }
    }
}

/// Two neighbouring tokens belong to one syllable: initial then vowel, or vowel then final.
pub open spec fn joins(a: (u8, u8), b: (u8, u8)) -> bool {
    (a.0 == 0 && b.0 == 2) || (a.0 == 2 && b.0 == 3)
}

/// End of the syllable that runs on from token `i - 1`.
pub open spec fn run_end(t: Seq<(u8, u8)>, i: int) -> int
    decreases t.len() - i,
{
    if 1 <= i < t.len() && joins(t[i - 1], t[i]) {
        run_end(t, i + 1)
    } else {
        i
    }
}

/// The triple of one syllable's tokens (zeros for a combination that is none).
pub open spec fn group_cvc(g: Seq<(u8, u8)>) -> Seq<u8> {
    if g.len() == 2 {
        if g[0].0 == 0 && g[1].0 == 2 {
            seq![g[0].1, g[1].1, 1u8]
        } else if g[0].0 == 2 && g[1].0 == 3 {
            seq![13u8, g[0].1, g[1].1]
        } else {
            seq![0u8, 0u8, 0u8]
        }
    } else if g.len() == 3 {
        seq![g[0].1, g[1].1, g[2].1]
    } else if g.len() == 1 {
        if g[0].0 == 0 {
            seq![g[0].1, 1u8, 1u8]
        } else if g[0].0 == 2 {
            seq![13u8, g[0].1, 1u8]
        } else if g[0].0 == 3 {
            seq![1u8, 1u8, g[0].1]
        } else {
            seq![0u8, 0u8, 0u8]
        }
    } else {
        seq![0u8, 0u8, 0u8]
    }
}

/// Triples of the syllables from token `j` on.
pub open spec fn groups_from(t: Seq<(u8, u8)>, j: int) -> Seq<u8>
    decreases t.len() - j,
{
    if j < 0 || j >= t.len() {
        Seq::empty()
    } else {
        let e = run_end(t, j + 1);
        proof {
            lemma_run_end(t, j + 1);
        }
        if e <= j {
            Seq::empty()
        } else {
            group_cvc(t.subrange(j, e)) + groups_from(t, e)
        }
    }
}

pub proof fn lemma_run_end(t: Seq<(u8, u8)>, i: int)
    requires
        1 <= i,
    ensures
        i <= run_end(t, i),
        i <= t.len() ==> run_end(t, i) <= t.len(),
    decreases t.len() - i,
{
    if 1 <= i < t.len() && joins(t[i - 1], t[i]) {
        lemma_run_end(t, i + 1);
    }
}

/// The pieces of a romanized string from position `i` on, as (kind, start): at each
/// position the vowel table is read first (kind 2), then the final table (kind 3), then
/// the initial table (kind 0), each time taking the highest entry that starts the rest;
/// `None` where none does.
pub open spec fn pieces_from(p: Seq<u8>, i: int) -> Option<Seq<(u8, int)>>
    decreases p.len() - i,
{
    if i < 0 || i >= p.len() {
        Some(Seq::empty())
    } else {
        let rest = p.subrange(i, p.len() as int);
        let kl: (u8, int) = match best_prefix(SSCH_JUNG, rest, 32) {
            Some(k) => (2u8, ssch_len(SSCH_JUNG@[k])),
            None => match best_prefix(SSCH_JONG, rest, 32) {
                Some(k) => (3u8, ssch_len(SSCH_JONG@[k])),
                None => match best_prefix(SSCH_CHO, rest, 32) {
                    Some(k) => (0u8, ssch_len(SSCH_CHO@[k])),
                    None => (4u8, 0int),
                },
            },
        };
        if kl.1 <= 0 || i + kl.1 > p.len() {
            None
        } else {
            match pieces_from(p, i + kl.1) {
                Some(t) => Some(seq![(kl.0, i)] + t),
                None => None,
            }
        }
    }
}

/// End of the run of pieces that belong to one syllable with piece `i - 1`: an initial
/// followed by a vowel, a vowel followed by a final.
pub open spec fn piece_run_end(t: Seq<(u8, int)>, i: int) -> int
    decreases t.len() - i,
{
    if 1 <= i < t.len() && ((t[i - 1].0 == 0 && t[i].0 == 2) || (t[i - 1].0 == 2 && t[i].0 == 3)) {
        piece_run_end(t, i + 1)
    } else {
        i
    }
}

pub proof fn lemma_piece_run_end(t: Seq<(u8, int)>, i: int)
    requires
        1 <= i,
    ensures
        i <= piece_run_end(t, i),
        i <= t.len() ==> piece_run_end(t, i) <= t.len(),
    decreases t.len() - i,
{
    if 1 <= i < t.len() && ((t[i - 1].0 == 0 && t[i].0 == 2) || (t[i - 1].0 == 2 && t[i].0 == 3)) {
        lemma_piece_run_end(t, i + 1);
    }
}

/// Start of piece `k`, or `n` past the last piece.
pub open spec fn piece_start(t: Seq<(u8, int)>, k: int, n: int) -> int {
    if 0 <= k < t.len() {
        t[k].1
    } else {
        n
    }
}

/// The (start, end) letter spans of the syllables from piece `j` on.
pub open spec fn spans_from(t: Seq<(u8, int)>, n: int, j: int) -> Seq<(int, int)>
    decreases t.len() - j,
{
    if j < 0 || j >= t.len() {
        Seq::empty()
    } else {
        let e = piece_run_end(t, j + 1);
        proof {
            lemma_piece_run_end(t, j + 1);
        }
        if e <= j || e > t.len() {
            Seq::empty()
        } else {
            seq![(t[j].1, piece_start(t, e, n))] + spans_from(t, n, e)
        }
    }
}

/// The letter spans of the syllables of a romanized string; none where it does not read
/// as pieces.
pub open spec fn syllable_spans(p: Seq<u8>) -> Seq<(int, int)> {
    match pieces_from(p, 0) {
        Some(t) => spans_from(t, p.len() as int, 0),
        None => Seq::empty(),
    }
}

/// `acc` put before what `o` holds.
pub open spec fn glue(acc: Seq<(u8, int)>, o: Option<Seq<(u8, int)>>) -> Option<Seq<(u8, int)>> {
    match o {
        Some(t) => Some(acc + t),
        None => None,
    }
}

/// A list of pieces as values.
pub open spec fn pieces_view(kinds: Seq<u8>, starts: Seq<usize>) -> Seq<(u8, int)> {
    Seq::new(kinds.len(), |k: int| (kinds[k], starts[k] as int))
}

/// A list of spans as values.
pub open spec fn spans_view(v: Seq<(usize, usize)>) -> Seq<(int, int)> {
    v.map_values(|x: (usize, usize)| (x.0 as int, x.1 as int))
}

fn entry_len(e: (u8, u8)) -> (l: usize)
    ensures
        l == ssch_len(e),
{
    if e.0 == 0 {
        0
    } else if e.1 == 0 {
        1
    } else {
        2
    }
}

/// The letter spans of the syllables of a romanized word (see `syllable_spans`).
pub fn surface_syllable_spans(pyogi: &[u8]) -> (r: Vec<(usize, usize)>)
    ensures
        spans_view(r@) == syllable_spans(pyogi@),
{
    let n = pyogi.len();
    let mut kinds: Vec<u8> = Vec::new();
    let mut starts: Vec<usize> = Vec::new();
    let mut i: usize = 0;
    proof {
        assert(pieces_view(kinds@, starts@) =~= Seq::<(u8, int)>::empty());
        assert(glue(Seq::empty(), pieces_from(pyogi@, 0)) =~= pieces_from(pyogi@, 0));
    }
    while i < n
        invariant
            n == pyogi@.len(),
            i <= n,
            kinds@.len() == starts@.len(),
            forall|k: int| 0 <= k < starts@.len() ==> #[trigger] starts@[k] < i,
            pieces_from(pyogi@, 0) == glue(pieces_view(kinds@, starts@), pieces_from(pyogi@, i as int)),
        decreases n - i,
    {
        let ghost acc = pieces_view(kinds@, starts@);
        let (kind, l): (u8, usize) = match search_ssch(&SSCH_JUNG, pyogi, i) {
            Some(k) => (2u8, entry_len(SSCH_JUNG[k])),
            None => match search_ssch(&SSCH_JONG, pyogi, i) {
                Some(k) => (3u8, entry_len(SSCH_JONG[k])),
                None => match search_ssch(&SSCH_CHO, pyogi, i) {
                    Some(k) => (0u8, entry_len(SSCH_CHO[k])),
                    None => (4u8, 0usize),
                },
            },
        };
        if l == 0 {
            proof {
                assert(pieces_from(pyogi@, i as int) is None);
            }
            return Vec::new();
        }
        proof {
            assert(l <= n - i);
        }
        kinds.push(kind);
        starts.push(i);
        proof {
            assert(pieces_view(kinds@, starts@) =~= acc + seq![(kind, i as int)]);
            match pieces_from(pyogi@, i + l) {
                Some(t) => {
                    assert(pieces_from(pyogi@, i as int) == Some(seq![(kind, i as int)] + t));
                    assert(acc + (seq![(kind, i as int)] + t) =~= (acc + seq![(kind, i as int)]) + t);
                },
                None => {
                    assert(pieces_from(pyogi@, i as int) is None);
                },
            }
        }
        i = i + l;
    }
    let ghost t = pieces_view(kinds@, starts@);
    proof {
        assert(pieces_from(pyogi@, n as int) == Some(Seq::<(u8, int)>::empty()));
        assert(t + Seq::<(u8, int)>::empty() =~= t);
        assert(pieces_from(pyogi@, 0) == Some(t));
    }
    let len = kinds.len();
    let mut spans: Vec<(usize, usize)> = Vec::new();
    let mut j: usize = 0;
    proof {
        assert(spans_view(spans@) =~= Seq::<(int, int)>::empty());
        assert(Seq::<(int, int)>::empty() + spans_from(t, n as int, 0) =~= spans_from(t, n as int, 0));
    }
    while j < len
        invariant
            len == kinds@.len() == starts@.len() == t.len(),
            t == pieces_view(kinds@, starts@),
            n == pyogi@.len(),
            j <= len,
            spans_view(spans@) + spans_from(t, n as int, j as int) == spans_from(t, n as int, 0),
        decreases len - j,
    {
        let mut e: usize = j + 1;
        proof {
            lemma_piece_run_end(t, j + 1);
        }
        while e < len && ((kinds[e - 1] == 0 && kinds[e] == 2) || (kinds[e - 1] == 2 && kinds[e] == 3))
            invariant
                len == kinds@.len() == starts@.len() == t.len(),
                t == pieces_view(kinds@, starts@),
                j < e <= len,
                piece_run_end(t, j + 1) == piece_run_end(t, e as int),
            decreases len - e,
        {
            proof {
                assert(t[e - 1].0 == kinds@[e - 1] && t[e as int].0 == kinds@[e as int]);
            }
            e = e + 1;
        }
        proof {
            if e < len {
                assert(t[e - 1].0 == kinds@[e - 1] && t[e as int].0 == kinds@[e as int]);
            }
            assert(piece_run_end(t, e as int) == e);
        }
        let end: usize = if e < len {
            starts[e]
        } else {
            n
        };
        let ghost before = spans_view(spans@);
        spans.push((starts[j], end));
        proof {
            assert(spans_view(spans@) =~= before.push((starts@[j as int] as int, end as int)));
            assert(spans_from(t, n as int, j as int) == seq![(t[j as int].1, piece_start(t, e as int, n as int))] + spans_from(t, n as int, e as int));
            assert(before + spans_from(t, n as int, j as int) =~= before.push((starts@[j as int] as int, end as int)) + spans_from(t, n as int, e as int));
        }
        j = e;
    }
    proof {
        assert(spans_from(t, n as int, j as int) =~= Seq::<(int, int)>::empty());
        assert(spans_view(spans@) + Seq::<(int, int)>::empty() =~= spans_view(spans@));
    }
    spans
}

/// Jamo triples of a romanized string.
pub open spec fn pyogi_cvc(p: Seq<u8>) -> Seq<u8> {
    groups_from(tokens_from(p, 0), 0)
}

fn group_triple(tt: &Vec<u8>, ti: &Vec<u8>, j: usize, e: usize) -> (r: [u8; 3])
    requires
        j < e <= tt@.len(),
        tt@.len() == ti@.len(),
    ensures
        r@ == group_cvc(Seq::new(tt@.len() as nat, |k: int| (tt@[k], ti@[k])).subrange(j as int, e as int)),
{
    let ghost g = Seq::new(tt@.len() as nat, |k: int| (tt@[k], ti@[k])).subrange(j as int, e as int);
    let n = e - j;
    let r = if n == 2 {
        if tt[j] == 0 && tt[j + 1] == 2 {
            [ti[j], ti[j + 1], 1u8]
        } else if tt[j] == 2 && tt[j + 1] == 3 {
            [13u8, ti[j], ti[j + 1]]
        } else {
            [0u8, 0u8, 0u8]
        }
    } else if n == 3 {
        [ti[j], ti[j + 1], ti[j + 2]]
    } else if n == 1 {
        if tt[j] == 0 {
            [ti[j], 1u8, 1u8]
        } else if tt[j] == 2 {
            [13u8, ti[j], 1u8]
        } else if tt[j] == 3 {
            [1u8, 1u8, ti[j]]
        } else {
            [0u8, 0u8, 0u8]
        }
    } else {
        [0u8, 0u8, 0u8]
    };
    assert(r@ =~= group_cvc(g));
    r
}

/// Reads a romanized string back into jamo index triples.
pub fn conv_pyogi_to_cvc(pyogi: &[u8]) -> (r: Vec<u8>)
    ensures
        r@ == pyogi_cvc(pyogi@),
{
    let n = pyogi.len();
    let ghost p = pyogi@;
    let mut tt: Vec<u8> = Vec::new();
    let mut ti: Vec<u8> = Vec::new();
    let mut i: usize = 0;
    while i < n
        invariant_except_break
            tokens_from(p, 0) == Seq::new(tt@.len() as nat, |k: int| (tt@[k], ti@[k])) + tokens_from(p, i as int),
        invariant
            n == p.len(),
            p == pyogi@,
            i <= n,
            tt@.len() == ti@.len(),
        ensures
            tokens_from(p, 0) == Seq::new(tt@.len() as nat, |k: int| (tt@[k], ti@[k])),
        decreases n - i,
    {
        let ghost toks = Seq::new(tt@.len() as nat, |k: int| (tt@[k], ti@[k]));
        let ghost rest = p.subrange(i as int, n as int);
        let c = cvc_type_from_pyogi(pyogi[i]);
        if c == 1 || c == 2 {
            match search_ssch(&SSCH_JUNG, pyogi, i) {
                Some(idx) => {
                    let e = SSCH_JUNG[idx];
                    tt.push(2u8);
                    ti.push(idx as u8);
                    let step: usize = if e.0 != 0 && e.1 != 0 {
                        2
                    } else {
                        1
                    };
                    proof {
                        let tok = (2u8, idx as u8);
                        assert(ssch_len(e) == 2 <==> step == 2);
                        assert(best_prefix(SSCH_JUNG, rest, 32) == Some(idx as int));
                        assert(e == SSCH_JUNG@[idx as int]);
                        assert(pyogi_class(p[i as int]) == c);
                        assert(tokens_from(p, i as int) == seq![tok] + tokens_from(p, i + step));
                        assert(Seq::new(tt@.len() as nat, |k: int| (tt@[k], ti@[k])) =~= toks + seq![tok]);
                        assert(toks + (seq![tok] + tokens_from(p, i + step)) =~= (toks + seq![tok]) + tokens_from(p, i + step));
                    }
                    i = i + step;
                },
                None => {
                    proof {
                        assert(tokens_from(p, i as int) == Seq::<(u8, u8)>::empty());
                        assert(toks + Seq::<(u8, u8)>::empty() =~= toks);
                    }
                    break;
                },
            }
        } else if c == 3 {
            match search_ssch(&SSCH_JONG, pyogi, i) {
                Some(idx) => {
                    let e = SSCH_JONG[idx];
                    tt.push(3u8);
                    ti.push(idx as u8);
                    let step: usize = if e.0 != 0 && e.1 != 0 {
                        2
                    } else {
                        1
                    };
                    proof {
                        let tok = (3u8, idx as u8);
                        assert(ssch_len(e) == 2 <==> step == 2);
                        assert(best_prefix(SSCH_JONG, rest, 32) == Some(idx as int));
                        assert(e == SSCH_JONG@[idx as int]);
                        assert(pyogi_class(p[i as int]) == c);
                        assert(tokens_from(p, i as int) == seq![tok] + tokens_from(p, i + step));
                        assert(Seq::new(tt@.len() as nat, |k: int| (tt@[k], ti@[k])) =~= toks + seq![tok]);
                        assert(toks + (seq![tok] + tokens_from(p, i + step)) =~= (toks + seq![tok]) + tokens_from(p, i + step));
                    }
                    i = i + step;
                },
                None => {
                    proof {
                        assert(tokens_from(p, i as int) == Seq::<(u8, u8)>::empty());
                        assert(toks + Seq::<(u8, u8)>::empty() =~= toks);
                    }
                    break;
                },
            }
        } else if c == 4 {
            proof {
                assert(tokens_from(p, i as int) == tokens_from(p, i + 1));
            }
            i = i + 1;
        } else {
            match search_ssch(&SSCH_CHO, pyogi, i) {
                Some(idx) => {
                    tt.push(0u8);
                    ti.push(idx as u8);
                    proof {
                        let tok = (0u8, idx as u8);
                        assert(tokens_from(p, i as int) == seq![tok] + tokens_from(p, i + 1));
                        assert(Seq::new(tt@.len() as nat, |k: int| (tt@[k], ti@[k])) =~= toks + seq![tok]);
                        assert(toks + (seq![tok] + tokens_from(p, i + 1)) =~= (toks + seq![tok]) + tokens_from(p, i + 1));
                    }
                    i = i + 1;
                },
                None => {
                    proof {
                        assert(tokens_from(p, i as int) == Seq::<(u8, u8)>::empty());
                        assert(toks + Seq::<(u8, u8)>::empty() =~= toks);
                    }
                    break;
                },
            }
        }
    }
    let ghost toks = Seq::new(tt@.len() as nat, |k: int| (tt@[k], ti@[k]));
    let nt = tt.len();
    let mut out: Vec<u8> = Vec::new();
    let mut j: usize = 0;
    while j < nt
        invariant
            nt == tt@.len() == ti@.len(),
            toks == Seq::new(tt@.len() as nat, |k: int| (tt@[k], ti@[k])),
            j <= nt,
            out@ + groups_from(toks, j as int) == groups_from(toks, 0),
        decreases nt - j,
    {
        let mut e = j + 1;
        while e < nt && ((tt[e - 1] == 0 && tt[e] == 2) || (tt[e - 1] == 2 && tt[e] == 3))
            invariant
                nt == tt@.len() == ti@.len(),
                toks == Seq::new(tt@.len() as nat, |k: int| (tt@[k], ti@[k])),
                j < e <= nt,
                run_end(toks, j + 1) == run_end(toks, e as int),
            decreases nt - e,
        {
            e = e + 1;
        }
        proof {
            lemma_run_end(toks, j + 1);
            assert(run_end(toks, e as int) == e);
        }
        let g = group_triple(&tt, &ti, j, e);
        let ghost before = out@;
        out.push(g[0]);
        out.push(g[1]);
        out.push(g[2]);
        proof {
            assert(out@ =~= before + g@);
            assert(before + g@ + groups_from(toks, e as int) =~= before + groups_from(toks, j as int));
        }
        j = e;
    }
    proof {
        assert(out@ + Seq::<u8>::empty() =~= out@);
    }
    out
}

/// Reads a romanized string back into syllables.
pub fn conv_pyogi_to_uni_wan(pyogi: &[u8]) -> (r: Vec<u16>)
    requires
        forall|i: int|
            0 <= i < pyogi_cvc(pyogi@).len() / 3 ==> #[trigger] triple_ok(
                pyogi_cvc(pyogi@)[3 * i],
                pyogi_cvc(pyogi@)[3 * i + 1],
                pyogi_cvc(pyogi@)[3 * i + 2],
            ),
    ensures
        r@ == cvc_wan(pyogi_cvc(pyogi@)),
{
    let cvc = conv_pyogi_to_cvc(pyogi);
    conv_cvc_to_uni_wan(cvc.as_slice())
}

/// Number of syllables of a romanized word (see `crate::posngram::get_kchar_count`).
pub fn get_kchar_count(s: &[u8]) -> (n: usize)
    ensures
        n == crate::posngram::kchar_from(s@, 0),
{
    crate::posngram::get_kchar_count(s)
}

proof fn lemma_pyogi_shift(c: Seq<u8>, t: Seq<u8>, j: int)
    requires
        0 <= j,
    ensures
        cvc_pyogi_from(c + t, c.len() + j) == cvc_pyogi_from(t, j),
    decreases t.len() - j,
{
    let s = c + t;
    if j + 2 < t.len() {
        assert(s[c.len() + j] == t[j]);
        assert(s[c.len() + j + 1] == t[j + 1]);
        assert(s[c.len() + j + 2] == t[j + 2]);
        lemma_pyogi_shift(c, t, j + 3);
        assert(c.len() + j + 3 == c.len() + (j + 3));
    }
}

proof fn lemma_pyogi_concat(c: Seq<u8>, t: Seq<u8>, i: int)
    requires
        0 <= i <= c.len(),
        (c.len() - i) % 3 == 0,
    ensures
        cvc_pyogi_from(c + t, i) == cvc_pyogi_from(c, i) + cvc_pyogi_from(t, 0),
    decreases c.len() - i,
{
    let s = c + t;
    if i == c.len() {
        lemma_pyogi_shift(c, t, 0);
        assert(cvc_pyogi_from(c, i) =~= Seq::<u8>::empty());
        assert(Seq::<u8>::empty() + cvc_pyogi_from(t, 0) =~= cvc_pyogi_from(t, 0));
    } else {
        assert(s[i] == c[i] && s[i + 1] == c[i + 1] && s[i + 2] == c[i + 2]);
        lemma_pyogi_concat(c, t, i + 3);
        assert(triple_pyogi(c[i], c[i + 1], c[i + 2]) + (cvc_pyogi_from(c, i + 3) + cvc_pyogi_from(t, 0))
            =~= (triple_pyogi(c[i], c[i + 1], c[i + 2]) + cvc_pyogi_from(c, i + 3)) + cvc_pyogi_from(t, 0));
    }
}

/// Law: the romanization of jamo triples is that of each triple in turn, and where a
/// triple's final is a two-letter compound (such as the `LG` of a final ㄺ), the
/// romanization of the triple ends with both letters of that final.
pub proof fn law_compound_final(c: Seq<u8>, a: u8, b: u8, d: u8)
    requires
        c.len() % 3 == 0,
        d < 32,
        JONG_TWO@[d as int] != 0,
    ensures
        cvc_pyogi_from(c + seq![a, b, d], 0) == cvc_pyogi_from(c, 0) + cvc_pyogi_from(seq![a, b, d], 0),
        ({
            let r = cvc_pyogi_from(c + seq![a, b, d], 0);
            &&& r.len() >= 2
            &&& r[r.len() - 2] == JONG_ONE@[d as int]
            &&& r[r.len() - 1] == JONG_TWO@[d as int]
        }),
{
    reveal(tbl);
    let t = seq![a, b, d];
    lemma_pyogi_concat(c, t, 0);
    assert(cvc_pyogi_from(t, 3) =~= Seq::<u8>::empty());
    assert(JONG_ONE@[d as int] != 0) by {
        assert(JONG_TWO@[d as int] != 0);
        if d == 4 { } else if d == 6 { } else if d == 7 { } else if d == 10 { } else if d == 11 { }
        else if d == 12 { } else if d == 13 { } else if d == 14 { } else if d == 15 { } else if d == 16 { }
        else if d == 20 { } else {
            assert(JONG_TWO@[d as int] == 0);
        }
    }
    let tail = seq![JONG_ONE@[d as int], JONG_TWO@[d as int]];
    assert(triple_pyogi(a, b, d) == opt_letter(tbl(CHOSONG, a)) + (if tbl(JUNG_ONE, b) != 0 {
        seq![tbl(JUNG_ONE, b)] + opt_letter(tbl(JUNG_TWO, b))
    } else {
        Seq::empty()
    }) + tail);
    let r = cvc_pyogi_from(c + t, 0);
    assert(cvc_pyogi_from(t, 0) == triple_pyogi(a, b, d) + Seq::<u8>::empty());
    assert(r.len() >= 2);
    assert(r[r.len() - 2] == tail[0]);
    assert(r[r.len() - 1] == tail[1]);
}

/// Law: where a triple's vowel is written with two letters (such as the `wa` of ㅘ) and
/// it has no final, the romanization of the triple ends with both letters of that vowel.
pub proof fn law_compound_vowel(c: Seq<u8>, a: u8, b: u8, d: u8)
    requires
        c.len() % 3 == 0,
        b < 32,
        d < 32,
        JUNG_TWO@[b as int] != 0,
        JONG_ONE@[d as int] == 0,
    ensures
        ({
            let r = cvc_pyogi_from(c + seq![a, b, d], 0);
            &&& r.len() >= 2
            &&& r[r.len() - 2] == JUNG_ONE@[b as int]
            &&& r[r.len() - 1] == JUNG_TWO@[b as int]
        }),
{
    reveal(tbl);
    let t = seq![a, b, d];
    lemma_pyogi_concat(c, t, 0);
    assert(cvc_pyogi_from(t, 3) =~= Seq::<u8>::empty());
    assert(JUNG_ONE@[b as int] != 0) by {
        if b == 5 { } else if b == 6 { } else if b == 11 { } else if b == 12 { } else if b == 14 { }
        else if b == 15 { } else if b == 18 { } else if b == 19 { } else if b == 21 { } else if b == 22 { }
        else if b == 23 { } else if b == 26 { } else if b == 28 { } else {
            assert(JUNG_TWO@[b as int] == 0);
        }
    }
    let tail = seq![JUNG_ONE@[b as int], JUNG_TWO@[b as int]];
    assert(triple_pyogi(a, b, d) == opt_letter(tbl(CHOSONG, a)) + tail + Seq::<u8>::empty());
    let r = cvc_pyogi_from(c + t, 0);
    assert(cvc_pyogi_from(t, 0) == triple_pyogi(a, b, d) + Seq::<u8>::empty());
    assert(r.len() >= 2);
    assert(r[r.len() - 2] == tail[0]);
    assert(r[r.len() - 1] == tail[1]);
}

} // verus!
