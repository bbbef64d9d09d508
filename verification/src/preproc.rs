//! Helpers of the pre-processing of analysed words: symbol runs to drop, date and time
//! ranges, hexadecimal digits, and the jamo position table of a word.
use vstd::prelude::*;
use crate::tables::{CHO_POS_TBL, JONG_POS_TBL, JUNG_POS_TBL, KS_JOHAB, UNI_JONG_ID, UNI_JUNG_ID};

verus! {

/// The low bytes of a UTF-16 string.
pub open spec fn low_bytes_w(s: Seq<u16>) -> Seq<u8> {
    s.map_values(|c: u16| (c % 256) as u8)
}

/// The low bytes start with `p`.
pub open spec fn starts_low(s: Seq<u16>, p: Seq<u8>) -> bool {
    p.len() <= s.len() && low_bytes_w(s).subrange(0, p.len() as int) == p
}

/// A word that is dropped as a symbol run: starting `**`, `//`, `/*` or `*/`, or just `-`
/// or `:` (by the low byte of each unit).
pub open spec fn remove_symbol(s: Seq<u16>) -> bool {
    starts_low(s, seq![0x2au8, 0x2a]) || starts_low(s, seq![0x2fu8, 0x2f]) || starts_low(
        s,
        seq![0x2fu8, 0x2a],
    ) || starts_low(s, seq![0x2au8, 0x2f]) || low_bytes_w(s) == seq![0x2du8] || low_bytes_w(s)
        == seq![0x3au8]
}

fn low(c: u16) -> (r: u8)
    ensures
        r == (c % 256) as u8,
{
    (c % 256) as u8
}

fn starts_low2(pw: &[u16], a: u8, b: u8) -> (r: bool)
    ensures
        r == starts_low(pw@, seq![a, b]),
{
    if pw.len() < 2 {
        return false;
    }
    let r = low(pw[0]) == a && low(pw[1]) == b;
    proof {
        let l = low_bytes_w(pw@).subrange(0, 2);
        if r {
            assert(l =~= seq![a, b]);
        } else {
            assert(l[0] == low_bytes_w(pw@)[0] && l[1] == low_bytes_w(pw@)[1]);
        }
    }
    r
}

fn is_low1(pw: &[u16], a: u8) -> (r: bool)
    ensures
        r == (low_bytes_w(pw@) == seq![a]),
{
    if pw.len() != 1 {
        proof {
            assert(low_bytes_w(pw@).len() != 1);
        }
        return false;
    }
    let r = low(pw[0]) == a;
    proof {
        if r {
            assert(low_bytes_w(pw@) =~= seq![a]);
        } else {
            assert(low_bytes_w(pw@)[0] != seq![a][0]);
        }
    }
    r
}

/// Is the word a symbol run that pre-processing drops.
pub fn is_remove_symbol(pw: &[u16]) -> (b: bool)
    ensures
        b == remove_symbol(pw@),
{
    starts_low2(pw, 0x2a, 0x2a) || starts_low2(pw, 0x2f, 0x2f) || starts_low2(pw, 0x2f, 0x2a)
        || starts_low2(pw, 0x2a, 0x2f) || is_low1(pw, 0x2d) || is_low1(pw, 0x3a)
}

/// A year that is read as a year: 1801 to 3000.
pub fn is_year(n: i32) -> (b: bool)
    ensures
        b == (1801 <= n <= 3000),
{
    1801 <= n && n <= 3000
}

/// A month number: 1 to 12.
pub fn is_month(n: i32) -> (b: bool)
    ensures
        b == (1 <= n <= 12),
{
    1 <= n && n <= 12
}

/// A day of the month: 1 to 31.
pub fn is_day(n: i32) -> (b: bool)
    ensures
        b == (1 <= n <= 31),
{
    1 <= n && n <= 31
}

/// An hour: 0 to 24.
pub fn is_hour(n: i32) -> (b: bool)
    ensures
        b == (0 <= n <= 24),
{
    0 <= n && n <= 24
}

/// A minute or second: 0 to 60.
pub fn is_minute_sec(n: i32) -> (b: bool)
    ensures
        b == (0 <= n <= 60),
{
    0 <= n && n <= 60
}

/// A day that can follow a year and a month: 1 to 31.
pub fn is_link_day(n_year: i32, n_month: i32, n_day: i32) -> (b: bool)
    ensures
        b == (1 <= n_day <= 31),
{
    1 <= n_day && n_day <= 31
}

/// A day that can follow a month: 1 to 31.
pub fn is_link_month(n_month: i32, n_day: i32) -> (b: bool)
    ensures
        b == (1 <= n_day <= 31),
{
    1 <= n_day && n_day <= 31
}

/// A year of the Juche calendar: 1 to 200.
pub fn is_juche_year(n: i32) -> (b: bool)
    ensures
        b == (1 <= n <= 200),
{
    1 <= n && n <= 200
}

/// A hexadecimal digit letter: `a` to `f` or `A` to `F`.
pub open spec fn hex_letter(c: u16) -> bool {
    (0x61 <= c <= 0x66) || (0x41 <= c <= 0x46)
}

/// Is the word made only of the letters `a` to `f` (either case), and not empty.
pub fn is_16_only_digit(pw: &[u16]) -> (b: bool)
    ensures
        b == (pw@.len() > 0 && forall|i: int| 0 <= i < pw@.len() ==> hex_letter(#[trigger] pw@[i])),
{
    if pw.len() == 0 {
        return false;
    }
    let mut i: usize = 0;
    while i < pw.len()
        invariant
            i <= pw@.len(),
            forall|j: int| 0 <= j < i ==> hex_letter(#[trigger] pw@[j]),
        decreases pw@.len() - i,
    {
        let c = pw[i];
        if !((0x61 <= c && c <= 0x66) || (0x41 <= c && c <= 0x46)) {
            return false;
        }
        i = i + 1;
    }
    true
}

/// The (initial, vowel, final) indices of a syllable for the position table: compatibility
/// jamo by their Johab code, precomposed syllables by their Unicode decomposition, every
/// other character (0, 0, 0).
pub open spec fn special_cvc(w: u16) -> Seq<u8> {
    if 0x3131 <= w <= 0x3163 {
        let j = KS_JOHAB[w - 0x3131];
        seq![((j >> 10u16) & 0x1f) as u8, ((j >> 5u16) & 0x1f) as u8, (j & 0x1f) as u8]
    } else if 0xac00 <= w <= 0xac00 + 0x2bff {
        let t = w - 0xac00;
        seq![(t / 588 + 2) as u8, UNI_JUNG_ID[(t % 588) / 28], UNI_JONG_ID[t % 28]]
    } else {
        seq![0u8, 0u8, 0u8]
    }
}

/// The (initial, vowel, final) indices of a syllable for the position table.
pub fn conv_uni_wan_to_cvc_special_pre(w: u16) -> (r: [u8; 3])
    ensures
        r@ == special_cvc(w),
{
    let r = if 0x3131 <= w && w <= 0x3163 {
        let j = KS_JOHAB[(w - 0x3131) as usize];
        [((j >> 10u16) & 0x1f) as u8, ((j >> 5u16) & 0x1f) as u8, (j & 0x1f) as u8]
    } else if 0xac00 <= w && w <= 0xac00 + 0x2bff {
        let t = (w - 0xac00) as usize;
        [(t / 588 + 2) as u8, UNI_JUNG_ID[(t % 588) / 28], UNI_JONG_ID[t % 28]]
    } else {
        [0, 0, 0]
    };
    proof {
        assert(r@ =~= special_cvc(w));
    }
    r
}

/// Width of the initial, the vowel and the final of a syllable.
pub open spec fn cho_w(w: u16) -> int {
    CHO_POS_TBL[special_cvc(w)[0] as int] as int
}

pub open spec fn jung_w(w: u16) -> int {
    JUNG_POS_TBL[special_cvc(w)[1] as int] as int
}

pub open spec fn jong_w(w: u16) -> int {
    JONG_POS_TBL[special_cvc(w)[2] as int] as int
}

/// Total width of the first `n` syllables.
pub open spec fn width_upto(s: Seq<u16>, n: int) -> int
    decreases n,
{
    if n <= 0 {
        0
    } else {
        width_upto(s, n - 1) + cho_w(s[n - 1]) + jung_w(s[n - 1]) + jong_w(s[n - 1])
    }
}

proof fn lemma_indices_small(w: u16)
    ensures
        special_cvc(w)[0] < 32,
        special_cvc(w)[1] < 32,
        special_cvc(w)[2] < 32,
{
    let c = special_cvc(w);
    if 0x3131 <= w <= 0x3163 {
        let j = KS_JOHAB[w - 0x3131];
        assert((j >> 10u16) & 0x1f < 32) by (bit_vector);
        assert((j >> 5u16) & 0x1f < 32) by (bit_vector);
        assert(j & 0x1f < 32) by (bit_vector);
    } else if 0xac00 <= w <= 0xac00 + 0x2bff {
        let t = w - 0xac00;
        assert(t / 588 + 2 < 32);
        assert(forall|k: int| 0 <= k < 21 ==> UNI_JUNG_ID[k] < 32);
        assert(forall|k: int| 0 <= k < 28 ==> UNI_JONG_ID[k] < 32);
    }
}

proof fn lemma_width_mono(s: Seq<u16>, a: int, b: int)
    requires
        0 <= a <= b <= s.len(),
    ensures
        width_upto(s, a) <= width_upto(s, b),
        width_upto(s, a) >= 0,
    decreases b,
{
    if a < b {
        lemma_width_mono(s, a, b - 1);
        lemma_indices_small(s[b - 1]);
        assert(forall|k: int| 0 <= k < 32 ==> CHO_POS_TBL[k] >= 0 && JUNG_POS_TBL[k] >= 0 && JONG_POS_TBL[k] >= 0);
    } else if a > 0 {
        lemma_width_mono(s, a - 1, a - 1);
        lemma_indices_small(s[a - 1]);
        assert(forall|k: int| 0 <= k < 32 ==> CHO_POS_TBL[k] >= 0 && JUNG_POS_TBL[k] >= 0 && JONG_POS_TBL[k] >= 0);
    }
}

/// The jamo position table of a word: for syllable `i`, the offsets at which its initial,
/// vowel and final end, counted in width units from the start of the word, then two
/// zeros.
pub open spec fn cvc_table(s: Seq<u16>) -> Seq<i16> {
    Seq::new(
        3 * s.len() + 2,
        |k: int|
            if k >= 3 * s.len() {
                0i16
            } else {
                let i = k / 3;
                let w = s[i];
                (width_upto(s, i) + cho_w(w) + if k % 3 >= 1 { jung_w(w) } else { 0 } + if k % 3 == 2 {
                    jong_w(w)
                } else {
                    0
                }) as i16
            },
    )
}

/// Builds the jamo position table of a word.
pub fn set_word_cvc_table(pw_str: &[u16]) -> (r: Vec<i16>)
    requires
        width_upto(pw_str@, pw_str@.len() as int) <= i16::MAX,
    ensures
        r@ == cvc_table(pw_str@),
{
    let n = pw_str.len();
    let ghost s = pw_str@;
    proof {
        lemma_width_mono(s, 0, n as int);
    }
    let mut table: Vec<i16> = Vec::new();
    let mut acc: i16 = 0;
    let mut i: usize = 0;
    while i < n
        invariant
            n == s.len(),
            s == pw_str@,
            i <= n,
            width_upto(s, n as int) <= i16::MAX,
            acc as int == width_upto(s, i as int),
            table@.len() == 3 * i,
            forall|k: int| 0 <= k < 3 * i ==> table@[k] == cvc_table(s)[k],
        decreases n - i,
    {
        let w = pw_str[i];
        let cvc = conv_uni_wan_to_cvc_special_pre(w);
        proof {
            lemma_indices_small(w);
            lemma_width_mono(s, i + 1, n as int);
            lemma_width_mono(s, i as int, i + 1);
            assert(cvc@[0] == cvc[0] && cvc@[1] == cvc[1] && cvc@[2] == cvc[2]);
            assert(forall|k: int| 0 <= k < 32 ==> CHO_POS_TBL[k] >= 0 && JUNG_POS_TBL[k] >= 0 && JONG_POS_TBL[k] >= 0);
        }
        let cho = CHO_POS_TBL[cvc[0] as usize];
        let jung = JUNG_POS_TBL[cvc[1] as usize];
        let jong = JONG_POS_TBL[cvc[2] as usize];
        table.push(acc + cho);
        table.push(acc + cho + jung);
        acc = acc + cho + jung + jong;
        table.push(acc);
        proof {
            assert forall|k: int| 0 <= k < 3 * (i + 1) implies table@[k] == cvc_table(s)[k] by {
                if k >= 3 * i {
                    assert(k / 3 == i);
                }
            }
        }
        i = i + 1;
    }
    table.push(0);
    table.push(0);
    proof {
        assert(table@ =~= cvc_table(s));
    }
    table
}

} // verus!
