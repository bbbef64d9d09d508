//! Reading numbers aloud in romanized Korean: Sino-Korean readings by units of ten
//! thousand, native readings up to two digits, digit-by-digit readings and hexadecimal.
use vstd::prelude::*;
use crate::text::string_push;

verus! {

/// Sino-Korean digit names.
pub const ONE_DIGIT_KOR: [&'static str; 10] = [
    "go*", "iL", "i", "saM", "sa", "o", "yuG", "ciL", "paL", "gu",
];

/// Sino-Korean digit names as used in month names.
pub const ONE_DIGIT1_KOR: [&'static str; 10] = [
    "go*", "iL", "i", "saM", "sa", "o", "yu", "ciL", "paL", "gu",
];

/// Names of ten, hundred and thousand.
pub const DIGIT_LOW_UNIT: [&'static str; 4] = ["", "siB", "b8G", "ceN"];

/// Names of ten, hundred and thousand as used in month names.
pub const DIGIT1_LOW_UNIT: [&'static str; 4] = ["", "si", "b8G", "ceN"];

/// Names of the powers of ten thousand.
pub const DIGIT_HIGH_UNIT: [&'static str; 8] = ["", "maN", "eG", "jo", "gye*", "h8", "se", "ya*"];

/// Native names of the tens.
pub const TEN_DIGIT_KOR: [&'static str; 10] = [
    "", "yeL", "s_muL", "sel_N", "mah_N", "swuN", "y9suN", "iLh_N", "yed_N", "ah_N",
];

/// Native names of the units.
pub const TEN_DIGIT1_KOR: [&'static str; 10] = [
    "", "haN", "du", "s9", "n9", "daseS", "yeseS", "iLgoB", "yedeLB", "ahoB",
];

/// Names of the Latin letters.
pub const ENG_KOR: [&'static str; 26] = [
    "9i", "bi", "vi", "di", "i", "9p_", "jwu", "9cwu", "ai", "j9i", "k9i", "9L", "9M", "9N", "o",
    "pi", "kyu", "al_", "9v_", "ti", "yu", "b_i", "deb_Llyu", "9Gs_", "wai", "j9t_",
];

/// An ASCII digit.
pub open spec fn is_digit(c: u8) -> bool {
    0x30 <= c <= 0x39
}

/// Every byte is an ASCII digit.
pub open spec fn all_digits(d: Seq<u8>) -> bool {
    forall|i: int| 0 <= i < d.len() ==> is_digit(#[trigger] d[i])
}

/// No non-zero digit stands at a position whose unit of ten thousand has no name.
pub open spec fn units_named(d: Seq<u8>, last: int) -> bool {
    forall|n: int|
        0 <= n < d.len() && #[trigger] d[n] != 0x30 && (last - n) >= 0 && (last - n) % 4 == 0 ==> (
        last - n) < 32
}

/// The reading of digit `n`, with `rest` digits after it out of `n_last`.
pub open spec fn pron_digit(
    d: Seq<u8>,
    n: int,
    rest: int,
    n_last: int,
    f_flag: bool,
    one: [&str; 10],
    low: [&str; 4],
) -> Seq<char> {
    let c = d[n];
    if c == 0x30 {
        if n + 1 < d.len() && d[n + 1] == 0x30 {
            Seq::empty()
        } else if !f_flag {
            Seq::empty()
        } else if rest % 4 == 0 {
            Seq::empty()
        } else {
            "go* "@
        }
    } else {
        let named = rest == n_last || rest % 4 != 0;
        let u3 = if named && rest != 0 {
            rest % 4
        } else {
            0
        };
        let skip = named && rest != 0 && c == 0x31;
        (if skip {
            Seq::empty()
        } else {
            one@[c - 0x30]@
        }) + if u3 == 0 {
            DIGIT_HIGH_UNIT@[rest / 4]@ + if rest / 4 != 0 {
                seq!['\t']
            } else {
                Seq::empty()
            }
        } else {
            low@[rest % 4]@ + if rest % 4 > 1 {
                seq![' ']
            } else {
                Seq::empty()
            }
        }
    }
}

fn digit_to_pron(
    d: &[u8],
    n: usize,
    rest: usize,
    n_last: usize,
    out: &mut String,
    f_flag: bool,
    one: &[&str; 10],
    low: &[&str; 4],
)
    requires
        n < d@.len(),
        is_digit(d@[n as int]),
        d@[n as int] != 0x30 && rest % 4 == 0 ==> rest < 32,
    ensures
        final(out)@ == old(out)@ + pron_digit(d@, n as int, rest as int, n_last as int, f_flag, *one, *low),
{
    let c = d[n];
    if c == 0x30 {
        if n + 1 < d.len() && d[n + 1] == 0x30 {
            return;
        }
        if !f_flag {
            return;
        }
        if rest % 4 == 0 {
            return;
        }
        out.append("go* ");
        return;
    }
    let mut u_var3: usize = 0;
    let mut skip_digit = false;
    if rest == n_last || rest % 4 != 0 {
        u_var3 = rest % 4;
        if rest == 0 {
            u_var3 = 0;
        } else if c == 0x31 {
            skip_digit = true;
        }
    }
    let ghost start = out@;
    if !skip_digit {
        out.append(one[(c - 0x30) as usize]);
    }
    let ghost mid = out@;
    if u_var3 == 0 {
        let i_var4 = rest / 4;
        out.append(DIGIT_HIGH_UNIT[i_var4]);
        if i_var4 != 0 {
            string_push(out, '\t');
        }
    } else {
        out.append(low[rest % 4]);
        if 1 < rest % 4 {
            string_push(out, ' ');
        }
    }
    proof {
        let p = pron_digit(d@, n as int, rest as int, n_last as int, f_flag, *one, *low);
        assert(out@ =~= old(out)@ + p);
    }
}

/// The readings of the digits from `n` on, each with its count of digits after it.
pub open spec fn china_from(d: Seq<u8>, n: int, last: int, f_flag: bool, one: [&str; 10], low: [&str; 4]) -> Seq<char>
    decreases d.len() - n,
{
    if n < 0 || n >= d.len() {
        Seq::empty()
    } else {
        pron_digit(d, n, last - n, last, f_flag, one, low) + china_from(d, n + 1, last, f_flag, one, low)
    }
}

/// The Sino-Korean reading of a digit string with the given digit and unit names: zero is
/// `lye*`, and so is any string whose reading comes out empty.
pub open spec fn china_pron(d: Seq<u8>, one: [&str; 10], low: [&str; 4]) -> Seq<char> {
    let r = if d.len() == 1 {
        if d[0] == 0x30 {
            "lye*"@
        } else {
            pron_digit(d, 0, 0, 0, true, one, low)
        }
    } else {
        china_from(d, 0, d.len() - 1, d.len() != 4, one, low)
    };
    if r.len() == 0 {
        "lye*"@
    } else {
        r
    }
}

/// Sino-Korean reading with the given digit and unit names.
pub fn digit_to_china_pron_tbl(pch_str: &[u8], out: &mut String, one_tbl: &[&str; 10], low_tbl: &[&str; 4])
    requires
        all_digits(pch_str@),
        units_named(pch_str@, pch_str@.len() - 1),
    ensures
        final(out)@ == china_pron(pch_str@, *one_tbl, *low_tbl),
{
    *out = String::new();
    let len = pch_str.len();
    if len == 1 {
        if pch_str[0] == 0x30 {
            out.append("lye*");
            return;
        }
        digit_to_pron(pch_str, 0, 0, 0, out, true, one_tbl, low_tbl);
        proof {
            assert(out@ =~= pron_digit(pch_str@, 0, 0, 0, true, *one_tbl, *low_tbl));
        }
    } else {
        let last: usize = if len >= 1 {
            len - 1
        } else {
            0
        };
        let f_flag = len != 4;
        let mut n: usize = 0;
        proof {
            assert(out@ =~= Seq::<char>::empty());
        }
        while n < len
            invariant
                len == pch_str@.len(),
                len != 1,
                last == if len >= 1 {
                    len - 1
                } else {
                    0
                },
                f_flag == (len != 4),
                n <= len,
                all_digits(pch_str@),
                units_named(pch_str@, pch_str@.len() - 1),
                out@ + china_from(pch_str@, n as int, last as int, f_flag, *one_tbl, *low_tbl)
                    == china_from(pch_str@, 0, pch_str@.len() - 1, f_flag, *one_tbl, *low_tbl),
            decreases len - n,
        {
            let ghost before = out@;
            assert(is_digit(pch_str@[n as int]));
            digit_to_pron(pch_str, n, last - n, last, out, f_flag, one_tbl, low_tbl);
            proof {
                assert(before + china_from(pch_str@, n as int, last as int, f_flag, *one_tbl, *low_tbl) =~= out@ + china_from(pch_str@, n + 1, last as int, f_flag, *one_tbl, *low_tbl));
            }
            n = n + 1;
        }
        proof {
            assert(out@ + Seq::<char>::empty() =~= out@);
        }
    }
    if out.as_str().is_empty() {
        out.append("lye*");
    }
}

/// Sino-Korean reading of a digit string.
pub fn digit_to_china_pron(pch_str: &[u8], out: &mut String)
    requires
        all_digits(pch_str@),
        units_named(pch_str@, pch_str@.len() - 1),
    ensures
        final(out)@ == china_pron(pch_str@, ONE_DIGIT_KOR, DIGIT_LOW_UNIT),
{
    digit_to_china_pron_tbl(pch_str, out, &ONE_DIGIT_KOR, &DIGIT_LOW_UNIT);
}

/// The native reading of digit `n` of a string whose last index is `last`.
pub open spec fn kor_digit(d: Seq<u8>, n: int, last: int) -> Seq<char> {
    let rest = if last - n >= 0 {
        last - n
    } else {
        0
    };
    if n + 2 < d.len() {
        pron_digit(d, n, rest, last, true, ONE_DIGIT_KOR, DIGIT_LOW_UNIT)
    } else if rest == 1 {
        let c = d[n];
        if c == 0x32 {
            if d[n + 1] == 0x30 {
                "s_mu"@
            } else {
                TEN_DIGIT_KOR@[2]@
            }
        } else if c == 0x30 && d[n + 1] != 0x30 {
            "go* "@
        } else {
            TEN_DIGIT_KOR@[c - 0x30]@
        }
    } else if rest == 0 {
        TEN_DIGIT1_KOR@[d[n] - 0x30]@
    } else {
        Seq::empty()
    }
}

/// The native readings of the digits from `n` on.
pub open spec fn kor_from(d: Seq<u8>, n: int, last: int) -> Seq<char>
    decreases d.len() - n,
{
    if n < 0 || n >= d.len() {
        Seq::empty()
    } else {
        kor_digit(d, n, last) + kor_from(d, n + 1, last)
    }
}

/// The native reading of a digit string: zero and empty readings are `lye*`.
pub open spec fn korean_pron(d: Seq<u8>) -> Seq<char> {
    let r = if d.len() == 1 && d[0] == 0x30 {
        "lye*"@
    } else if d.len() >= 1 {
        kor_from(d, 0, d.len() - 1)
    } else {
        Seq::empty()
    };
    if r.len() == 0 {
        "lye*"@
    } else {
        r
    }
}

/// Native Korean reading of a digit string (meant for one or two digits).
pub fn digit_to_korean_pron(pch_digit: &[u8], out: &mut String)
    requires
        all_digits(pch_digit@),
        units_named(pch_digit@, pch_digit@.len() - 1),
    ensures
        final(out)@ == korean_pron(pch_digit@),
{
    *out = String::new();
    let len = pch_digit.len();
    if len == 1 && pch_digit[0] == 0x30 {
        out.append("lye*");
    } else if len >= 1 {
        let last = len - 1;
        let mut n: usize = 0;
        proof {
            assert(out@ =~= Seq::<char>::empty());
        }
        while n < len
            invariant
                len == pch_digit@.len(),
                len >= 1,
                last == len - 1,
                n <= len,
                all_digits(pch_digit@),
                units_named(pch_digit@, pch_digit@.len() - 1),
                out@ + kor_from(pch_digit@, n as int, last as int) == kor_from(pch_digit@, 0, last as int),
            decreases len - n,
        {
            let ghost before = out@;
            let rest = last - n;
            assert(is_digit(pch_digit@[n as int]));
            if len - n > 2 {
                digit_to_pron(pch_digit, n, rest, last, out, true, &ONE_DIGIT_KOR, &DIGIT_LOW_UNIT);
            } else if rest == 1 {
                let c = pch_digit[n];
                if c == 0x32 {
                    if pch_digit[n + 1] == 0x30 {
                        out.append("s_mu");
                    } else {
                        out.append(TEN_DIGIT_KOR[2]);
                    }
                } else if c == 0x30 && pch_digit[n + 1] != 0x30 {
                    out.append("go* ");
                } else {
                    out.append(TEN_DIGIT_KOR[(c - 0x30) as usize]);
                }
            } else if rest == 0 {
                out.append(TEN_DIGIT1_KOR[(pch_digit[n] - 0x30) as usize]);
            }
            proof {
                assert(out@ =~= before + kor_digit(pch_digit@, n as int, last as int));
                assert(before + kor_from(pch_digit@, n as int, last as int) =~= out@ + kor_from(pch_digit@, n + 1, last as int));
            }
            n = n + 1;
        }
        proof {
            assert(out@ + Seq::<char>::empty() =~= out@);
        }
    }
    if out.as_str().is_empty() {
        out.append("lye*");
    }
}

/// Decimal digits of a number, most significant first.
pub open spec fn dec(v: nat) -> Seq<u8>
    decreases v,
{
    if v < 10 {
        seq![(0x30 + v) as u8]
    } else {
        dec(v / 10).push((0x30 + v % 10) as u8)
    }
}

/// Ten to the power `k`.
pub open spec fn p10(k: nat) -> nat
    decreases k,
{
    if k == 0 {
        1
    } else {
        10 * p10((k - 1) as nat)
    }
}

proof fn lemma_dec_digits(v: nat, k: nat)
    requires
        1 <= k,
        v < p10(k),
    ensures
        all_digits(dec(v)),
        1 <= dec(v).len() <= k,
    decreases v,
{
    if v >= 10 {
        assert(k >= 2) by {
            if k == 1 {
                assert(p10(1) == 10) by {
                    assert(p10(0) == 1);
                }
            }
        }
        assert(v / 10 < p10((k - 1) as nat));
        lemma_dec_digits(v / 10, (k - 1) as nat);
    }
}

/// The decimal digits of a number.
pub fn decimal_bytes(v: u32) -> (r: Vec<u8>)
    ensures
        r@ == dec(v as nat),
    decreases v,
{
    if v < 10 {
        let mut r: Vec<u8> = Vec::new();
        r.push((0x30 + v) as u8);
        assert(r@ =~= dec(v as nat));
        r
    } else {
        let mut r = decimal_bytes(v / 10);
        r.push((0x30 + v % 10) as u8);
        r
    }
}

proof fn lemma_p10_10()
    ensures
        p10(10) == 10000000000,
{
    reveal_with_fuel(p10, 11);
}

proof fn lemma_dec_named(v: nat)
    requires
        v < 0x8000_0000,
    ensures
        all_digits(dec(v)),
        units_named(dec(v), dec(v).len() - 1),
{
    lemma_p10_10();
    lemma_dec_digits(v, 10);
}

/// Sino-Korean reading of a non-negative number.
pub fn digit_to_china_pron_value(n_digit: i32) -> (r: String)
    requires
        n_digit >= 0,
    ensures
        r@ == china_pron(dec(n_digit as nat), ONE_DIGIT_KOR, DIGIT_LOW_UNIT),
{
    let s = decimal_bytes(n_digit as u32);
    proof {
        lemma_dec_named(n_digit as nat);
    }
    let mut out = String::new();
    digit_to_china_pron(s.as_slice(), &mut out);
    out
}

/// Sino-Korean reading of a non-negative number with the month-name forms.
pub fn digit_to_china_pron_value_special(n_digit: i32) -> (r: String)
    requires
        n_digit >= 0,
    ensures
        r@ == china_pron(dec(n_digit as nat), ONE_DIGIT1_KOR, DIGIT1_LOW_UNIT),
{
    let s = decimal_bytes(n_digit as u32);
    proof {
        lemma_dec_named(n_digit as nat);
    }
    let mut out = String::new();
    digit_to_china_pron_tbl(s.as_slice(), &mut out, &ONE_DIGIT1_KOR, &DIGIT1_LOW_UNIT);
    out
}

/// Native Korean reading of a non-negative number.
pub fn digit_to_korean_pron_value(n_digit: i32) -> (r: String)
    requires
        n_digit >= 0,
    ensures
        r@ == korean_pron(dec(n_digit as nat)),
{
    let s = decimal_bytes(n_digit as u32);
    proof {
        lemma_dec_named(n_digit as nat);
    }
    let mut out = String::new();
    digit_to_korean_pron(s.as_slice(), &mut out);
    out
}

/// The digit names of the digits of `d` from `i` on, one after another.
pub open spec fn one_by_one(d: Seq<u8>, i: int) -> Seq<char>
    decreases d.len() - i,
{
    if i < 0 || i >= d.len() {
        Seq::empty()
    } else {
        ONE_DIGIT_KOR@[d[i] - 0x30]@ + one_by_one(d, i + 1)
    }
}

fn push_one_by_one(d: &[u8], out: &mut String)
    requires
        all_digits(d@),
    ensures
        final(out)@ == old(out)@ + one_by_one(d@, 0),
{
    let mut i: usize = 0;
    while i < d.len()
        invariant
            i <= d@.len(),
            all_digits(d@),
            out@ + one_by_one(d@, i as int) == old(out)@ + one_by_one(d@, 0),
        decreases d@.len() - i,
    {
        let ghost before = out@;
        assert(is_digit(d@[i as int]));
        out.append(ONE_DIGIT_KOR[(d[i] - 0x30) as usize]);
        proof {
            assert(before + one_by_one(d@, i as int) =~= out@ + one_by_one(d@, i + 1));
        }
        i = i + 1;
    }
    proof {
        assert(out@ + Seq::<char>::empty() =~= out@);
    }
}

/// Digit-by-digit reading of a non-negative number.
pub fn digit_to_one_pron_value(n_digit: i32) -> (r: String)
    requires
        n_digit >= 0,
    ensures
        r@ == one_by_one(dec(n_digit as nat), 0),
{
    let s = decimal_bytes(n_digit as u32);
    proof {
        lemma_dec_named(n_digit as nat);
    }
    let mut out = String::new();
    push_one_by_one(s.as_slice(), &mut out);
    proof {
        assert(out@ =~= one_by_one(dec(n_digit as nat), 0));
    }
    out
}

/// Number of leading `'0'` units.
pub open spec fn leading_zeros(w: Seq<u16>, i: int) -> int
    decreases w.len() - i,
{
    if 0 <= i < w.len() && w[i] == 0x30 {
        leading_zeros(w, i + 1)
    } else {
        i
    }
}

/// The units without their leading `'0'`s.
pub fn digit_zero_remove(pw_str: &[u16]) -> (r: Vec<u16>)
    ensures
        r@ == pw_str@.subrange(leading_zeros(pw_str@, 0), pw_str@.len() as int),
{
    let mut i: usize = 0;
    while i < pw_str.len() && pw_str[i] == 0x30
        invariant
            i <= pw_str@.len(),
            leading_zeros(pw_str@, 0) == leading_zeros(pw_str@, i as int),
        decreases pw_str@.len() - i,
    {
        i = i + 1;
    }
    let mut out: Vec<u16> = Vec::new();
    let mut j = i;
    while j < pw_str.len()
        invariant
            i <= j <= pw_str@.len(),
            out@ == pw_str@.subrange(i as int, j as int),
        decreases pw_str@.len() - j,
    {
        out.push(pw_str[j]);
        j = j + 1;
        assert(out@ =~= pw_str@.subrange(i as int, j as int));
    }
    out
}

/// Low byte of each unit.
pub open spec fn low_bytes(w: Seq<u16>) -> Seq<u8> {
    w.map_values(|c: u16| (c % 256) as u8)
}

/// Sino-Korean reading of a digit string of any length, leading zeros dropped.
pub fn digit_to_china_pron_value_large(pw_digit: &[u16]) -> (r: String)
    requires
        ({
            let z = low_bytes(pw_digit@.subrange(leading_zeros(pw_digit@, 0), pw_digit@.len() as int));
            all_digits(z) && units_named(z, z.len() - 1)
        }),
    ensures
        r@ == china_pron(
            low_bytes(pw_digit@.subrange(leading_zeros(pw_digit@, 0), pw_digit@.len() as int)),
            ONE_DIGIT_KOR,
            DIGIT_LOW_UNIT,
        ),
{
    let z = digit_zero_remove(pw_digit);
    let mut s: Vec<u8> = Vec::new();
    let mut i: usize = 0;
    while i < z.len()
        invariant
            i <= z@.len(),
            s@ == low_bytes(z@.subrange(0, i as int)),
        decreases z@.len() - i,
    {
        s.push((z[i] % 256) as u8);
        i = i + 1;
        assert(s@ =~= low_bytes(z@.subrange(0, i as int)));
    }
    proof {
        assert(z@.subrange(0, i as int) =~= z@);
    }
    let mut out = String::new();
    digit_to_china_pron(s.as_slice(), &mut out);
    out
}

/// The digit names of the units from `i` on whose low byte is a digit.
pub open spec fn one_by_one_large(w: Seq<u16>, i: int) -> Seq<char>
    decreases w.len() - i,
{
    if i < 0 || i >= w.len() {
        Seq::empty()
    } else {
        let c = (w[i] % 256) as u8;
        (if is_digit(c) {
            ONE_DIGIT_KOR@[c - 0x30]@
        } else {
            Seq::empty()
        }) + one_by_one_large(w, i + 1)
    }
}

/// Digit-by-digit reading, skipping units whose low byte is not a digit.
pub fn digit_to_one_pron_value_large(pw_digit: &[u16]) -> (r: String)
    ensures
        r@ == one_by_one_large(pw_digit@, 0),
{
    let mut out = String::new();
    let mut i: usize = 0;
    proof {
        assert(out@ =~= Seq::<char>::empty());
    }
    while i < pw_digit.len()
        invariant
            i <= pw_digit@.len(),
            out@ + one_by_one_large(pw_digit@, i as int) == one_by_one_large(pw_digit@, 0),
        decreases pw_digit@.len() - i,
    {
        let ghost before = out@;
        let c = (pw_digit[i] % 256) as u8;
        if 0x30 <= c && c <= 0x39 {
            out.append(ONE_DIGIT_KOR[(c - 0x30) as usize]);
        }
        proof {
            assert(before + one_by_one_large(pw_digit@, i as int) =~= out@ + one_by_one_large(pw_digit@, i + 1));
        }
        i = i + 1;
    }
    proof {
        assert(out@ + Seq::<char>::empty() =~= out@);
    }
    out
}

/// Reading of a decimal number `n1.n2`: the integer part in Sino-Korean, the fraction in
/// Sino-Korean when `f_mode`, else digit by digit.
pub fn decimal_read(n_digit1: i32, n_digit2: i32, f_mode: bool) -> (r: String)
    requires
        n_digit1 >= 0,
        n_digit2 >= 0,
    ensures
        r@ == china_pron(dec(n_digit1 as nat), ONE_DIGIT_KOR, DIGIT_LOW_UNIT) + if f_mode {
            china_pron(dec(n_digit2 as nat), ONE_DIGIT_KOR, DIGIT_LOW_UNIT)
        } else {
            one_by_one(dec(n_digit2 as nat), 0)
        },
{
    let mut out = digit_to_china_pron_value(n_digit1);
    if f_mode {
        let s = digit_to_china_pron_value(n_digit2);
        out.append(s.as_str());
    } else {
        let s = digit_to_one_pron_value(n_digit2);
        out.append(s.as_str());
    }
    out
}

/// Reading of a decimal number given as digit units: the integer part in Sino-Korean,
/// `zeM`, then the fraction digit by digit.
pub fn decimal_read_large(pw_digit1: &[u16], pw_digit2: &[u16]) -> (r: String)
    requires
        ({
            let z = low_bytes(pw_digit1@.subrange(leading_zeros(pw_digit1@, 0), pw_digit1@.len() as int));
            all_digits(z) && units_named(z, z.len() - 1)
        }),
    ensures
        r@ == china_pron(
            low_bytes(pw_digit1@.subrange(leading_zeros(pw_digit1@, 0), pw_digit1@.len() as int)),
            ONE_DIGIT_KOR,
            DIGIT_LOW_UNIT,
        ) + " zeM "@ + one_by_one_large(pw_digit2@, 0),
{
    let mut out = digit_to_china_pron_value_large(pw_digit1);
    out.append(" zeM ");
    let s = digit_to_one_pron_value_large(pw_digit2);
    out.append(s.as_str());
    out
}

/// Names of the hexadecimal digits and letters from `i` on; other units are skipped.
pub open spec fn hex_pron(w: Seq<u16>, i: int) -> Seq<char>
    decreases w.len() - i,
{
    if i < 0 || i >= w.len() {
        Seq::empty()
    } else {
        let c = (w[i] % 256) as u8;
        (if is_digit(c) {
            ONE_DIGIT_KOR@[c - 0x30]@
        } else if 0x41 <= c <= 0x5A {
            ENG_KOR@[c - 0x41]@
        } else if 0x61 <= c <= 0x7A {
            ENG_KOR@[c - 0x61]@
        } else {
            Seq::empty()
        }) + hex_pron(w, i + 1)
    }
}

/// Reads a string of digits and letters one by one.
pub fn digit_to_16_pron(pw_str: &[u16]) -> (r: String)
    ensures
        r@ == hex_pron(pw_str@, 0),
{
    let mut out = String::new();
    let mut i: usize = 0;
    proof {
        assert(out@ =~= Seq::<char>::empty());
    }
    while i < pw_str.len()
        invariant
            i <= pw_str@.len(),
            out@ + hex_pron(pw_str@, i as int) == hex_pron(pw_str@, 0),
        decreases pw_str@.len() - i,
    {
        let ghost before = out@;
        let c = (pw_str[i] % 256) as u8;
        if 0x30 <= c && c <= 0x39 {
            out.append(ONE_DIGIT_KOR[(c - 0x30) as usize]);
        } else if 0x41 <= c && c <= 0x5A {
            out.append(ENG_KOR[(c - 0x41) as usize]);
        } else if 0x61 <= c && c <= 0x7A {
            out.append(ENG_KOR[(c - 0x61) as usize]);
        }
        proof {
            assert(before + hex_pron(pw_str@, i as int) =~= out@ + hex_pron(pw_str@, i + 1));
        }
        i = i + 1;
    }
    proof {
        assert(out@ + Seq::<char>::empty() =~= out@);
    }
    out
}

/// Value of the leading digits from `i` on, given the value `acc` so far, saturating at
/// `i32::MAX`.
pub open spec fn wtoi_from(w: Seq<u16>, i: int, acc: int) -> int
    decreases w.len() - i,
{
    if i < 0 || i >= w.len() || !is_digit((w[i] % 256) as u8) {
        acc
    } else {
        let v = acc * 10 + ((w[i] % 256) as u8 - 0x30);
        wtoi_from(
            w,
            i + 1,
            if v > 0x7FFF_FFFF {
                0x7FFF_FFFF
            } else {
                v
            },
        )
    }
}

/// Value of the leading decimal digits (by low byte), saturating at `i32::MAX`.
pub fn wtoi(pw: &[u16]) -> (r: i32)
    ensures
        r == wtoi_from(pw@, 0, 0),
{
    let mut v: i64 = 0;
    let mut i: usize = 0;
    while i < pw.len()
        invariant
            i <= pw@.len(),
            0 <= v <= 0x7FFF_FFFF,
            wtoi_from(pw@, 0, 0) == wtoi_from(pw@, i as int, v as int),
        ensures
            0 <= v <= 0x7FFF_FFFF,
            wtoi_from(pw@, 0, 0) == v,
        decreases pw@.len() - i,
    {
        let c = (pw[i] % 256) as u8;
        if 0x30 <= c && c <= 0x39 {
            v = v * 10 + (c - 0x30) as i64;
            if v > 0x7FFF_FFFF {
                v = 0x7FFF_FFFF;
            }
        } else {
            break;
        }
        i = i + 1;
    }
    v as i32
}

/// The readings of the digits from `a` up to (not including) `b`.
pub open spec fn china_between(
    d: Seq<u8>,
    a: int,
    b: int,
    last: int,
    f_flag: bool,
    one: [&str; 10],
    low: [&str; 4],
) -> Seq<char>
    decreases b - a,
{
    if a < 0 || a >= b || a >= d.len() {
        Seq::empty()
    } else {
        pron_digit(d, a, last - a, last, f_flag, one, low) + china_between(d, a + 1, b, last, f_flag, one, low)
    }
}

proof fn lemma_china_split(d: Seq<u8>, a: int, b: int, last: int, f_flag: bool, one: [&str; 10], low: [&str; 4])
    requires
        0 <= a <= b <= d.len(),
    ensures
        china_from(d, a, last, f_flag, one, low) == china_between(d, a, b, last, f_flag, one, low) + china_from(
            d,
            b,
            last,
            f_flag,
            one,
            low,
        ),
    decreases b - a,
{
    if a == b {
        assert(china_between(d, a, b, last, f_flag, one, low) =~= Seq::<char>::empty());
        assert(Seq::<char>::empty() + china_from(d, b, last, f_flag, one, low) =~= china_from(
            d,
            b,
            last,
            f_flag,
            one,
            low,
        ));
    } else {
        lemma_china_split(d, a + 1, b, last, f_flag, one, low);
        let p = pron_digit(d, a, last - a, last, f_flag, one, low);
        assert(p + (china_between(d, a + 1, b, last, f_flag, one, low) + china_from(d, b, last, f_flag, one, low))
            =~= (p + china_between(d, a + 1, b, last, f_flag, one, low)) + china_from(d, b, last, f_flag, one, low));
    }
}

/// Law: in the Sino-Korean reading, a digit 1 that is not the leading digit and stands at
/// a unit of ten thousand (만, 억, 조, ...) is read out as `iL` before that unit's name, so
/// that, for instance, 110000 reads `siB iL maN` and not as 100000 does.
pub proof fn law_one_before_high_unit(d: Seq<u8>, n: int)
    requires
        d.len() >= 2,
        all_digits(d),
        units_named(d, d.len() - 1),
        0 < n < d.len(),
        d[n] == 0x31,
        (d.len() - 1 - n) % 4 == 0,
        d.len() - 1 - n > 0,
    ensures
        china_pron(d, ONE_DIGIT_KOR, DIGIT_LOW_UNIT) == china_between(
            d,
            0,
            n,
            d.len() - 1,
            d.len() != 4,
            ONE_DIGIT_KOR,
            DIGIT_LOW_UNIT,
        ) + "iL"@ + DIGIT_HIGH_UNIT@[(d.len() - 1 - n) / 4]@ + seq!['\t'] + china_from(
            d,
            n + 1,
            d.len() - 1,
            d.len() != 4,
            ONE_DIGIT_KOR,
            DIGIT_LOW_UNIT,
        ),
{
    let last = d.len() - 1;
    let f = d.len() != 4;
    let rest = last - n;
    lemma_china_split(d, 0, n, last, f, ONE_DIGIT_KOR, DIGIT_LOW_UNIT);
    assert(units_named(d, last));
    assert(d[n] != 0x30);
    assert(rest < 32);
    let pd = pron_digit(d, n, rest, last, f, ONE_DIGIT_KOR, DIGIT_LOW_UNIT);
    assert(ONE_DIGIT_KOR@[1]@ == "iL"@);
    assert(pd == "iL"@ + (DIGIT_HIGH_UNIT@[rest / 4]@ + seq!['\t']));
    let pre = china_between(d, 0, n, last, f, ONE_DIGIT_KOR, DIGIT_LOW_UNIT);
    let post = china_from(d, n + 1, last, f, ONE_DIGIT_KOR, DIGIT_LOW_UNIT);
    assert(china_from(d, n, last, f, ONE_DIGIT_KOR, DIGIT_LOW_UNIT) == pd + post);
    let r = china_from(d, 0, last, f, ONE_DIGIT_KOR, DIGIT_LOW_UNIT);
    assert(r =~= pre + "iL"@ + DIGIT_HIGH_UNIT@[rest / 4]@ + seq!['\t'] + post);
    assert(r.len() > 0);
}

} // verus!
