//! Sentence splitting of UTF-16 input before morphological analysis: full-width ASCII is
//! folded to ASCII, punctuation is classified, a few private-use and CJK code points are
//! rewritten, and the text is cut after the first sentence end.
use vstd::prelude::*;

verus! {

/// How a character ends (or does not end) a sentence: 0 ordinary, 1 full stop, 2 colon
/// or the Korean full-stop syllable, 3 other terminal punctuation, 4 line break, 5 closing
/// bracket; and the character it is rewritten to.
pub open spec fn sentence_class(u: u16) -> (int, u16) {
    if u == 0x0a || u == 0x0d {
        (4, u)
    } else if u == 0x2e {
        (1, u)
    } else if u == 0x3002 {
        (1, 0x2e)
    } else if u == 0x3a {
        (2, u)
    } else if u == 0xcb70 {
        (2, 0x2e)
    } else if u == 0x21 || u == 0x3b || u == 0x3f {
        (3, u)
    } else if u == 0x2025 || u == 0x2026 {
        (3, 0x2e)
    } else if u == 0x300b || u == 0x3011 {
        (5, u)
    } else if u == 0xf105 || u == 0xf106 {
        (5, 0x2e)
    } else {
        (0, rewritten(u))
    }
}

/// The rewriting of characters that end no sentence: CJK comma and low quote to a comma,
/// ideographic space and a doubled question mark to a space, private-use syllable codes to
/// Hangul syllables; every other character stays.
pub open spec fn rewritten(u: u16) -> u16 {
    if u == 0x201a || u == 0x3001 {
        0x2c
    } else if u == 0x3000 || u == 0x3f3f {
        0x20
    } else if u == 0xf113 || u == 0xf120 {
        0xae40
    } else if u == 0xf114 || u == 0xf118 {
        0xc77c
    } else if u == 0xf115 {
        0xc131
    } else if u == 0xf117 || u == 0xf121 {
        0xc815
    } else if u == 0xf122 {
        0xc740
    } else {
        u
    }
}

/// Classifies a character for sentence splitting and rewrites it in place.
pub fn sentence_mode(pw_byte: &mut u16) -> (r: i32)
    ensures
        (r as int, *final(pw_byte)) == sentence_class(*old(pw_byte)),
{
    let u = *pw_byte;
    match u {
        0x0a | 0x0d => 4,
        0x2e => 1,
        0x3002 => {
            *pw_byte = 0x2e;
            1
        },
        0x3a => 2,
        0xcb70 => {
            *pw_byte = 0x2e;
            2
        },
        0x21 | 0x3b | 0x3f => 3,
        0x2025 | 0x2026 => {
            *pw_byte = 0x2e;
            3
        },
        0x300b | 0x3011 => 5,
        0xf105 | 0xf106 => {
            *pw_byte = 0x2e;
            5
        },
        0x201a | 0x3001 => {
            *pw_byte = 0x2c;
            0
        },
        0x3000 | 0x3f3f => {
            *pw_byte = 0x20;
            0
        },
        0xf113 | 0xf120 => {
            *pw_byte = 0xae40;
            0
        },
        0xf114 | 0xf118 => {
            *pw_byte = 0xc77c;
            0
        },
        0xf115 => {
            *pw_byte = 0xc131;
            0
        },
        0xf117 | 0xf121 => {
            *pw_byte = 0xc815;
            0
        },
        0xf122 => {
            *pw_byte = 0xc740;
            0
        },
        _ => 0,
    }
}

/// ASCII digit.
pub open spec fn digit_w(c: u16) -> bool {
    0x30 <= c <= 0x39
}

/// ASCII letter.
pub open spec fn alpha_w(c: u16) -> bool {
    (0x61 <= c <= 0x7a) || (0x41 <= c <= 0x5a)
}

/// A character that, after a letter, keeps a full stop from ending the sentence: a digit,
/// a letter, or a slash of either kind.
pub open spec fn comma_symbol(w: u16) -> bool {
    digit_w(w) || alpha_w(w) || w == 0x2f || w == 0x5c
}

/// Is `c` an ASCII digit.
pub fn is_digit_w(c: u16) -> (b: bool)
    ensures
        b == digit_w(c),
{
    0x30 <= c && c <= 0x39
}

/// Is `c` an ASCII letter.
pub fn is_alpha_w(c: u16) -> (b: bool)
    ensures
        b == alpha_w(c),
{
    (0x61 <= c && c <= 0x7a) || (0x41 <= c && c <= 0x5a)
}

/// Is `w` a digit, a letter or a slash.
pub fn is_comma_symbol(w: u16) -> (b: bool)
    ensures
        b == comma_symbol(w),
{
    is_digit_w(w) || is_alpha_w(w) || w == 0x2f || w == 0x5c
}

/// Full-width ASCII (U+FF01 to U+FF5E) folded to ASCII.
pub open spec fn halfwidth(w: u16) -> u16 {
    if 0xff01 <= w <= 0xff5e {
        (w - 0xfee0) as u16
    } else {
        w
    }
}

/// Does the character at `i` (class `mode`, rewritten to `w`) end the sentence. A full
/// stop or colon between digits (also "1. 2"), or after a letter and before a digit,
/// letter or slash does not; a closing bracket does before the end or a one-byte
/// character; a terminal mark does unless it is "!" before a closing double angle
/// bracket.
pub open spec fn cut_after(b: Seq<u16>, i: int, mode: int, w: u16) -> bool {
    let n = b.len();
    if mode == 1 || mode == 2 {
        if i != 0 && i + 1 < n {
            if digit_w(b[i - 1]) {
                !(digit_w(b[i + 1]) || (b[i + 1] == 0x20 && i + 2 < n && digit_w(b[i + 2])))
            } else {
                !(alpha_w(b[i - 1]) && comma_symbol(b[i + 1]))
            }
        } else {
            true
        }
    } else if mode == 5 {
        i + 1 >= n || b[i + 1] < 0x100
    } else if mode == 3 {
        !(w == 0x21 && i + 1 < n && b[i + 1] == 0x300b)
    } else {
        false
    }
}

/// The first sentence of `b` from `i` on, after `out` was kept: the kept characters and
/// where the rest of the input starts. A line break is dropped, and ends the sentence
/// when `check` is set and something was kept; at most 500 characters are kept.
pub open spec fn first_sentence(b: Seq<u16>, i: int, out: Seq<u16>, check: bool) -> (Seq<u16>, int)
    decreases b.len() - i,
{
    if i < 0 || i >= b.len() {
        (out, i)
    } else {
        let c = sentence_class(b[i]);
        if c.0 == 4 {
            if out.len() > 0 && check {
                (out, i + 1)
            } else {
                first_sentence(b, i + 1, out, check)
            }
        } else {
            let out2 = out.push(c.1);
            if cut_after(b, i, c.0, c.1) || out2.len() >= 500 {
                (out2, i + 1)
            } else {
                first_sentence(b, i + 1, out2, check)
            }
        }
    }
}

/// Keeps the first sentence of the text in `buf` (full-width ASCII folded, punctuation
/// rewritten, line breaks dropped) and returns where the rest of the input starts.
pub fn text_process(buf: &mut Vec<u16>, tts_check_sentence_cut: bool) -> (r: usize)
    ensures
        (final(buf)@, r as int) == first_sentence(
            old(buf)@.map_values(|w: u16| halfwidth(w)),
            0,
            Seq::empty(),
            tts_check_sentence_cut,
        ),
{
    let ghost orig = buf@;
    let n = buf.len();
    let mut k: usize = 0;
    while k < n
        invariant
            n == buf@.len() == orig.len(),
            k <= n,
            forall|j: int| 0 <= j < k ==> buf@[j] == halfwidth(orig[j]),
            forall|j: int| k <= j < n ==> buf@[j] == orig[j],
        decreases n - k,
    {
        let w = buf[k];
        if 0xff01 <= w && w <= 0xff5e {
            buf.set(k, w - 0xfee0);
        }
        k = k + 1;
    }
    let ghost b = buf@;
    proof {
        assert(b =~= orig.map_values(|w: u16| halfwidth(w)));
    }
    let mut out: Vec<u16> = Vec::new();
    let mut i: usize = 0;
    let mut res: usize = n;
    while i < n
        invariant_except_break
            i <= n,
            res == n,
            first_sentence(b, i as int, out@, tts_check_sentence_cut) == first_sentence(
                b,
                0,
                Seq::empty(),
                tts_check_sentence_cut,
            ),
        invariant
            n == b.len(),
            b == buf@,
        ensures
            (out@, res as int) == first_sentence(b, 0, Seq::empty(), tts_check_sentence_cut),
        decreases n - i,
    {
        let mut w = buf[i];
        let mode = sentence_mode(&mut w);
        if mode == 4 {
            i = i + 1;
            if out.len() > 0 && tts_check_sentence_cut {
                res = i;
                break;
            }
            continue;
        }
        out.push(w);
        let cut = if mode == 1 || mode == 2 {
            if i != 0 && i + 1 < n {
                let prev = buf[i - 1];
                if is_digit_w(prev) {
                    let next = buf[i + 1];
                    !(is_digit_w(next) || (next == 0x20 && i + 2 < n && is_digit_w(buf[i + 2])))
                } else {
                    !(is_alpha_w(prev) && is_comma_symbol(buf[i + 1]))
                }
            } else {
                true
            }
        } else if mode == 5 {
            i + 1 >= n || buf[i + 1] < 0x100
        } else if mode == 3 {
            !(w == 0x21 && i + 1 < n && buf[i + 1] == 0x300b)
        } else {
            false
        };
        i = i + 1;
        if cut || out.len() >= 500 {
            res = i;
            break;
        }
    }
    *buf = out;
    res
}

/// The cut never comes before `i`: from `i` on, the rest of the input starts after `i`.
proof fn lemma_first_sentence_after(b: Seq<u16>, i: int, out: Seq<u16>, check: bool)
    requires
        0 <= i < b.len(),
    ensures
        first_sentence(b, i, out, check).1 > i,
    decreases b.len() - i,
{
    let o2 = out.push(sentence_class(b[i]).1);
    if i + 1 < b.len() {
        lemma_first_sentence_after(b, i + 1, out, check);
        lemma_first_sentence_after(b, i + 1, o2, check);
    } else {
        assert(first_sentence(b, i + 1, out, check).1 == i + 1);
        assert(first_sentence(b, i + 1, o2, check).1 == i + 1);
    }
}

proof fn lemma_no_cut_at(b: Seq<u16>, j: int, out: Seq<u16>, check: bool, i: int)
    requires
        0 <= j <= i,
        0 < i,
        i + 1 < b.len(),
        out.len() <= j,
        i < 499,
        b[i] == 0x2e || b[i] == 0x3a,
        alpha_w(b[i - 1]),
        alpha_w(b[i + 1]) || digit_w(b[i + 1]) || b[i + 1] == 0x2f || b[i + 1] == 0x5c,
    ensures
        first_sentence(b, j, out, check).1 != i + 1,
    decreases b.len() - j,
{
    let c = sentence_class(b[j]);
    if j < i {
        if c.0 == 4 {
            if !(out.len() > 0 && check) {
                lemma_no_cut_at(b, j + 1, out, check, i);
            }
        } else {
            let out2 = out.push(c.1);
            if !(cut_after(b, j, c.0, c.1) || out2.len() >= 500) {
                lemma_no_cut_at(b, j + 1, out2, check, i);
            }
        }
    } else {
        assert(c.0 == 1 || c.0 == 2);
        assert(!digit_w(b[i - 1]));
        assert(!cut_after(b, i, c.0, c.1));
        lemma_first_sentence_after(b, i + 1, out.push(c.1), check);
    }
}

/// Law: a full stop or a colon between an ASCII letter and a following ASCII letter, digit
/// or slash (as in `naver.com`) never ends the sentence, so the text is not cut just
/// after it; this holds within the first 499 characters, the longest a sentence is kept.
pub proof fn law_no_cut_inside_names(b: Seq<u16>, check: bool, i: int)
    requires
        0 < i,
        i + 1 < b.len(),
        i < 499,
        b[i] == 0x2e || b[i] == 0x3a,
        alpha_w(b[i - 1]),
        alpha_w(b[i + 1]) || digit_w(b[i + 1]) || b[i + 1] == 0x2f || b[i + 1] == 0x5c,
    ensures
        first_sentence(b.map_values(|w: u16| halfwidth(w)), 0, Seq::empty(), check).1 != i + 1,
{
    let h = b.map_values(|w: u16| halfwidth(w));
    assert(h[i] == b[i] && h[i - 1] == b[i - 1] && h[i + 1] == b[i + 1]);
    lemma_no_cut_at(h, 0, Seq::empty(), check, i);
}

} // verus!
