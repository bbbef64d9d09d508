//! Text helpers: UTF-16 encoding and decoding, and the few standard-library string
//! operations the parsers rely on.
use vstd::prelude::*;
use vstd::utf8::{valid_utf8, decode_utf8};

verus! {

/// The replacement character U+FFFD.
pub open spec fn replacement() -> u32 {
    0xFFFD
}

pub open spec fn is_high_surrogate(u: u16) -> bool {
    0xD800 <= u <= 0xDBFF
}

pub open spec fn is_low_surrogate(u: u16) -> bool {
    0xDC00 <= u <= 0xDFFF
}

/// Code point of a surrogate pair.
pub open spec fn pair_value(hi: u16, lo: u16) -> u32 {
    (0x10000 + (hi - 0xD800) * 1024 + (lo - 0xDC00)) as u32
}

/// Lossy UTF-16 decoding of `s[i..]`: a valid surrogate pair gives one character, a lone
/// surrogate gives U+FFFD, any other unit gives itself.
pub open spec fn utf16_decode_from(s: Seq<u16>, i: int) -> Seq<char>
    decreases s.len() - i,
{
    if i < 0 || i >= s.len() {
        Seq::empty()
    } else if is_high_surrogate(s[i]) && i + 1 < s.len() && is_low_surrogate(s[i + 1]) {
        seq![pair_value(s[i], s[i + 1]) as char] + utf16_decode_from(s, i + 2)
    } else if 0xD800 <= s[i] <= 0xDFFF {
        seq![replacement() as char] + utf16_decode_from(s, i + 1)
    } else {
        seq![s[i] as u32 as char] + utf16_decode_from(s, i + 1)
    }
}

pub open spec fn utf16_decode(s: Seq<u16>) -> Seq<char> {
    utf16_decode_from(s, 0)
}

/// UTF-16 encoding of one character.
pub open spec fn utf16_char(c: char) -> Seq<u16> {
    let v = c as u32;
    if v < 0x10000 {
        seq![v as u16]
    } else {
        seq![(0xD800 + (v - 0x10000) / 1024) as u16, (0xDC00 + (v - 0x10000) % 1024) as u16]
    }
}

/// UTF-16 encoding of a character sequence.
pub open spec fn utf16_encode(cs: Seq<char>) -> Seq<u16>
    decreases cs.len(),
{
    if cs.len() == 0 {
        Seq::empty()
    } else {
        utf16_char(cs[0]) + utf16_encode(cs.drop_first())
    }
}

/// Encoding distributes over concatenation.
pub proof fn lemma_utf16_encode_concat(a: Seq<char>, b: Seq<char>)
    ensures
        utf16_encode(a + b) == utf16_encode(a) + utf16_encode(b),
    decreases a.len(),
{
    if a.len() == 0 {
        assert(a + b =~= b);
        assert(utf16_encode(a) + utf16_encode(b) =~= utf16_encode(b));
    } else {
        assert((a + b).drop_first() =~= a.drop_first() + b);
        lemma_utf16_encode_concat(a.drop_first(), b);
        assert(utf16_encode(a + b) =~= utf16_char(a[0]) + (utf16_encode(a.drop_first())
            + utf16_encode(b)));
    }
}

/// Decoding ignores a prefix that has already been passed.
pub proof fn lemma_utf16_decode_shift(p: Seq<u16>, r: Seq<u16>, j: int)
    requires
        0 <= j,
    ensures
        utf16_decode_from(p + r, p.len() + j) == utf16_decode_from(r, j),
    decreases r.len() - j,
{
    let s = p + r;
    let i = p.len() + j;
    if j >= r.len() {
    } else {
        assert(s[i] == r[j]);
        if j + 1 < r.len() {
            assert(s[i + 1] == r[j + 1]);
        }
        lemma_utf16_decode_shift(p, r, j + 1);
        if j + 2 <= r.len() {
            lemma_utf16_decode_shift(p, r, j + 2);
        }
    }
}

/// Decoding the encoding of a sequence of characters gives the characters back.
pub proof fn lemma_utf16_roundtrip(cs: Seq<char>)
    ensures
        utf16_decode(utf16_encode(cs)) == cs,
    decreases cs.len(),
{
    if cs.len() > 0 {
        let c = cs[0];
        let v = c as u32;
        let head = utf16_char(c);
        let rest = utf16_encode(cs.drop_first());
        lemma_utf16_roundtrip(cs.drop_first());
        lemma_utf16_decode_shift(head, rest, 0);
        vstd::utf8::char_is_scalar(c);
        vstd::utf8::char_u32_cast(c, v);
        let s = head + rest;
        if v < 0x10000 {
            assert(s[0] == v as u16);
            assert(utf16_decode_from(s, 0) == seq![c] + utf16_decode_from(s, 1));
        } else {
            let hi = (0xD800 + (v - 0x10000) / 1024) as u16;
            let lo = (0xDC00 + (v - 0x10000) % 1024) as u16;
            assert(s[0] == hi && s[1] == lo);
            assert(pair_value(hi, lo) == v);
            assert(utf16_decode_from(s, 0) == seq![c] + utf16_decode_from(s, 2));
        }
        assert(seq![c] + cs.drop_first() =~= cs);
    }
}

/// UTF-16 encoding of one character.
pub fn encode_char(c: char, out: &mut Vec<u16>)
    ensures
        final(out)@ == old(out)@ + utf16_char(c),
{
    let v = c as u32;
    if v < 0x10000 {
        out.push(v as u16);
    } else {
        out.push((0xD800 + (v - 0x10000) / 1024) as u16);
        out.push((0xDC00 + (v - 0x10000) % 1024) as u16);
    }
    proof {
        assert(final(out)@ =~= old(out)@ + utf16_char(c));
    }
}

/// Scalar values: the code points a `char` can hold.
pub open spec fn is_scalar_value(v: u32) -> bool {
    v < 0xD800 || (0xE000 <= v < 0x110000)
}

/// Appends a character to a string (`String::push`).
#[verifier::external_body]
pub(crate) fn string_push(s: &mut String, c: char)
    ensures
        final(s)@ == old(s)@.push(c),
{
    s.push(c);
}

/// The character with the given code point, if it is a scalar value (`char::from_u32`).
#[verifier::external_body]
pub(crate) fn char_from_u32(v: u32) -> (r: Option<char>)
    ensures
        r is Some <==> is_scalar_value(v),
        r matches Some(c) ==> c as u32 == v,
{
    char::from_u32(v)
}

/// What `String::from_utf8_lossy` makes of a byte sequence.
pub uninterp spec fn utf8_lossy_spec(b: Seq<u8>) -> Seq<char>;

/// The text of a byte sequence read as UTF-8: what it encodes where it is valid UTF-8,
/// else what `String::from_utf8_lossy` makes of it.
pub open spec fn lossy_text(b: Seq<u8>) -> Seq<char> {
    if valid_utf8(b) {
        decode_utf8(b)
    } else {
        utf8_lossy_spec(b)
    }
}

/// Decodes bytes as UTF-8, replacing invalid sequences with U+FFFD
/// (`String::from_utf8_lossy`). Valid input decodes to the characters it encodes; what
/// invalid input gives is only named.
#[verifier::external_body]
pub(crate) fn utf8_lossy(b: &[u8]) -> (r: String)
    ensures
        r@ == utf8_lossy_spec(b@),
        valid_utf8(b@) ==> r@ == decode_utf8(b@),
{
    String::from_utf8_lossy(b).into_owned()
}

/// Decodes bytes as UTF-8 and fails on invalid input (`std::str::from_utf8`).
#[verifier::external_body]
pub(crate) fn utf8_strict(b: &[u8]) -> (r: Option<String>)
    ensures
        r is Some <==> valid_utf8(b@),
        r matches Some(s) ==> s@ == decode_utf8(b@),
{
    match std::str::from_utf8(b) {
        Ok(s) => Some(s.to_string()),
        Err(_) => None,
    }
}

/// Lossy UTF-16 decoding, as `String::from_utf16_lossy` does it.
pub fn utf16_lossy(units: &[u16]) -> (r: String)
    ensures
        r@ == utf16_decode(units@),
{
    let mut out = String::new();
    let n = units.len();
    let mut i: usize = 0;
    proof {
        assert(out@ =~= Seq::<char>::empty());
    }
    while i < n
        invariant
            i <= n == units@.len(),
            out@ + utf16_decode_from(units@, i as int) == utf16_decode(units@),
        decreases n - i,
    {
        let u = units[i];
        let ghost before = out@;
        if 0xD800 <= u && u <= 0xDBFF && i + 1 < n && 0xDC00 <= units[i + 1] && units[i + 1]
            <= 0xDFFF {
            let v: u32 = 0x10000 + ((u - 0xD800) as u32) * 1024 + ((units[i + 1] - 0xDC00) as u32);
            let c = char_from_u32(v);
            match c {
                Some(c) => {
                    proof {
                        assert(v == pair_value(u, units@[i + 1]));
                        vstd::utf8::char_u32_cast(c, c as u32);
                    }
                    string_push(&mut out, c);
                },
                None => {
                    proof {
                        assert(false);
                    }
                },
            }
            proof {
                assert(out@ + utf16_decode_from(units@, i + 2) =~= before + utf16_decode_from(
                    units@,
                    i as int,
                ));
            }
            i = i + 2;
        } else {
            let v: u32 = if 0xD800 <= u && u <= 0xDFFF {
                0xFFFD
            } else {
                u as u32
            };
            match char_from_u32(v) {
                Some(c) => {
                    proof {
                        vstd::utf8::char_u32_cast(c, c as u32);
                    }
                    string_push(&mut out, c);
                },
                None => {
                    proof {
                        assert(false);
                    }
                },
            }
            proof {
                assert(out@ + utf16_decode_from(units@, i + 1) =~= before + utf16_decode_from(
                    units@,
                    i as int,
                ));
            }
            i = i + 1;
        }
    }
    out
}

} // verus!
