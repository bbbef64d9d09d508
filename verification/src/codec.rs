//! Conversion between UTF-8 strings and UTF-16 code units.
use vstd::prelude::*;
use vstd::std_specs::iter::IteratorSpec;
use crate::text::{utf16_encode, utf16_decode, utf16_lossy, encode_char, lemma_utf16_encode_concat, lemma_utf16_roundtrip};

verus! {

/// Encodes a string as UTF-16 code units.
pub fn utf8_to_u16(s: &str) -> (r: Vec<u16>)
    ensures
        r@ == utf16_encode(s@),
{
    let mut out: Vec<u16> = Vec::new();
    let ghost cs = s@;
    let mut it = s.chars();
    let ghost mut k: int = 0;
    proof {
        vstd::string::axiom_spec_iter(s);
    }
    loop
        invariant
            0 <= k <= cs.len(),
            it.remaining() == cs.subrange(k, cs.len() as int),
            it.obeys_prophetic_iter_laws(),
            out@ == utf16_encode(cs.subrange(0, k)),
        ensures
            out@ == utf16_encode(cs),
        decreases cs.len() - k,
    {
        let ghost before = it;
        match it.next() {
            Some(c) => {
                proof {
                    vstd::string::next_postcondition(&before, &it, Some(c));
                    assert(c == cs[k]);
                    assert(cs.subrange(0, k + 1) =~= cs.subrange(0, k) + seq![c]);
                    lemma_utf16_encode_concat(cs.subrange(0, k), seq![c]);
                    assert(seq![c].drop_first() =~= Seq::<char>::empty());
                    assert(utf16_encode(Seq::<char>::empty()) =~= Seq::<u16>::empty());
                    assert(utf16_encode(seq![c]) =~= crate::text::utf16_char(c));
                    assert(it.remaining() =~= cs.subrange(k + 1, cs.len() as int));
                }
                encode_char(c, &mut out);
                proof {
                    k = k + 1;
                }
            },
            None => {
                proof {
                    vstd::string::next_postcondition(&before, &it, None);
                    assert(cs.subrange(0, k) =~= cs);
                }
                break;
            },
        }
    }
    out
}

/// Decodes UTF-16 code units, replacing unpaired surrogates with U+FFFD.
pub fn u16_to_utf8(units: &[u16]) -> (r: String)
    ensures
        r@ == utf16_decode(units@),
{
    utf16_lossy(units)
}

/// Decoding what `utf8_to_u16` produced gives the original text back.
pub proof fn law_utf16_roundtrip(s: &str)
    ensures
        utf16_decode(utf16_encode(s@)) == s@,
{
    lemma_utf16_roundtrip(s@);
}

} // verus!
