//! Jamo tables of the romanization (the "pyogi" letters), part-of-speech tag classes and
//! code-point classes of the morphological analyser.
use vstd::prelude::*;

verus! {

/// Romanization letter of each initial consonant index (0 when it has none).
pub const CHOSONG: [u8; 32] = [
    0, 0, 0x67, 0x71, 0x6E, 0x64, 0x66, 0x6C, 0x6D, 0x62, 0x72, 0x73, 0x76, 0, 0x6A, 0x7A, 0x63,
    0x6B, 0x74, 0x70, 0x68, 0, 0, 0, 0, 0, 0, 0, 0, 0, 0, 0,
];

/// First romanization letter of each vowel index.
pub const JUNG_ONE: [u8; 32] = [
    0, 0, 0, 0x61, 0x38, 0x79, 0x79, 0x65, 0, 0, 0x39, 0x79, 0x79, 0x6F, 0x77, 0x77, 0, 0, 0x77,
    0x79, 0x75, 0x77, 0x77, 0x77, 0, 0, 0x79, 0x5F, 0x79, 0x69, 0, 0,
];

/// Second romanization letter of each vowel index (0 when there is one letter).
pub const JUNG_TWO: [u8; 32] = [
    0, 0, 0, 0, 0, 0x61, 0x38, 0, 0, 0, 0, 0x65, 0x39, 0, 0x61, 0x38, 0, 0, 0x69, 0x6F, 0, 0x65,
    0x39, 0x75, 0, 0, 0x75, 0, 0x69, 0, 0, 0,
];

/// First romanization letter of each final consonant index.
pub const JONG_ONE: [u8; 32] = [
    0, 0, 0x47, 0x51, 0x47, 0x4E, 0x4E, 0x4E, 0x44, 0x4C, 0x4C, 0x4C, 0x4C, 0x4C, 0x4C, 0x4C,
    0x4C, 0x4D, 0, 0x42, 0x42, 0x53, 0x56, 0x2A, 0x4A, 0x43, 0x4B, 0x54, 0x50, 0x48, 0, 0,
];

/// Second romanization letter of each final consonant index.
pub const JONG_TWO: [u8; 32] = [
    0, 0, 0, 0, 0x53, 0, 0x4A, 0x48, 0, 0, 0x47, 0x4D, 0x42, 0x53, 0x54, 0x50, 0x48, 0, 0, 0,
    0x53, 0, 0, 0, 0, 0, 0, 0, 0, 0, 0, 0,
];

/// Width weight of each initial consonant index.
pub const CHO_POS_TBL: [i16; 32] = [
    0, 0, 6, 6, 6, 6, 6, 6, 6, 6, 6, 6, 6, 0, 6, 6, 6, 6, 6, 6, 6, 0, 0, 0, 0, 0, 0, 0, 0, 0, 0, 0,
];

/// Width weight of each vowel index.
pub const JUNG_POS_TBL: [i16; 32] = [
    0, 0, 0, 6, 6, 12, 12, 6, 0, 0, 6, 12, 12, 6, 12, 12, 0, 0, 12, 12, 6, 12, 12, 12, 0, 0, 12, 6,
    12, 6, 0, 0,
];

/// Width weight of each final consonant index.
pub const JONG_POS_TBL: [i16; 32] = [
    0, 0, 6, 6, 12, 6, 12, 12, 6, 6, 12, 12, 12, 12, 12, 12, 12, 6, 0, 6, 12, 6, 6, 6, 6, 6, 6, 6,
    6, 6, 0, 0,
];

/// Ordinal (1-based) of each initial consonant index among the Unicode initials.
pub const CHO_NO: [u8; 32] = [
    0, 0, 1, 2, 3, 4, 5, 6, 7, 8, 9, 10, 11, 12, 13, 14, 15, 16, 17, 18, 19, 0, 0, 0, 0, 0, 0, 0, 0,
    0, 0, 0,
];

/// Ordinal (1-based) of each vowel index among the Unicode vowels.
pub const JUNG_NO: [u8; 32] = [
    0, 0, 0, 1, 2, 3, 4, 5, 0, 0, 6, 7, 8, 9, 10, 11, 0, 0, 12, 13, 14, 15, 16, 17, 0, 0, 18, 19,
    20, 21, 0, 0,
];

/// Ordinal of each final consonant index among the Unicode finals (0: none).
pub const JONG_NO: [u8; 32] = [
    0, 0, 1, 2, 3, 4, 5, 6, 7, 8, 9, 10, 11, 12, 13, 14, 15, 16, 0, 17, 18, 19, 20, 21, 22, 23, 24,
    25, 26, 27, 0, 0,
];

/// Vowel index of each Unicode vowel ordinal.
pub const UNI_JUNG_ID: [u8; 21] = [
    3, 4, 5, 6, 7, 10, 11, 12, 13, 14, 15, 18, 19, 20, 21, 22, 23, 26, 27, 28, 29,
];

/// Final consonant index of each Unicode final ordinal (index 1: none).
pub const UNI_JONG_ID: [u8; 28] = [
    1, 2, 3, 4, 5, 6, 7, 8, 9, 10, 11, 12, 13, 14, 15, 16, 17, 19, 20, 21, 22, 23, 24, 25, 26, 27,
    28, 29,
];

/// Johab codes of the compatibility jamo U+3131 to U+3163.
pub const KS_JOHAB: [u16; 51] = [
    0x8422, 0x8423, 0x8424, 0x8425, 0x8426, 0x8427, 0x8428, 0x9821, 0x8429, 0x842a, 0x842b, 0x842c,
    0x842d, 0x842e, 0x842f, 0x8430, 0x8431, 0x8433, 0xa821, 0x8434, 0x8435, 0x8436, 0x8437, 0x8438,
    0xbc21, 0x8439, 0x843a, 0x843b, 0x843c, 0x843d, 0x8461, 0x8481, 0x84a1, 0x84c1, 0x84e1, 0x8541,
    0x8561, 0x8581, 0x85a1, 0x85c1, 0x85e1, 0x8641, 0x8661, 0x8681, 0x86a1, 0x86c1, 0x86e1, 0x8741,
    0x8761, 0x8781, 0x87a1,
];

/// (initial, vowel, final) indices of the compatibility jamo, from their Johab codes.
pub const JAMO_CVC: [(u8, u8, u8); 51] = [
    (1, 1, 2), (1, 1, 3), (1, 1, 4), (1, 1, 5), (1, 1, 6), (1, 1, 7), (1, 1, 8), (6, 1, 1),
    (1, 1, 9), (1, 1, 10), (1, 1, 11), (1, 1, 12), (1, 1, 13), (1, 1, 14), (1, 1, 15), (1, 1, 16),
    (1, 1, 17), (1, 1, 19), (10, 1, 1), (1, 1, 20), (1, 1, 21), (1, 1, 22), (1, 1, 23), (1, 1, 24),
    (15, 1, 1), (1, 1, 25), (1, 1, 26), (1, 1, 27), (1, 1, 28), (1, 1, 29), (1, 3, 1), (1, 4, 1),
    (1, 5, 1), (1, 6, 1), (1, 7, 1), (1, 10, 1), (1, 11, 1), (1, 12, 1), (1, 13, 1), (1, 14, 1),
    (1, 15, 1), (1, 18, 1), (1, 19, 1), (1, 20, 1), (1, 21, 1), (1, 22, 1), (1, 23, 1), (1, 26, 1),
    (1, 27, 1), (1, 28, 1), (1, 29, 1),
];

/// Romanization of each initial consonant index, as (first, second) letters, 0 for none.
pub const SSCH_CHO: [(u8, u8); 32] = [
    (0, 0), (0, 0), (0x67, 0), (0x71, 0), (0x6E, 0), (0x64, 0), (0x66, 0), (0x6C, 0), (0x6D, 0),
    (0x62, 0), (0x72, 0), (0x73, 0), (0x76, 0), (0, 0), (0x6A, 0), (0x7A, 0), (0x63, 0), (0x6B, 0),
    (0x74, 0), (0x70, 0), (0x68, 0), (0, 0), (0, 0), (0, 0), (0, 0), (0, 0), (0, 0), (0, 0), (0, 0),
    (0, 0), (0, 0), (0, 0),
];

/// Romanization of each vowel index.
pub const SSCH_JUNG: [(u8, u8); 32] = [
    (0, 0), (0, 0), (0, 0), (0x61, 0), (0x38, 0), (0x79, 0x61), (0x79, 0x38), (0x65, 0), (0, 0),
    (0, 0), (0x39, 0), (0x79, 0x65), (0x79, 0x39), (0x6F, 0), (0x77, 0x61), (0x77, 0x38), (0, 0),
    (0, 0), (0x77, 0x69), (0x79, 0x6F), (0x75, 0), (0x77, 0x65), (0x77, 0x39), (0x77, 0x75), (0, 0),
    (0, 0), (0x79, 0x75), (0x5F, 0), (0x79, 0x69), (0x69, 0), (0, 0), (0, 0),
];

/// Romanization of each final consonant index.
pub const SSCH_JONG: [(u8, u8); 32] = [
    (0, 0), (0, 0), (0x47, 0), (0x51, 0), (0x47, 0x53), (0x4E, 0), (0x4E, 0x4A), (0x4E, 0x48),
    (0x44, 0), (0x4C, 0), (0x4C, 0x47), (0x4C, 0x4D), (0x4C, 0x42), (0x4C, 0x53), (0x4C, 0x54),
    (0x4C, 0x50), (0x4C, 0x48), (0x4D, 0), (0, 0), (0x42, 0), (0x42, 0x53), (0x53, 0), (0x56, 0),
    (0x2A, 0), (0x4A, 0), (0x43, 0), (0x4B, 0), (0x54, 0), (0x50, 0), (0x48, 0), (0, 0), (0, 0),
];

/// The letters of a romanization table entry.
pub open spec fn ssch_letters(e: (u8, u8)) -> Seq<u8> {
    if e.0 == 0 {
        Seq::empty()
    } else if e.1 == 0 {
        seq![e.0]
    } else {
        seq![e.0, e.1]
    }
}

/// Grapheme offsets by morpheme class.
pub const GRAPHEME_OFFSET: [i32; 20] = [
    -1, 0, -1, -1, 0, -2, -2, -1, -2, -2, -4, -1, 0, 0, 0, -1, -1, -1, 0, -1,
];

/// Class of a romanization letter: 0 initial consonant, 1 glide, 2 vowel, 3 final
/// consonant, 4 anything else.
pub open spec fn pyogi_class(c: u8) -> u8 {
    if c == 0x67 || c == 0x68 || c == 0x71 || c == 0x6E || c == 0x64 || c == 0x6C || c == 0x6D
        || c == 0x62 || c == 0x72 || c == 0x73 || c == 0x76 || c == 0x66 || c == 0x6A || c == 0x7A
        || c == 0x63 || c == 0x6B || c == 0x74 || c == 0x70 {
        0
    } else if c == 0x77 || c == 0x79 {
        1
    } else if c == 0x61 || c == 0x65 || c == 0x6F || c == 0x75 || c == 0x69 || c == 0x5F || c
        == 0x38 || c == 0x39 {
        2
    } else if c == 0x4E || c == 0x44 || c == 0x4C || c == 0x4D || c == 0x42 || c == 0x53 || c
        == 0x4A || c == 0x47 || c == 0x2A || c == 0x43 || c == 0x50 || c == 0x48 || c == 0x51 || c
        == 0x56 || c == 0x54 || c == 0x4B {
        3
    } else {
        4
    }
}

/// Class of a romanization letter (see `pyogi_class`).
pub fn cvc_type_from_pyogi(c: u8) -> (r: u8)
    ensures
        r == pyogi_class(c),
{
    if c == 0x67 || c == 0x68 || c == 0x71 || c == 0x6E || c == 0x64 || c == 0x6C || c == 0x6D
        || c == 0x62 || c == 0x72 || c == 0x73 || c == 0x76 || c == 0x66 || c == 0x6A || c == 0x7A
        || c == 0x63 || c == 0x6B || c == 0x74 || c == 0x70 {
        0
    } else if c == 0x77 || c == 0x79 {
        1
    } else if c == 0x61 || c == 0x65 || c == 0x6F || c == 0x75 || c == 0x69 || c == 0x5F || c
        == 0x38 || c == 0x39 {
        2
    } else if c == 0x4E || c == 0x44 || c == 0x4C || c == 0x4D || c == 0x42 || c == 0x53 || c
        == 0x4A || c == 0x47 || c == 0x2A || c == 0x43 || c == 0x50 || c == 0x48 || c == 0x51 || c
        == 0x56 || c == 0x54 || c == 0x4B {
        3
    } else {
        4
    }
}

/// A root part of speech: `'0'` to `'K'`.
pub fn is_k_root_pumsa(tag: u8) -> (b: bool)
    ensures
        b <==> 0x30 <= tag <= 0x4B,
{
    0x30 <= tag && tag <= 0x4B
}

/// A character-root part of speech: `'0'` to `'G'`, or `'K'`.
pub fn is_k_char_root_part(tag: u8) -> (b: bool)
    ensures
        b <==> (0x30 <= tag <= 0x47 || tag == 0x4B),
{
    (0x30 <= tag && tag <= 0x47) || tag == 0x4B
}

/// A noun-like part of speech: `'0'` to `'>'`, or `'F'`, `'H'`, `'I'`.
pub fn is_k_cheon_part(tag: u8) -> (b: bool)
    ensures
        b <==> (0x30 <= tag <= 0x3E || tag == 0x46 || tag == 0x48 || tag == 0x49),
{
    (0x30 <= tag && tag <= 0x3E) || tag == 0x46 || tag == 0x48 || tag == 0x49
}

/// A particle or ending: `'T'` to `'h'`.
pub fn is_to(tag: u8) -> (b: bool)
    ensures
        b <==> 0x54 <= tag <= 0x68,
{
    0x54 <= tag && tag <= 0x68
}

/// A case particle: `'T'` to `'['`.
pub fn is_case_to(tag: u8) -> (b: bool)
    ensures
        b <==> 0x54 <= tag <= 0x5B,
{
    0x54 <= tag && tag <= 0x5B
}

/// An auxiliary particle: `']'`.
pub fn is_help_to(tag: u8) -> (b: bool)
    ensures
        b <==> tag == 0x5D,
{
    tag == 0x5D
}

/// The plural suffix: `'\\'`.
pub fn is_plural_to(tag: u8) -> (b: bool)
    ensures
        b <==> tag == 0x5C,
{
    tag == 0x5C
}

/// The copula: `'c'`.
pub fn is_bagum_yi(tag: u8) -> (b: bool)
    ensures
        b <==> tag == 0x63,
{
    tag == 0x63
}

/// A particle that attaches to a noun.
pub fn is_k_cheon_to(tag: u8) -> (b: bool)
    ensures
        b <==> (0x54 <= tag <= 0x5B || tag == 0x5D || tag == 0x5C || tag == 0x63),
{
    is_case_to(tag) || is_help_to(tag) || is_plural_to(tag) || is_bagum_yi(tag)
}

/// A symbol part of speech: `'L'` to `'R'`.
pub fn is_symbol_pumsa(tag: u8) -> (b: bool)
    ensures
        b <==> 0x4C <= tag <= 0x52,
{
    0x4C <= tag && tag <= 0x52
}

/// The symbol-like parts of speech.
pub open spec fn spec_is_k_symbol_pumsa(tag: u8) -> bool {
    tag == 0x6B || tag == 0x49 || tag == 0x4A || tag == 0x4C || tag == 0x4D || tag == 0x4E || tag
        == 0x4F || tag == 0x50 || tag == 0x51 || tag == 0x52 || tag == 0x53
}

/// A symbol-like part of speech: `'k'`, `'I'`, `'J'`, `'L'` to `'S'`.
pub fn is_k_symbol_pumsa(tag: u8) -> (b: bool)
    ensures
        b == spec_is_k_symbol_pumsa(tag),
{
    tag == 0x6B || tag == 0x49 || tag == 0x4A || tag == 0x4C || tag == 0x4D || tag == 0x4E || tag
        == 0x4F || tag == 0x50 || tag == 0x51 || tag == 0x52 || tag == 0x53
}

/// A predicate ending: one of `^ _ ` a b d h g`.
pub fn is_k_yongon_to(tag: u8) -> (b: bool)
    ensures
        b <==> (tag == 0x5E || tag == 0x5F || tag == 0x60 || tag == 0x61 || tag == 0x62 || tag
            == 0x64 || tag == 0x68 || tag == 0x67),
{
    tag == 0x5E || tag == 0x5F || tag == 0x60 || tag == 0x61 || tag == 0x62 || tag == 0x64 || tag
        == 0x68 || tag == 0x67
}

/// A voiced predicate: one of `B @ D C f`.
pub fn is_k_voice_yong_yon(tag: u8) -> (b: bool)
    ensures
        b <==> (tag == 0x42 || tag == 0x40 || tag == 0x44 || tag == 0x43 || tag == 0x66),
{
    tag == 0x42 || tag == 0x40 || tag == 0x44 || tag == 0x43 || tag == 0x66
}

/// A voiced predicate that is also a particle or ending (only `'f'`).
pub fn is_k_voice_yong_yon_to(tag: u8) -> (b: bool)
    ensures
        b <==> ((tag == 0x42 || tag == 0x40 || tag == 0x44 || tag == 0x43 || tag == 0x66) && 0x54
            <= tag <= 0x68),
{
    is_k_voice_yong_yon(tag) && is_to(tag)
}

/// A voiced independent noun: `'0'` to `'3'`, or one of `9 < F : H`.
pub fn is_k_voice_jarib_cheon(tag: u8) -> (b: bool)
    ensures
        b <==> (0x30 <= tag <= 0x33 || tag == 0x39 || tag == 0x3C || tag == 0x46 || tag == 0x3A
            || tag == 0x48),
{
    let d: u8 = if tag >= 0x30 {
        tag - 0x30
    } else {
        (tag as u16 + 256 - 0x30) as u8
    };
    if d > 3 && tag != 0x39 && tag != 0x3C && tag != 0x46 && tag != 0x3A {
        return tag == 0x48;
    }
    true
}

/// A bound part of speech: `'k'`, `'L'`, `'M'`.
pub fn is_bound_pumsa(tag: u8) -> (b: bool)
    ensures
        b <==> (tag == 0x6B || tag == 0x4C || tag == 0x4D),
{
    tag == 0x6B || tag == 0x4C || tag == 0x4D
}

/// A sentence-ending punctuation unit: `.` `,` `!` `?`.
pub fn is_sen_symbol(w: u16) -> (b: bool)
    ensures
        b <==> (w == 0x2E || w == 0x2C || w == 0x21 || w == 0x3F),
{
    w == 0x2E || w == 0x2C || w == 0x21 || w == 0x3F
}

/// A Hangul syllable block, or one of the few code units just past it.
pub open spec fn spec_is_uni_korean_code(w: u16) -> bool {
    (w + 0x5400) % 0x10000 < 0x2ba4
}

/// A code unit above U+00FF in the Hangul syllable block (or just past it).
pub fn is_korean_code(w: u16) -> (b: bool)
    ensures
        b <==> (w >= 0x100 && (w + 0x5400) % 0x10000 < 0x2bb0),
{
    if w >= 0x100 {
        ((w as u32 + 0x5400) % 0x10000) < 0x2bb0
    } else {
        false
    }
}

/// A Hangul syllable: U+AC00 to U+D7A3.
pub fn is_uni_korean_code(w: u16) -> (b: bool)
    ensures
        b == spec_is_uni_korean_code(w),
        b <==> 0xAC00 <= w <= 0xD7A3,
{
    ((w as u32 + 0x5400) % 0x10000) < 0x2ba4
}

/// A compatibility jamo: U+3131 to U+3163.
pub fn is_uni_korean_jamo(w: u16) -> (b: bool)
    ensures
        b <==> 0x3131 <= w <= 0x3163,
{
    ((w as u32 + 0xcecf) % 0x10000) < 0x33
}

/// The same test as `is_uni_korean_code`.
pub fn is_korean_code_uni(w: u16) -> (b: bool)
    ensures
        b <==> 0xAC00 <= w <= 0xD7A3,
{
    is_uni_korean_code(w)
}

/// The class `check_chosong` gives a vowel ordinal.
pub open spec fn chosong_class(moum: u8) -> int {
    if moum == 3 || moum == 1 || moum == 13 {
        1
    } else if moum == 9 {
        2
    } else {
        0
    }
}

/// Class of a vowel ordinal for initial-consonant handling: 1 for ordinals 1, 3 and 13,
/// 2 for ordinal 9, else 0.
pub fn check_chosong(moum: u8) -> (r: i32)
    ensures
        r == chosong_class(moum),
{
    if moum != 0 && (moum == 3 || moum == 1 || moum == 13) {
        return 1;
    }
    if moum == 9 {
        2
    } else {
        0
    }
}

} // verus!
