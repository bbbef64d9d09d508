//! Conjugation classes of predicates (verbs and adjectives), read off the last syllables
//! of a predicate stem followed by the ending syllable.
use vstd::prelude::*;
use crate::code::{code_cvc_ok, conv_uni_code_to_cvc, uni_code_cvc};
use crate::tables::{check_chosong, chosong_class};

verus! {

/// The class list after adding `b`: a list holds at most two classes, later ones are
/// dropped.
pub open spec fn add_class(a: Seq<u8>, n: int, b: u8) -> (Seq<u8>, int) {
    if n < 2 {
        (a.update(n, b), n + 1)
    } else {
        (a, n)
    }
}

/// The class list after adding each of `bs` in turn.
pub open spec fn add_classes(a: Seq<u8>, n: int, bs: Seq<u8>) -> (Seq<u8>, int)
    decreases bs.len(),
{
    if bs.len() == 0 {
        (a, n)
    } else {
        let p = add_class(a, n, bs[0]);
        add_classes(p.0, p.1, bs.drop_first())
    }
}

/// Adds a class to a list of at most two classes; a full list stays as it is.
pub fn yong_yon_add(pb_array: &mut [u8; 2], pn_size: &mut i32, b_byte: u8) -> (r: bool)
    requires
        *old(pn_size) >= 0,
    ensures
        r,
        (final(pb_array)@, *final(pn_size) as int) == add_class(old(pb_array)@, *old(pn_size) as int, b_byte),
{
    if *pn_size < 2 {
        pb_array[*pn_size as usize] = b_byte;
        *pn_size = *pn_size + 1;
    }
    true
}

/// The syllable before the ending and the one before that, as the class rules read them:
/// (0, 0) for a string of fewer than two units, (first, 0) for two.
pub open spec fn stem_tail(v: Seq<u16>) -> (u16, u16) {
    if v.len() < 2 {
        (0, 0)
    } else if v.len() == 2 {
        (v[0], 0)
    } else {
        (v[v.len() - 2], v[v.len() - 3])
    }
}

/// A syllable is one of the listed code points.
pub open spec fn one_of(w: u16, l: Seq<u16>) -> bool {
    l.contains(w)
}

/// Regular-verb class of a stem ending in `w_wan` after `w_cx1` (`len2`: the string has
/// just two units). The pair is (a class added first, the class): 0 in the first place
/// adds nothing first, 0 in the second means the stem has no class.
pub open spec fn verb_class(w_wan: u16, w_cx1: u16, len2: bool) -> (u8, u8) {
    let k = uni_code_cvc(w_wan);
    let k1 = uni_code_cvc(w_cx1);
    if k[2] == 0 {
        if k[1] == 1 {
            (0, if w_wan == 0xac00 { 0x09 } else if w_wan == 0xd558 { 0x14 } else { 0x01 })
        } else if k[1] == 5 {
            (0, if (w_cx1 == 0xadf8 && w_wan == 0xb7ec) || (w_cx1 == 0xc5b4 && w_wan == 0xca4c) {
                0x15
            } else {
                0x02
            })
        } else if k[1] == 7 || k[1] == 2 || k[1] == 6 || k[1] == 12 {
            (0, 0x03)
        } else if k[1] == 0x10 || k[1] == 0x11 || k[1] == 0x14 {
            (0, 0x04)
        } else if k[1] == 9 {
            (0, if w_wan == 0xc624 { 0x0a } else { 0x05 })
        } else if k[1] == 0x12 {
            (0, 0x06)
        } else if k[1] == 0x0e {
            (0, if w_wan == 0xd478 { 0x13 } else { 0x07 })
        } else if k[1] == 0x15 {
            (0, 0x08)
        } else if k[1] == 0x13 {
            (0, if w_wan == 0xb974 {
                if w_cx1 == 0xc774 {
                    0x12
                } else if w_cx1 == 0xb530 {
                    0x0e
                } else if w_cx1 == 0xb7ec {
                    0x0f
                } else if w_cx1 == 0xce58 {
                    0x07
                } else if chosong_class(k1[1]) == 1 {
                    0x10
                } else {
                    0x11
                }
            } else if w_wan == 0xadf8 {
                0x07
            } else if w_wan == 0xc4f0 || len2 {
                0x0f
            } else if chosong_class(k1[1]) == 1 {
                0x0e
            } else if chosong_class(k1[1]) == 2 {
                0x0f
            } else {
                0
            })
        } else {
            (0, 0)
        }
    } else if k[2] == 0x11 {
        (0, if w_wan == 0xb3d5 {
            0x16
        } else if w_wan == 0xcb59 || w_wan == 0xbd59 || w_wan == 0xc635 {
            0x18
        } else if w_wan == 0xc90d {
            0x0c
        } else if w_wan == 0xaf3d {
            if w_cx1 == 0xb2c8 { 0x0b } else { 0 }
        } else if one_of(k[0] as u16, seq![9, 12, 11, 13]) {
            0x0b
        } else if one_of(k[0] as u16, seq![3, 1, 4, 6, 7, 8, 10, 15, 16, 18, 14, 2]) {
            0x17
        } else {
            0
        })
    } else if k[2] == 7 {
        if w_wan == 0xb2eb {
            if w_cx1 == 0xae68 { (0, 0x19) } else { (0x0b, 0x19) }
        } else if w_wan == 0xbb3b || w_wan == 0xac77 {
            (0x0c, 0x1a)
        } else if one_of(w_wan, seq![0xb3cb, 0xad73, 0xbc8b, 0xb51b, 0xbbff, 0xb72f, 0xbed7, 0xbc1b, 0xc5bb, 0xc3df]) {
            (0, 0x0b)
        } else if one_of(w_wan, seq![0xae37, 0xceeb, 0xb20b, 0xacaf, 0xbd87, 0xb4e3, 0xc2e3]) {
            (0, if chosong_class(k[1]) == 1 { 0x19 } else { 0x1a })
        } else {
            (0, 0)
        }
    } else if k[2] == 0x13 {
        if one_of(
            w_wan,
            seq![0xbc27, 0xae43, 0xbe57, 0xbc97, 0xc2ef, 0xc19f, 0xcacf, 0xc53b, 0xb057, 0xaf3f, 0xc557, 0xbe8f, 0xc6c3],
        ) {
            (0, if chosong_class(k[1]) == 1 { 0x0b } else { 0x0c })
        } else if one_of(
            w_wan,
            seq![0xb0ab, 0xae0b, 0xbb47, 0xbd93, 0xc90f, 0xc22b, 0xc9d3, 0xc813, 0xc787, 0xc7a3, 0xbabb],
        ) {
            (0, if chosong_class(k[1]) == 1 { 0x1b } else { 0x1c })
        } else {
            (0, 0)
        }
    } else if k[2] == 8 {
        (0, if chosong_class(k[1]) == 1 { 0x1d } else { 0x1e })
    } else if k[2] == 0x14 {
        (0, 0x0c)
    } else if k[2] == 6 && k[1] == 1 && (k[0] == 7 || k[0] == 15) {
        (0, 0x0d)
    } else if w_wan == 0xbc49 {
        (0, 0x0b)
    } else if chosong_class(k[1]) == 1 {
        (0, 0x0b)
    } else {
        (0, 0x0c)
    }
}

/// The classes the regular-verb rules add for a string.
pub open spec fn verb_bytes(v: Seq<u16>) -> Seq<u8> {
    let t = stem_tail(v);
    let c = verb_class(t.0, t.1, v.len() == 2);
    if c.1 == 0 {
        Seq::empty()
    } else if c.0 != 0 {
        seq![c.0, c.1]
    } else {
        seq![c.1]
    }
}

/// The two syllables the class rules read can be split into jamo.
pub open spec fn tail_ok(v: Seq<u16>) -> bool {
    code_cvc_ok(stem_tail(v).0) && code_cvc_ok(stem_tail(v).1)
}

fn in_list(w: u16, l: &[u16]) -> (r: bool)
    ensures
        r == one_of(w, l@),
{
    let mut i: usize = 0;
    while i < l.len()
        invariant
            i <= l@.len(),
            forall|j: int| 0 <= j < i ==> l@[j] != w,
        decreases l@.len() - i,
    {
        if l[i] == w {
            proof {
                assert(l@.contains(w));
            }
            return true;
        }
        i = i + 1;
    }
    false
}

fn verb_class_exec(w_wan: u16, w_cx1: u16, len2: bool) -> (r: (u8, u8))
    requires
        code_cvc_ok(w_wan),
        code_cvc_ok(w_cx1),
    ensures
        r == verb_class(w_wan, w_cx1, len2),
{
    let kx0 = conv_uni_code_to_cvc(w_wan);
    let kx1 = conv_uni_code_to_cvc(w_cx1);
    proof {
        assert(kx0@[0] == kx0[0] && kx0@[1] == kx0[1] && kx0@[2] == kx0[2]);
        assert(kx1@[1] == kx1[1]);
    }
    let ghost k = uni_code_cvc(w_wan);
    if kx0[2] == 0 {
        if kx0[1] == 1 {
            (0, if w_wan == 0xac00 { 0x09 } else if w_wan == 0xd558 { 0x14 } else { 0x01 })
        } else if kx0[1] == 5 {
            (0, if (w_cx1 == 0xadf8 && w_wan == 0xb7ec) || (w_cx1 == 0xc5b4 && w_wan == 0xca4c) {
                0x15
            } else {
                0x02
            })
        } else if kx0[1] == 7 || kx0[1] == 2 || kx0[1] == 6 || kx0[1] == 12 {
            (0, 0x03)
        } else if kx0[1] == 0x10 || kx0[1] == 0x11 || kx0[1] == 0x14 {
            (0, 0x04)
        } else if kx0[1] == 9 {
            (0, if w_wan == 0xc624 { 0x0a } else { 0x05 })
        } else if kx0[1] == 0x12 {
            (0, 0x06)
        } else if kx0[1] == 0x0e {
            (0, if w_wan == 0xd478 { 0x13 } else { 0x07 })
        } else if kx0[1] == 0x15 {
            (0, 0x08)
        } else if kx0[1] == 0x13 {
            let c1 = check_chosong(kx1[1]);
            (0, if w_wan == 0xb974 {
                if w_cx1 == 0xc774 {
                    0x12
                } else if w_cx1 == 0xb530 {
                    0x0e
                } else if w_cx1 == 0xb7ec {
                    0x0f
                } else if w_cx1 == 0xce58 {
                    0x07
                } else if c1 == 1 {
                    0x10
                } else {
                    0x11
                }
            } else if w_wan == 0xadf8 {
                0x07
            } else if w_wan == 0xc4f0 || len2 {
                0x0f
            } else if c1 == 1 {
                0x0e
            } else if c1 == 2 {
                0x0f
            } else {
                0
            })
        } else {
            (0, 0)
        }
    } else if kx0[2] == 0x11 {
        (0, if w_wan == 0xb3d5 {
            0x16
        } else if w_wan == 0xcb59 || w_wan == 0xbd59 || w_wan == 0xc635 {
            0x18
        } else if w_wan == 0xc90d {
            0x0c
        } else if w_wan == 0xaf3d {
            if w_cx1 == 0xb2c8 { 0x0b } else { 0 }
        } else if in_list(kx0[0] as u16, &[9, 12, 11, 13]) {
            0x0b
        } else if in_list(kx0[0] as u16, &[3, 1, 4, 6, 7, 8, 10, 15, 16, 18, 14, 2]) {
            0x17
        } else {
            0
        })
    } else if kx0[2] == 7 {
        if w_wan == 0xb2eb {
            if w_cx1 == 0xae68 { (0, 0x19) } else { (0x0b, 0x19) }
        } else if w_wan == 0xbb3b || w_wan == 0xac77 {
            (0x0c, 0x1a)
        } else if in_list(w_wan, &[0xb3cb, 0xad73, 0xbc8b, 0xb51b, 0xbbff, 0xb72f, 0xbed7, 0xbc1b, 0xc5bb, 0xc3df]) {
            (0, 0x0b)
        } else if in_list(w_wan, &[0xae37, 0xceeb, 0xb20b, 0xacaf, 0xbd87, 0xb4e3, 0xc2e3]) {
            (0, if check_chosong(kx0[1]) == 1 { 0x19 } else { 0x1a })
        } else {
            (0, 0)
        }
    } else if kx0[2] == 0x13 {
        if in_list(
            w_wan,
            &[0xbc27, 0xae43, 0xbe57, 0xbc97, 0xc2ef, 0xc19f, 0xcacf, 0xc53b, 0xb057, 0xaf3f, 0xc557, 0xbe8f, 0xc6c3],
        ) {
            (0, if check_chosong(kx0[1]) == 1 { 0x0b } else { 0x0c })
        } else if in_list(
            w_wan,
            &[0xb0ab, 0xae0b, 0xbb47, 0xbd93, 0xc90f, 0xc22b, 0xc9d3, 0xc813, 0xc787, 0xc7a3, 0xbabb],
        ) {
            (0, if check_chosong(kx0[1]) == 1 { 0x1b } else { 0x1c })
        } else {
            (0, 0)
        }
    } else if kx0[2] == 8 {
        (0, if check_chosong(kx0[1]) == 1 { 0x1d } else { 0x1e })
    } else if kx0[2] == 0x14 {
        (0, 0x0c)
    } else if kx0[2] == 6 && kx0[1] == 1 && (kx0[0] == 7 || kx0[0] == 15) {
        (0, 0x0d)
    } else if w_wan == 0xbc49 {
        (0, 0x0b)
    } else if check_chosong(kx0[1]) == 1 {
        (0, 0x0b)
    } else {
        (0, 0x0c)
    }
}

fn tail(pw_vstr: &[u16]) -> (r: (u16, u16))
    ensures
        r == stem_tail(pw_vstr@),
{
    let n = pw_vstr.len();
    if n < 2 {
        (0, 0)
    } else if n == 2 {
        (pw_vstr[0], 0)
    } else {
        (pw_vstr[n - 2], pw_vstr[n - 3])
    }
}

/// Adds the regular-verb class of a predicate string (the stem followed by the ending
/// syllable) to the list; false where the stem has no such class.
pub fn get_verb_num(pw_vstr: &[u16], pb_array: &mut [u8; 2], pn_size: &mut i32) -> (r: bool)
    requires
        *old(pn_size) >= 0,
        tail_ok(pw_vstr@),
    ensures
        r == (verb_bytes(pw_vstr@).len() > 0),
        (final(pb_array)@, *final(pn_size) as int) == add_classes(
            old(pb_array)@,
            *old(pn_size) as int,
            verb_bytes(pw_vstr@),
        ),
{
    let (w_wan, w_cx1) = tail(pw_vstr);
    let (pre, cls) = verb_class_exec(w_wan, w_cx1, pw_vstr.len() == 2);
    let ghost a0 = pb_array@;
    let ghost n0 = *pn_size as int;
    if cls == 0 {
        proof {
            assert(verb_bytes(pw_vstr@) =~= Seq::<u8>::empty());
        }
        return false;
    }
    if pre != 0 {
        yong_yon_add(pb_array, pn_size, pre);
    }
    let ghost a1 = pb_array@;
    let ghost n1 = *pn_size as int;
    proof {
        if pre != 0 {
            assert((a1, n1) == add_class(a0, n0, pre));
        } else {
            assert(a1 == a0 && n1 == n0);
        }
    }
    yong_yon_add(pb_array, pn_size, cls);
    proof {
        let bs = verb_bytes(pw_vstr@);
        reveal_with_fuel(add_classes, 3);
        if pre != 0 {
            assert(bs.drop_first() =~= seq![cls]);
            assert(bs.drop_first().drop_first() =~= Seq::<u8>::empty());
        } else {
            assert(bs.drop_first() =~= Seq::<u8>::empty());
        }
    }
    true
}

/// The class the initial-consonant rule gives when the stem's jamo start with one of the
/// listed ordinals: `a` for a 1-class vowel, else `b`.
pub open spec fn by_vowel(k: Seq<u8>, a: u8, b: u8) -> u8 {
    if chosong_class(k[1]) == 1 { a } else { b }
}

/// The class of a stem by its initial consonant ordinal, for the stems with a final
/// consonant that no earlier rule took; 0 where the ordinal is not listed.
pub open spec fn initial_class(k: Seq<u8>) -> u8 {
    if one_of(k[0] as u16, seq![9, 12, 13]) {
        by_vowel(k, 0x2a, 0x2b)
    } else if one_of(k[0] as u16, seq![3, 1, 4, 6, 7, 8, 10, 15, 16, 18, 14, 2, 17, 19]) {
        by_vowel(k, 0x35, 0x2b)
    } else {
        0
    }
}

/// Irregular-predicate class of a stem whose last syllable is `w_cx0`, after `w_wan`;
/// 0 where it has none.
pub open spec fn hong_class(w_cx0: u16, w_wan: u16) -> u8 {
    let k = uni_code_cvc(w_cx0);
    let k1 = uni_code_cvc(w_wan);
    if k[2] == 0 {
        if k[1] == 1 {
            if w_cx0 == 0xd558 { 0x32 } else { 0x24 }
        } else if k[1] == 2 || k[1] == 6 {
            0x25
        } else if k[1] == 0x11 || k[1] == 0x14 {
            0x26
        } else if k[1] == 9 {
            0x27
        } else if k[1] == 0x12 {
            0x28
        } else if k[1] == 0x15 {
            0x29
        } else if k[1] == 0x13 {
            let cc = chosong_class(k1[1]);
            if w_cx0 == 0xb974 {
                if w_wan == 0xb178 || w_wan == 0xd478 || w_wan == 0xb204 {
                    0x31
                } else if cc == 1 {
                    if w_wan == 0 { 0x2f } else if w_wan == 0xc5b4 { 0x30 } else { 0 }
                } else if cc == 2 {
                    0x30
                } else if w_wan == 0 {
                    0x2f
                } else {
                    0
                }
            } else if cc == 1 {
                if w_wan == 0 { 0x2d } else { 0 }
            } else if cc == 2 {
                0x2e
            } else if w_wan == 0 {
                0x2e
            } else {
                0
            }
        } else if w_wan == 0xc5b4 && w_cx0 == 0xca4c {
            0x33
        } else {
            0
        }
    } else if w_wan == 0xb0ab {
        0x37
    } else if k[2] == 0x1b {
        if chosong_class(k[1]) == 1 {
            if k[1] == 3 { 0x39 } else { 0x38 }
        } else if k[1] == 7 {
            0x3b
        } else {
            0x3a
        }
    } else if k[2] == 8 {
        by_vowel(k, 0x3c, 0x3d)
    } else if k[2] == 6 && k[1] == 1 && (k[0] == 7 || k[0] == 15) {
        0x2c
    } else if w_wan == 0xacf1 {
        0x34
    } else if w_wan == 0xc5b4 {
        if w_cx0 == 0xc90d { 0x2b } else { initial_class(k) }
    } else if w_wan == 0xb2c8 {
        if w_cx0 == 0xaf3d { 0x34 } else { initial_class(k) }
    } else if w_wan == 0xc5fd {
        0x36
    } else {
        initial_class(k)
    }
}

/// The classes the irregular-predicate rules add for a string.
pub open spec fn hong_bytes(v: Seq<u16>) -> Seq<u8> {
    let t = stem_tail(v);
    let c = hong_class(t.0, t.1);
    if c == 0 { Seq::empty() } else { seq![c] }
}

fn initial_class_exec(k0: u8, k1: u8, Ghost(k): Ghost<Seq<u8>>) -> (r: u8)
    requires
        k.len() == 3,
        k[0] == k0,
        k[1] == k1,
    ensures
        r == initial_class(k),
{
    let a = if check_chosong(k1) == 1 { 0x2a } else { 0x2b };
    let b = if check_chosong(k1) == 1 { 0x35 } else { 0x2b };
    if in_list(k0 as u16, &[9, 12, 13]) {
        a
    } else if in_list(k0 as u16, &[3, 1, 4, 6, 7, 8, 10, 15, 16, 18, 14, 2, 17, 19]) {
        b
    } else {
        0
    }
}

fn hong_class_exec(w_cx0: u16, w_wan: u16) -> (r: u8)
    requires
        code_cvc_ok(w_cx0),
        code_cvc_ok(w_wan),
    ensures
        r == hong_class(w_cx0, w_wan),
{
    let kx0 = conv_uni_code_to_cvc(w_cx0);
    let kx1 = conv_uni_code_to_cvc(w_wan);
    proof {
        assert(kx0@[0] == kx0[0] && kx0@[1] == kx0[1] && kx0@[2] == kx0[2]);
        assert(kx1@[1] == kx1[1]);
    }
    if kx0[2] == 0 {
        if kx0[1] == 1 {
            if w_cx0 == 0xd558 { 0x32 } else { 0x24 }
        } else if kx0[1] == 2 || kx0[1] == 6 {
            0x25
        } else if kx0[1] == 0x11 || kx0[1] == 0x14 {
            0x26
        } else if kx0[1] == 9 {
            0x27
        } else if kx0[1] == 0x12 {
            0x28
        } else if kx0[1] == 0x15 {
            0x29
        } else if kx0[1] == 0x13 {
            let cc = check_chosong(kx1[1]);
            if w_cx0 == 0xb974 {
                if w_wan == 0xb178 || w_wan == 0xd478 || w_wan == 0xb204 {
                    0x31
                } else if cc == 1 {
                    if w_wan == 0 { 0x2f } else if w_wan == 0xc5b4 { 0x30 } else { 0 }
                } else if cc == 2 {
                    0x30
                } else if w_wan == 0 {
                    0x2f
                } else {
                    0
                }
            } else if cc == 1 {
                if w_wan == 0 { 0x2d } else { 0 }
            } else if cc == 2 {
                0x2e
            } else if w_wan == 0 {
                0x2e
            } else {
                0
            }
        } else if w_wan == 0xc5b4 && w_cx0 == 0xca4c {
            0x33
        } else {
            0
        }
    } else if w_wan == 0xb0ab {
        0x37
    } else if kx0[2] == 0x1b {
        if check_chosong(kx0[1]) == 1 {
            if kx0[1] == 3 { 0x39 } else { 0x38 }
        } else if kx0[1] == 7 {
            0x3b
        } else {
            0x3a
        }
    } else if kx0[2] == 8 {
        if check_chosong(kx0[1]) == 1 { 0x3c } else { 0x3d }
    } else if kx0[2] == 6 && kx0[1] == 1 && (kx0[0] == 7 || kx0[0] == 15) {
        0x2c
    } else if w_wan == 0xacf1 {
        0x34
    } else if w_wan == 0xc5b4 {
        if w_cx0 == 0xc90d { 0x2b } else { initial_class_exec(kx0[0], kx0[1], Ghost(kx0@)) }
    } else if w_wan == 0xb2c8 {
        if w_cx0 == 0xaf3d { 0x34 } else { initial_class_exec(kx0[0], kx0[1], Ghost(kx0@)) }
    } else if w_wan == 0xc5fd {
        0x36
    } else {
        initial_class_exec(kx0[0], kx0[1], Ghost(kx0@))
    }
}

/// Adds the irregular-predicate class of a predicate string to the list; false where the
/// stem has no such class.
pub fn get_hong_yong_sa_num(pw_vstr: &[u16], pb_array: &mut [u8; 2], pn_size: &mut i32) -> (r: bool)
    requires
        *old(pn_size) >= 0,
        tail_ok(pw_vstr@),
    ensures
        r == (hong_bytes(pw_vstr@).len() > 0),
        (final(pb_array)@, *final(pn_size) as int) == add_classes(
            old(pb_array)@,
            *old(pn_size) as int,
            hong_bytes(pw_vstr@),
        ),
{
    let (w_cx0, w_wan) = tail(pw_vstr);
    let c = hong_class_exec(w_cx0, w_wan);
    if c == 0 {
        proof {
            assert(hong_bytes(pw_vstr@) =~= Seq::<u8>::empty());
        }
        return false;
    }
    yong_yon_add(pb_array, pn_size, c);
    proof {
        reveal_with_fuel(add_classes, 2);
        assert(hong_bytes(pw_vstr@).drop_first() =~= Seq::<u8>::empty());
    }
    true
}

/// The classes fixed for a few stems outright; empty for every other string.
pub open spec fn except_bytes(v: Seq<u16>) -> Seq<u8> {
    if v.len() < 2 {
        Seq::empty()
    } else {
        let w = v[v.len() - 2];
        if w == 0xc54a {
            seq![0x0du8, 0x2cu8]
        } else if w == 0xc788 {
            seq![0x1fu8]
        } else if w == 0xc5c6 {
            seq![0x20u8]
        } else if w == 0xc8b8 {
            seq![0x2au8]
        } else if w == 0xd1b1 {
            seq![0x17u8]
        } else if v.len() > 2 && v[v.len() - 3] == 0xacc4 && w == 0xc2dc {
            seq![0x21u8]
        } else {
            Seq::empty()
        }
    }
}

/// Adds the classes of the stems whose classes are fixed outright; false for every other
/// string.
pub fn except_yong_yon(pw_vstr: &[u16], pb_array: &mut [u8; 2], pn_size: &mut i32) -> (r: bool)
    requires
        *old(pn_size) >= 0,
    ensures
        r == (except_bytes(pw_vstr@).len() > 0),
        (final(pb_array)@, *final(pn_size) as int) == add_classes(
            old(pb_array)@,
            *old(pn_size) as int,
            except_bytes(pw_vstr@),
        ),
{
    let n = pw_vstr.len();
    proof {
        reveal_with_fuel(add_classes, 3);
    }
    if n < 2 {
        return false;
    }
    let w_var1 = pw_vstr[n - 2];
    let ghost bs = except_bytes(pw_vstr@);
    if w_var1 == 0xc54a {
        let ghost a0 = pb_array@;
        let ghost n0 = *pn_size as int;
        yong_yon_add(pb_array, pn_size, 0x0d);
        let ghost a1 = pb_array@;
        let ghost n1 = *pn_size as int;
        yong_yon_add(pb_array, pn_size, 0x2c);
        proof {
            assert(bs.drop_first() =~= seq![0x2cu8]);
            assert(bs.drop_first().drop_first() =~= Seq::<u8>::empty());
            assert((a1, n1) == add_class(a0, n0, 0x0d));
        }
        return true;
    }
    let b: u8 = if w_var1 == 0xc788 {
        0x1f
    } else if w_var1 == 0xc5c6 {
        0x20
    } else if w_var1 == 0xc8b8 {
        0x2a
    } else if w_var1 == 0xd1b1 {
        0x17
    } else if n > 2 && pw_vstr[n - 3] == 0xacc4 && w_var1 == 0xc2dc {
        0x21
    } else {
        proof {
            assert(bs =~= Seq::<u8>::empty());
        }
        return false;
    };
    yong_yon_add(pb_array, pn_size, b);
    proof {
        assert(bs.drop_first() =~= Seq::<u8>::empty());
    }
    true
}

/// All classes a predicate string gets: the fixed ones where it has them, else the
/// regular-verb then the irregular-predicate ones.
pub open spec fn yong_yon_bytes(v: Seq<u16>) -> Seq<u8> {
    if v.len() < 2 {
        Seq::empty()
    } else if except_bytes(v).len() > 0 {
        except_bytes(v)
    } else {
        verb_bytes(v) + hong_bytes(v)
    }
}

/// Where the class rules read syllables that cannot be split into jamo: a string with
/// fixed classes never gets that far.
pub open spec fn yong_yon_ok(v: Seq<u16>) -> bool {
    v.len() < 2 || except_bytes(v).len() > 0 || tail_ok(v)
}

proof fn lemma_add_classes_grows(a: Seq<u8>, n: int, x: Seq<u8>)
    ensures
        add_classes(a, n, x).1 >= n,
    decreases x.len(),
{
    if x.len() > 0 {
        let p = add_class(a, n, x[0]);
        lemma_add_classes_grows(p.0, p.1, x.drop_first());
    }
}

proof fn lemma_add_classes_concat(a: Seq<u8>, n: int, x: Seq<u8>, y: Seq<u8>)
    ensures
        add_classes(a, n, x + y) == add_classes(add_classes(a, n, x).0, add_classes(a, n, x).1, y),
    decreases x.len(),
{
    if x.len() > 0 {
        let p = add_class(a, n, x[0]);
        assert((x + y).drop_first() =~= x.drop_first() + y);
        lemma_add_classes_concat(p.0, p.1, x.drop_first(), y);
    } else {
        assert(x + y =~= y);
    }
}

/// Adds all conjugation classes of a predicate string (the stem followed by the ending
/// syllable) to the list; true where it has any.
pub fn get_yong_yon_num(pw_vstr: &[u16], pb_array: &mut [u8; 2], pn_size: &mut i32) -> (r: bool)
    requires
        *old(pn_size) >= 0,
        yong_yon_ok(pw_vstr@),
    ensures
        r == (yong_yon_bytes(pw_vstr@).len() > 0),
        (final(pb_array)@, *final(pn_size) as int) == add_classes(
            old(pb_array)@,
            *old(pn_size) as int,
            yong_yon_bytes(pw_vstr@),
        ),
{
    if pw_vstr.len() < 2 {
        proof {
            assert(add_classes(pb_array@, *pn_size as int, Seq::<u8>::empty()) == (pb_array@, *pn_size as int));
        }
        return false;
    }
    if except_yong_yon(pw_vstr, pb_array, pn_size) {
        return true;
    }
    let ghost a0 = pb_array@;
    let ghost n0 = *pn_size as int;
    let b1 = get_verb_num(pw_vstr, pb_array, pn_size);
    proof {
        lemma_add_classes_grows(a0, n0, verb_bytes(pw_vstr@));
    }
    let b2 = get_hong_yong_sa_num(pw_vstr, pb_array, pn_size);
    proof {
        lemma_add_classes_concat(a0, n0, verb_bytes(pw_vstr@), hong_bytes(pw_vstr@));
    }
    b1 || b2
}

} // verus!
