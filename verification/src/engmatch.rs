//! Context patterns of the English letter-to-sound rules.
use vstd::prelude::*;
use vstd::string::StringSliceAdditionalSpecFns;

verus! {

/// A letter of the Latin alphabet.
pub open spec fn is_alpha(c: u8) -> bool {
    (0x41 <= c <= 0x5A) || (0x61 <= c <= 0x7A)
}

/// A capital vowel letter: `A`, `E`, `I`, `O` or `U`.
pub open spec fn is_vowel(c: u8) -> bool {
    c == 0x41 || c == 0x45 || c == 0x49 || c == 0x4F || c == 0x55
}

/// A capital letter that is not a vowel.
pub open spec fn is_consonant(c: u8) -> bool {
    0x41 <= c <= 0x5A && !is_vowel(c)
}

/// A voiced consonant: `B D G J L M N R V W Z`.
pub open spec fn is_voiced(c: u8) -> bool {
    c == 0x44 || c == 0x42 || c == 0x56 || c == 0x47 || c == 0x4A || c == 0x4C || c == 0x4D || c == 0x4E
        || c == 0x52 || c == 0x57 || c == 0x5A
}

/// A front vowel letter for `+`: `I`, `E` or `Y`.
pub open spec fn is_front(c: u8) -> bool {
    c == 0x49 || c == 0x45 || c == 0x59
}

/// A pattern character that stands for itself: a letter, an apostrophe or a space.
pub open spec fn is_literal(c: u8) -> bool {
    is_alpha(c) || c == 0x27 || c == 0x20
}

fn alpha(c: u8) -> (r: bool)
    ensures
        r == is_alpha(c),
{
    (0x41 <= c && c <= 0x5A) || (0x61 <= c && c <= 0x7A)
}

fn vowel(c: u8) -> (r: bool)
    ensures
        r == is_vowel(c),
{
    c == 0x41 || c == 0x45 || c == 0x49 || c == 0x4F || c == 0x55
}

fn consonant(c: u8) -> (r: bool)
    ensures
        r == is_consonant(c),
{
    0x41 <= c && c <= 0x5A && !vowel(c)
}

fn voiced(c: u8) -> (r: bool)
    ensures
        r == is_voiced(c),
{
    c == 0x44 || c == 0x42 || c == 0x56 || c == 0x47 || c == 0x4A || c == 0x4C || c == 0x4D || c == 0x4E
        || c == 0x52 || c == 0x57 || c == 0x5A
}

/// The first position from `c` down that is before the word or not a vowel.
pub open spec fn back_past_vowels(w: Seq<u8>, c: int) -> int
    decreases c + 1,
{
    if c < 0 || c >= w.len() || !is_vowel(w[c]) {
        c
    } else {
        back_past_vowels(w, c - 1)
    }
}

/// The first position from `c` down that is before the word or not a consonant.
pub open spec fn back_past_consonants(w: Seq<u8>, c: int) -> int
    decreases c + 1,
{
    if c < 0 || c >= w.len() || !is_consonant(w[c]) {
        c
    } else {
        back_past_consonants(w, c - 1)
    }
}

/// The first position from `c` on that is past the word or not a vowel.
pub open spec fn fwd_past_vowels(w: Seq<u8>, c: int) -> int
    decreases w.len() - c,
{
    if c < 0 || c >= w.len() || !is_vowel(w[c]) {
        c
    } else {
        fwd_past_vowels(w, c + 1)
    }
}

/// The first position from `c` on that is past the word or not a consonant.
pub open spec fn fwd_past_consonants(w: Seq<u8>, c: int) -> int
    decreases w.len() - c,
{
    if c < 0 || c >= w.len() || !is_consonant(w[c]) {
        c
    } else {
        fwd_past_consonants(w, c + 1)
    }
}

/// The left context pattern `p`, read from its end, matches the word from position `ctx`
/// leftwards, with the last `i` pattern characters already matched.
pub open spec fn left_from(p: Seq<u8>, w: Seq<u8>, i: int, ctx: int) -> bool
    decreases p.len() - i,
{
    if i < 0 || i >= p.len() {
        true
    } else if ctx < 0 {
        false
    } else {
        let pc = p[p.len() - 1 - i];
        let c = w[ctx];
        let next = if is_literal(pc) {
            if c == pc {
                Some(ctx - 1)
            } else {
                None
            }
        } else if pc == 0x2E {
            if is_voiced(c) {
                Some(ctx - 1)
            } else {
                None
            }
        } else if pc == 0x2B {
            if is_front(c) {
                Some(ctx - 1)
            } else {
                None
            }
        } else if pc == 0x23 {
            if is_vowel(c) {
                Some(back_past_vowels(w, ctx - 1))
            } else {
                None
            }
        } else if pc == 0x3A {
            Some(back_past_consonants(w, ctx))
        } else if pc == 0x5E {
            if is_consonant(c) {
                Some(ctx - 1)
            } else {
                None
            }
        } else {
            None
        };
        match next {
            None => false,
            Some(n) => i + 1 == p.len() || left_from(p, w, i + 1, n),
        }
    }
}

/// Where the `%` suffix pattern (`E`, `ER`, `ES`, `ED`, `ELY`, or `ING`) leaves the match
/// from `ctx`, or `None` where it does not match. A lone `E` before `L` matches just the
/// `E`.
pub open spec fn suffix_end(w: Seq<u8>, ctx: int) -> Option<int> {
    let at = |k: int| if 0 <= k < w.len() { w[k] } else { 0u8 };
    if 0 <= ctx < w.len() && w[ctx] == 0x45 {
        if at(ctx + 1) == 0x4C {
            if at(ctx + 2) == 0x59 {
                Some(ctx + 3)
            } else {
                Some(ctx + 1)
            }
        } else if at(ctx + 1) == 0x52 || at(ctx + 1) == 0x53 || at(ctx + 1) == 0x44 {
            Some(ctx + 2)
        } else {
            Some(ctx + 1)
        }
    } else if 0 <= ctx && ctx + 2 < w.len() && w[ctx] == 0x49 && w[ctx + 1] == 0x4E && w[ctx + 2] == 0x47 {
        Some(ctx + 3)
    } else {
        None
    }
}

/// The right context pattern `p` from its character `pi` on matches the word from `ctx`.
pub open spec fn right_from(p: Seq<u8>, w: Seq<u8>, pi: int, ctx: int) -> bool
    decreases p.len() - pi,
{
    if pi < 0 || pi >= p.len() {
        true
    } else {
        let pc = p[pi];
        let has = 0 <= ctx < w.len();
        let next = if is_literal(pc) {
            if has && w[ctx] == pc {
                Some(ctx + 1)
            } else {
                None
            }
        } else if pc == 0x23 {
            if has && is_vowel(w[ctx]) {
                Some(fwd_past_vowels(w, ctx + 1))
            } else {
                None
            }
        } else if pc == 0x25 {
            suffix_end(w, ctx)
        } else if pc == 0x2B {
            if has && is_front(w[ctx]) {
                Some(ctx + 1)
            } else {
                None
            }
        } else if pc == 0x2E {
            if has && is_voiced(w[ctx]) {
                Some(ctx + 1)
            } else {
                None
            }
        } else if pc == 0x3A {
            Some(fwd_past_consonants(w, ctx))
        } else if pc == 0x5E {
            if has && is_consonant(w[ctx]) {
                Some(ctx + 1)
            } else {
                None
            }
        } else {
            None
        };
        match next {
            None => false,
            Some(n) => right_from(p, w, pi + 1, n),
        }
    }
}

proof fn lemma_back_bounds(w: Seq<u8>, c: int)
    requires
        c < w.len(),
    ensures
        back_past_vowels(w, c) <= c,
        back_past_vowels(w, c) >= 0 ==> !is_vowel(w[back_past_vowels(w, c)]),
        back_past_consonants(w, c) <= c,
        back_past_consonants(w, c) >= 0 ==> !is_consonant(w[back_past_consonants(w, c)]),
    decreases c + 1,
{
    if c >= 0 {
        lemma_back_bounds(w, c - 1);
    }
}

proof fn lemma_fwd_bounds(w: Seq<u8>, c: int)
    requires
        0 <= c,
    ensures
        c <= fwd_past_vowels(w, c),
        c <= w.len() ==> fwd_past_vowels(w, c) <= w.len(),
        fwd_past_vowels(w, c) < w.len() ==> !is_vowel(w[fwd_past_vowels(w, c)]),
        c <= fwd_past_consonants(w, c),
        c <= w.len() ==> fwd_past_consonants(w, c) <= w.len(),
        fwd_past_consonants(w, c) < w.len() ==> !is_consonant(w[fwd_past_consonants(w, c)]),
    decreases w.len() - c,
{
    if c < w.len() {
        lemma_fwd_bounds(w, c + 1);
    }
}

/// Whether the left context `pat` matches `word` ending at position `ctx`, read leftwards
/// (see `left_from`); an empty pattern always matches.
pub fn leftmatch(pat: &str, word: &[u8], ctx: i64) -> (r: bool)
    requires
        ctx < word@.len(),
    ensures
        r == left_from(pat.spec_bytes(), word@, 0, ctx as int),
{
    let p = pat.as_bytes();
    let n = p.len();
    if n == 0 {
        return true;
    }
    let ghost c0 = ctx as int;
    let mut cur = ctx;
    let mut i: usize = 0;
    loop
        invariant
            p@ == pat.spec_bytes(),
            c0 == ctx as int,
            n == p@.len(),
            i < n,
            cur < word@.len(),
            left_from(p@, word@, i as int, cur as int) == left_from(pat.spec_bytes(), word@, 0, c0),
        decreases n - i,
    {
        if cur < 0 {
            return false;
        }
        let pc = p[n - 1 - i];
        let c = word[cur as usize];
        let next: Option<i64>;
        if alpha(pc) || pc == 0x27 || pc == 0x20 {
            next = if c == pc { Some(cur - 1) } else { None };
        } else if pc == 0x2E {
            next = if voiced(c) { Some(cur - 1) } else { None };
        } else if pc == 0x2B {
            next = if c == 0x49 || c == 0x45 || c == 0x59 { Some(cur - 1) } else { None };
        } else if pc == 0x23 {
            if vowel(c) {
                let mut k = cur - 1;
                while k >= 0 && vowel(word[k as usize])
                    invariant
                        -1 <= k < cur < word@.len(),
                        back_past_vowels(word@, k as int) == back_past_vowels(word@, cur - 1),
                    decreases k + 1,
                {
                    k = k - 1;
                }
                next = Some(k);
            } else {
                next = None;
            }
        } else if pc == 0x3A {
            let mut k = cur;
            while k >= 0 && consonant(word[k as usize])
                invariant
                    -1 <= k <= cur < word@.len(),
                    back_past_consonants(word@, k as int) == back_past_consonants(word@, cur as int),
                decreases k + 1,
            {
                k = k - 1;
            }
            next = Some(k);
        } else if pc == 0x5E {
            next = if consonant(c) { Some(cur - 1) } else { None };
        } else {
            next = None;
        }
        proof {
            assert(left_from(p@, word@, i as int, cur as int) == match next {
                None => false,
                Some(nc) => i + 1 == p@.len() || left_from(p@, word@, i + 1, nc as int),
            });
        }
        match next {
            None => {
                return false;
            },
            Some(nc) => {
                if i + 1 == n {
                    return true;
                }
                cur = nc;
            },
        }
        i = i + 1;
    }
}

/// Whether the right context `pat` matches `word` from position `ctx` on (see
/// `right_from`); an empty pattern always matches.
pub fn rightmatch(pat: &str, word: &[u8], ctx: usize) -> (r: bool)
    ensures
        r == right_from(pat.spec_bytes(), word@, 0, ctx as int),
{
    let p = pat.as_bytes();
    let n = p.len();
    let len = word.len();
    let ghost c0 = ctx as int;
    let mut cur = ctx;
    let mut pi: usize = 0;
    loop
        invariant
            p@ == pat.spec_bytes(),
            c0 == ctx as int,
            n == p@.len(),
            len == word@.len(),
            pi <= n,
            right_from(p@, word@, pi as int, cur as int) == right_from(pat.spec_bytes(), word@, 0, c0),
        decreases n - pi,
    {
        if pi == n {
            return true;
        }
        let pc = p[pi];
        let has = cur < len;
        let next: Option<usize>;
        if alpha(pc) || pc == 0x27 || pc == 0x20 {
            next = if has && word[cur] == pc { Some(cur + 1) } else { None };
        } else if pc == 0x23 {
            if has && vowel(word[cur]) {
                let mut k = cur + 1;
                while k < len && vowel(word[k])
                    invariant
                        cur < k <= len == word@.len(),
                        fwd_past_vowels(word@, k as int) == fwd_past_vowels(word@, cur + 1),
                    decreases len - k,
                {
                    k = k + 1;
                }
                next = Some(k);
            } else {
                next = None;
            }
        } else if pc == 0x25 {
            if has && word[cur] == 0x45 {
                let c2 = if cur + 1 < len { word[cur + 1] } else { 0 };
                if c2 == 0x4C {
                    let c3 = if cur + 2 < len { word[cur + 2] } else { 0 };
                    next = if c3 == 0x59 { Some(cur + 3) } else { Some(cur + 1) };
                } else if c2 == 0x52 || c2 == 0x53 || c2 == 0x44 {
                    next = Some(cur + 2);
                } else {
                    next = Some(cur + 1);
                }
            } else if cur < len && len - cur > 2 && word[cur] == 0x49 && word[cur + 1] == 0x4E && word[cur + 2] == 0x47 {
                next = Some(cur + 3);
            } else {
                next = None;
            }
        } else if pc == 0x2B {
            next = if has && (word[cur] == 0x49 || word[cur] == 0x45 || word[cur] == 0x59) {
                Some(cur + 1)
            } else {
                None
            };
        } else if pc == 0x2E {
            next = if has && voiced(word[cur]) { Some(cur + 1) } else { None };
        } else if pc == 0x3A {
            let mut k = cur;
            while k < len && consonant(word[k])
                invariant
                    cur <= k,
                    len == word@.len(),
                    fwd_past_consonants(word@, k as int) == fwd_past_consonants(word@, cur as int),
                decreases len - k,
            {
                k = k + 1;
            }
            next = Some(k);
        } else if pc == 0x5E {
            next = if has && consonant(word[cur]) { Some(cur + 1) } else { None };
        } else {
            next = None;
        }
        proof {
            assert(right_from(p@, word@, pi as int, cur as int) == match next {
                None => false,
                Some(nc) => right_from(p@, word@, pi + 1, nc as int),
            });
        }
        match next {
            None => {
                return false;
            },
            Some(nc) => {
                cur = nc;
            },
        }
        pi = pi + 1;
    }
}

} // verus!
