//! Character classes of the input text and its division into runs of one class.
use vstd::prelude::*;
use crate::hanja::Hanja2Korea;

verus! {

/// A character with its class.
#[derive(Debug, Clone, Copy)]
pub struct CharInfo {
    pub f_char_type: u8,
    pub w_char: u16,
}

/// A run of characters of one class.
#[derive(Debug, Clone)]
pub struct StrInfo {
    pub f_char_type: u8,
    pub pw_str: Vec<u16>,
    pub n_str_len: usize,
}

/// What the classifier reads from the pronunciation dictionaries: the keys of the
/// single-character pronunciations, the keys of the string pronunciations, and the
/// hanja readings.
#[derive(Debug, Clone)]
pub struct CharDicts {
    pub unipron: Vec<Vec<u16>>,
    pub strpron: Vec<Vec<u16>>,
    pub hanja: Hanja2Korea,
}

/// The hanja table covers every code unit.
pub open spec fn char_dicts_wf(d: CharDicts) -> bool {
    d.hanja.table@.len() == 0x10000
}

/// `k` is one of `keys`.
pub open spec fn has_key(keys: Seq<Vec<u16>>, k: Seq<u16>) -> bool {
    exists|i: int| 0 <= i < keys.len() && #[trigger] keys[i]@ == k
}

fn units_eq(a: &[u16], b: &[u16]) -> (r: bool)
    ensures
        r == (a@ == b@),
{
    if a.len() != b.len() {
        return false;
    }
    let mut i: usize = 0;
    while i < a.len()
        invariant
            a@.len() == b@.len(),
            i <= a@.len(),
            forall|j: int| 0 <= j < i ==> a@[j] == b@[j],
        decreases a@.len() - i,
    {
        if a[i] != b[i] {
            return false;
        }
        i = i + 1;
    }
    proof {
        assert(a@ =~= b@);
    }
    true
}

/// Is `k` one of `keys`.
pub fn contains_key(keys: &Vec<Vec<u16>>, k: &[u16]) -> (r: bool)
    ensures
        r == has_key(keys@, k@),
{
    let mut i: usize = 0;
    while i < keys.len()
        invariant
            i <= keys@.len(),
            forall|j: int| 0 <= j < i ==> (#[trigger] keys@[j])@ != k@,
        decreases keys@.len() - i,
    {
        if units_eq(keys[i].as_slice(), k) {
            return true;
        }
        i = i + 1;
    }
    false
}

/// The class a character has by itself: 2 digit, 3 letter, 5 blank, 6 opening and 7
/// closing bracket, 11 quote, 8 sentence end, 9 comma, 13 operator, 4 line break, 1
/// compatibility jamo, 0 Hangul syllable; `None` for the rest.
pub open spec fn base_attr(w: u16) -> Option<u8> {
    if 0x30 <= w <= 0x39 {
        Some(0x02)
    } else if (0x61 <= w <= 0x7a) || (0x41 <= w <= 0x5a) {
        Some(0x03)
    } else if w == 9 || w == 0x20 {
        Some(0x05)
    } else if w == 0x28 || w == 0x3c || w == 0x5b || w == 0x7b {
        Some(0x06)
    } else if w == 0x29 || w == 0x3e || w == 0x5d || w == 0x7d {
        Some(0x07)
    } else if w == 0x22 || w == 0x27 {
        Some(0x0b)
    } else if w == 0x21 || w == 0x2e || w == 0x3f {
        Some(0x08)
    } else if w == 0x2c {
        Some(0x09)
    } else if w == 0x2d || w == 0x2b || w == 0x2f || w == 0x2a || w == 0x3d || w == 0x26 || w
        == 0x25 || w == 0x5e || w == 0x7c {
        Some(0x0d)
    } else if w == 10 || w == 0x0d {
        Some(0x04)
    } else if 0x3131 <= w <= 0x3163 {
        Some(0x01)
    } else if 0xac00 <= w <= 0xd7a3 {
        Some(0x00)
    } else {
        None
    }
}

/// The class of a remaining character, and what it is rewritten to: CJK and private-use
/// brackets and quotes as brackets (some as their ASCII forms), everything else 10
/// (other).
pub open spec fn symbol_attr(w: u16) -> (u8, u16) {
    if w == 0x300d || w == 0x226b || w == 0x300b || w == 0xf10a {
        (0x07, w)
    } else if w == 0x3008 {
        (0x06, 0x3c)
    } else if w == 0x201d {
        (0x07, 0x22)
    } else if w == 0x201c {
        (0x06, 0x22)
    } else if w == 0x3009 {
        (0x07, 0x3e)
    } else if w == 0x226a || w == 0x300a || w == 0x300c || w == 0x300e || w == 0x300f || w == 0x3010
        || w == 0x3011 || w == 0xf109 {
        (0x06, w)
    } else if w == 0x3014 {
        (0x06, 0x5b)
    } else if w == 0x3015 {
        (0x07, 0x5d)
    } else if w == 0xf107 {
        (0x06, 0x2c)
    } else if w == 0xf108 {
        (0x07, 0x27)
    } else {
        (0x0a, w)
    }
}

/// The class of a character and what it is rewritten to. With dictionaries, a character
/// with a pronunciation of its own is class 12, and a hanja with a reading is rewritten
/// to it as a Hangul syllable (class 0).
pub open spec fn char_attr(w: u16, d: Option<CharDicts>) -> (u8, u16) {
    match base_attr(w) {
        Some(a) => (a, w),
        None => match d {
            Some(dd) => if has_key(dd.unipron@, seq![0x31u16, w]) {
                (0x0c, w)
            } else if dd.hanja.table@[w as int] != w && dd.hanja.table@[w as int] != 0 {
                (0x00, dd.hanja.table@[w as int])
            } else {
                symbol_attr(w)
            },
            None => symbol_attr(w),
        },
    }
}

/// Classifies a character and rewrites it in place (see `char_attr`).
pub fn get_uni_char_attribute(pw_code: &mut u16, d: Option<&CharDicts>) -> (r: u8)
    requires
        d matches Some(dd) ==> char_dicts_wf(*dd),
    ensures
        (r, *final(pw_code)) == char_attr(
            *old(pw_code),
            match d {
                Some(dd) => Some(*dd),
                None => None,
            },
        ),
{
    let w = *pw_code;
    if 0x30 <= w && w <= 0x39 {
        return 0x02;
    }
    if (0x61 <= w && w <= 0x7a) || (0x41 <= w && w <= 0x5a) {
        return 0x03;
    }
    if w == 9 || w == 0x20 {
        return 0x05;
    }
    if w == 0x28 || w == 0x3c || w == 0x5b || w == 0x7b {
        return 0x06;
    }
    if w == 0x29 || w == 0x3e || w == 0x5d || w == 0x7d {
        return 0x07;
    }
    if w == 0x22 || w == 0x27 {
        return 0x0b;
    }
    if w == 0x21 || w == 0x2e || w == 0x3f {
        return 0x08;
    }
    if w == 0x2c {
        return 0x09;
    }
    if w == 0x2d || w == 0x2b || w == 0x2f || w == 0x2a || w == 0x3d || w == 0x26 || w == 0x25 || w
        == 0x5e || w == 0x7c {
        return 0x0d;
    }
    if w == 10 || w == 0x0d {
        return 0x04;
    }
    if 0x3131 <= w && w <= 0x3163 {
        return 0x01;
    }
    if 0xac00 <= w && w <= 0xd7a3 {
        return 0x00;
    }
    if let Some(dd) = d {
        let key: [u16; 2] = [0x31, w];
        proof {
            assert(key@ =~= seq![0x31u16, w]);
        }
        if contains_key(&dd.unipron, &key) {
            return 0x0c;
        }
        let v = dd.hanja.get(w);
        if v != w && v != 0 {
            *pw_code = v;
            return 0x00;
        }
    }
    let (r, w2): (u8, u16) = if w == 0x300d || w == 0x226b || w == 0x300b || w == 0xf10a {
        (0x07, w)
    } else if w == 0x3008 {
        (0x06, 0x3c)
    } else if w == 0x201d {
        (0x07, 0x22)
    } else if w == 0x201c {
        (0x06, 0x22)
    } else if w == 0x3009 {
        (0x07, 0x3e)
    } else if w == 0x226a || w == 0x300a || w == 0x300c || w == 0x300e || w == 0x300f || w == 0x3010
        || w == 0x3011 || w == 0xf109 {
        (0x06, w)
    } else if w == 0x3014 {
        (0x06, 0x5b)
    } else if w == 0x3015 {
        (0x07, 0x5d)
    } else if w == 0xf107 {
        (0x06, 0x2c)
    } else if w == 0xf108 {
        (0x07, 0x27)
    } else {
        (0x0a, w)
    };
    *pw_code = w2;
    r
}

/// Classifies each character of a text.
pub fn divide_str_to_char(pch: &[u16], d: Option<&CharDicts>) -> (r: Vec<CharInfo>)
    requires
        d matches Some(dd) ==> char_dicts_wf(*dd),
    ensures
        r@.len() == pch@.len(),
        forall|i: int|
            0 <= i < pch@.len() ==> ((#[trigger] r@[i]).f_char_type, r@[i].w_char) == char_attr(
                pch@[i],
                match d {
                    Some(dd) => Some(*dd),
                    None => None,
                },
            ),
{
    let mut out: Vec<CharInfo> = Vec::new();
    let mut i: usize = 0;
    while i < pch.len()
        invariant
            i <= pch@.len(),
            out@.len() == i,
            d matches Some(dd) ==> char_dicts_wf(*dd),
            forall|j: int|
                0 <= j < i ==> ((#[trigger] out@[j]).f_char_type, out@[j].w_char) == char_attr(
                    pch@[j],
                    match d {
                        Some(dd) => Some(*dd),
                        None => None,
                    },
                ),
        decreases pch@.len() - i,
    {
        let mut wc = pch[i];
        let t = get_uni_char_attribute(&mut wc, d);
        out.push(CharInfo { f_char_type: t, w_char: wc });
        i = i + 1;
    }
    out
}

/// Classes whose neighbouring characters are merged into one run: Hangul syllables,
/// digits, letters, blanks and operators.
pub open spec fn mergeable(t: u8) -> bool {
    t == 0x02 || t == 0x00 || t == 0x03 || t == 0x05 || t == 0x0d
}

/// The run length from `i`, given that its first `k` characters have class `t`: it grows
/// while the next character has class `t`, up to 20.
pub open spec fn run_from(c: Seq<CharInfo>, i: int, t: u8, k: int) -> int
    decreases 20 - k,
{
    if k < 20 && i + k < c.len() && c[i + k].f_char_type == t {
        run_from(c, i, t, k + 1)
    } else {
        k
    }
}

/// The length of the run that starts at `i`.
pub open spec fn run_len(c: Seq<CharInfo>, i: int) -> int {
    let t = c[i].f_char_type;
    if mergeable(t) && i + 1 < c.len() && c[i + 1].f_char_type == t {
        run_from(c, i, t, 2)
    } else {
        1
    }
}

proof fn lemma_run_from_bounds(c: Seq<CharInfo>, i: int, t: u8, k: int)
    requires
        0 <= i,
        1 <= k <= 20,
        i + k <= c.len(),
    ensures
        k <= run_from(c, i, t, k) <= 20,
        i + run_from(c, i, t, k) <= c.len(),
    decreases 20 - k,
{
    if k < 20 && i + k < c.len() && c[i + k].f_char_type == t {
        lemma_run_from_bounds(c, i, t, k + 1);
    }
}

/// The runs of a classified text from `i` on: (class, characters) of each.
pub open spec fn runs_from(c: Seq<CharInfo>, i: int) -> Seq<(u8, Seq<u16>)>
    decreases c.len() - i,
{
    if i < 0 || i >= c.len() {
        Seq::empty()
    } else {
        let s = run_len(c, i);
        if s <= 0 || i + s > c.len() {
            Seq::empty()
        } else {
            seq![(c[i].f_char_type, c.subrange(i, i + s).map_values(|x: CharInfo| x.w_char))] + runs_from(c, i + s)
        }
    }
}

/// Divides a classified text into runs of one class.
pub fn merge_char_to_sub_str(chars: &[CharInfo]) -> (r: Vec<StrInfo>)
    ensures
        r@.len() == runs_from(chars@, 0).len(),
        forall|k: int|
            0 <= k < r@.len() ==> ((#[trigger] r@[k]).f_char_type, r@[k].pw_str@) == runs_from(chars@, 0)[k]
                && r@[k].n_str_len == r@[k].pw_str@.len(),
{
    let n = chars.len();
    let mut out: Vec<StrInfo> = Vec::new();
    let mut i: usize = 0;
    while i < n
        invariant
            n == chars@.len(),
            i <= n,
            runs_from(chars@, 0) == out@.map_values(|x: StrInfo| (x.f_char_type, x.pw_str@)) + runs_from(
                chars@,
                i as int,
            ),
            forall|k: int| 0 <= k < out@.len() ==> (#[trigger] out@[k]).n_str_len == out@[k].pw_str@.len(),
        decreases n - i,
    {
        let t = chars[i].f_char_type;
        let size: usize;
        if t == 0x02 || t == 0x00 || t == 0x03 || t == 0x05 || t == 0x0d {
            if i + 1 < n && t == chars[i + 1].f_char_type {
                let mut k: usize = 2;
                while k < 0x14 && n - i > k && t == chars[i + k].f_char_type
                    invariant
                        n == chars@.len(),
                        i < n,
                        2 <= k <= 20,
                        i + k <= n,
                        run_from(chars@, i as int, t, k as int) == run_from(chars@, i as int, t, 2),
                    decreases 20 - k,
                {
                    k = k + 1;
                }
                size = k;
            } else {
                size = 1;
            }
        } else {
            size = 1;
        }
        proof {
            assert(size as int == run_len(chars@, i as int));
            if size > 1 {
                lemma_run_from_bounds(chars@, i as int, t, 2);
            }
        }
        let mut s: Vec<u16> = Vec::new();
        let mut j: usize = 0;
        while j < size
            invariant
                i + size <= n == chars@.len(),
                j <= size,
                s@ == chars@.subrange(i as int, i + j).map_values(|x: CharInfo| x.w_char),
            decreases size - j,
        {
            s.push(chars[i + j].w_char);
            j = j + 1;
            proof {
                assert(s@ =~= chars@.subrange(i as int, i + j).map_values(|x: CharInfo| x.w_char));
            }
        }
        let len = s.len();
        let ghost before = out@.map_values(|x: StrInfo| (x.f_char_type, x.pw_str@));
        out.push(StrInfo { f_char_type: t, pw_str: s, n_str_len: len });
        proof {
            assert(out@.map_values(|x: StrInfo| (x.f_char_type, x.pw_str@)) =~= before.push(
                (t, chars@.subrange(i as int, i + size).map_values(|x: CharInfo| x.w_char)),
            ));
            assert(runs_from(chars@, i as int) == seq![(t, chars@.subrange(i as int, i + size).map_values(|x: CharInfo| x.w_char))]
                + runs_from(chars@, i + size));
            assert(before.push((t, chars@.subrange(i as int, i + size).map_values(|x: CharInfo| x.w_char)))
                + runs_from(chars@, i + size) =~= before + runs_from(chars@, i as int));
        }
        i = i + size;
    }
    proof {
        assert(runs_from(chars@, n as int) =~= Seq::<(u8, Seq<u16>)>::empty());
        assert(out@.map_values(|x: StrInfo| (x.f_char_type, x.pw_str@)) + Seq::<(u8, Seq<u16>)>::empty()
            =~= out@.map_values(|x: StrInfo| (x.f_char_type, x.pw_str@)));
        assert forall|k: int| 0 <= k < out@.len() implies ((#[trigger] out@[k]).f_char_type, out@[k].pw_str@)
            == runs_from(chars@, 0)[k] by {
            assert(out@.map_values(|x: StrInfo| (x.f_char_type, x.pw_str@))[k] == (out@[k].f_char_type, out@[k].pw_str@));
        }
    }
    out
}

/// The tag a run of a class gets as a word of its own.
pub open spec fn tag_of_attr(att: u8) -> u8 {
    if att == 0x06 {
        0x4e
    } else if att == 0x07 {
        0x4f
    } else if att == 0x08 {
        0x4c
    } else if att == 0x03 {
        0x4a
    } else if att == 0x09 {
        0x4d
    } else if att == 0x01 {
        0x53
    } else if att == 0x05 {
        0x6b
    } else if att == 0x02 {
        0x49
    } else if att == 0x0c {
        0x36
    } else {
        0x52
    }
}

/// The part-of-speech tag of a run of class `att`: `N` opening and `O` closing bracket,
/// `L` sentence end, `J` letters, `M` comma, `S` jamo, `k` blank, `I` digits, `6` a
/// character with its own pronunciation, `R` anything else.
pub fn set_tag_from_attribute(att: u8) -> (r: u8)
    ensures
        r == tag_of_attr(att),
{
    match att {
        0x06 => 0x4e,
        0x07 => 0x4f,
        0x08 => 0x4c,
        0x03 => 0x4a,
        0x09 => 0x4d,
        0x01 => 0x53,
        0x05 => 0x6b,
        0x02 => 0x49,
        0x0c => 0x36,
        _ => 0x52,
    }
}

/// A run as (class, characters, recorded length).
pub open spec fn info_view(x: StrInfo) -> (u8, Seq<u16>, usize) {
    (x.f_char_type, x.pw_str@, x.n_str_len)
}

/// The runs from `i` on, joined after `acc` (which starts with the marker 0x31), while
/// the join stays within six units: the last run index at which the join is a string
/// key, with the joined characters (without the marker); `best` if none is.
pub open spec fn unit_scan(
    infos: Seq<(u8, Seq<u16>, usize)>,
    keys: Seq<Vec<u16>>,
    i: int,
    acc: Seq<u16>,
    best: Option<(int, Seq<u16>)>,
) -> Option<(int, Seq<u16>)>
    decreases infos.len() - i,
{
    if i < 0 || i >= infos.len() || acc.len() + infos[i].1.len() > 6 {
        best
    } else {
        let acc2 = acc + infos[i].1;
        let best2 = if has_key(keys, acc2) { Some((i, acc2.drop_first())) } else { best };
        if infos.len() <= i + 1 {
            best2
        } else {
            unit_scan(infos, keys, i + 1, acc2, best2)
        }
    }
}

/// The runs after merging, from run `n` on: where runs `n..=e` (the longest such) join to
/// a string key, they become one run of class 12.
pub open spec fn unit_merge_from(infos: Seq<(u8, Seq<u16>, usize)>, keys: Seq<Vec<u16>>, n: int) -> Seq<(u8, Seq<u16>, usize)>
    decreases infos.len() - n,
{
    if n < 0 || n >= infos.len() {
        infos
    } else {
        match unit_scan(infos, keys, n, seq![0x31u16], None) {
            None => unit_merge_from(infos, keys, n + 1),
            Some(p) => if p.0 < n || p.0 >= infos.len() {
                infos
            } else if p.0 == n {
                unit_merge_from(infos.update(n, (0x0cu8, infos[n].1, infos[n].2)), keys, n + 1)
            } else {
                unit_merge_from(
                    infos.subrange(0, n) + seq![(0x0cu8, p.1, p.1.len() as usize)] + infos.subrange(
                        p.0 + 1,
                        infos.len() as int,
                    ),
                    keys,
                    n + 1,
                )
            },
        }
    }
}

fn copy_units(v: &[u16]) -> (r: Vec<u16>)
    ensures
        r@ == v@,
{
    let mut out: Vec<u16> = Vec::new();
    let mut i: usize = 0;
    while i < v.len()
        invariant
            i <= v@.len(),
            out@ == v@.subrange(0, i as int),
        decreases v@.len() - i,
    {
        out.push(v[i]);
        i = i + 1;
        proof {
            assert(out@ =~= v@.subrange(0, i as int));
        }
    }
    proof {
        assert(v@.subrange(0, v@.len() as int) =~= v@);
    }
    out
}

fn copy_info(x: &StrInfo) -> (r: StrInfo)
    ensures
        info_view(r) == info_view(*x),
{
    StrInfo { f_char_type: x.f_char_type, pw_str: copy_units(x.pw_str.as_slice()), n_str_len: x.n_str_len }
}

fn unit_scan_exec(infos: &Vec<StrInfo>, keys: &Vec<Vec<u16>>, n: usize) -> (r: Option<(usize, Vec<u16>)>)
    requires
        n < infos@.len(),
    ensures
        match unit_scan(infos@.map_values(|x: StrInfo| info_view(x)), keys@, n as int, seq![0x31u16], None) {
            None => r is None,
            Some(p) => r matches Some(q) && q.0 == p.0 && q.1@ == p.1,
        },
        r matches Some(q) ==> n <= q.0 < infos@.len(),
{
    let ghost iv = infos@.map_values(|x: StrInfo| info_view(x));
    let mut acc: Vec<u16> = Vec::new();
    acc.push(0x31);
    let mut best: Option<(usize, Vec<u16>)> = None;
    let ghost mut gbest: Option<(int, Seq<u16>)> = None;
    let mut i: usize = n;
    proof {
        assert(acc@ =~= seq![0x31u16]);
    }
    loop
        invariant
            iv == infos@.map_values(|x: StrInfo| info_view(x)),
            n <= i < infos@.len(),
            acc@.len() >= 1,
            unit_scan(iv, keys@, i as int, acc@, gbest) == unit_scan(iv, keys@, n as int, seq![0x31u16], None),
            match gbest {
                None => best is None,
                Some(p) => best matches Some(q) && q.0 == p.0 && q.1@ == p.1,
            },
            best matches Some(q) ==> n <= q.0 <= i,
        decreases infos@.len() - i,
    {
        let s = infos[i].pw_str.as_slice();
        proof {
            assert(iv[i as int].1 == s@);
        }
        if acc.len() > 6 || s.len() > 6 - acc.len() {
            return best;
        }
        let mut k: usize = 0;
        let ghost acc0 = acc@;
        while k < s.len()
            invariant
                k <= s@.len(),
                acc@ == acc0 + s@.subrange(0, k as int),
            decreases s@.len() - k,
        {
            acc.push(s[k]);
            k = k + 1;
            proof {
                assert(acc@ =~= acc0 + s@.subrange(0, k as int));
            }
        }
        proof {
            assert(s@.subrange(0, s@.len() as int) =~= s@);
        }
        if contains_key(keys, acc.as_slice()) {
            let mut copy: Vec<u16> = Vec::new();
            let mut t: usize = 1;
            while t < acc.len()
                invariant
                    1 <= t <= acc@.len(),
                    copy@ == acc@.subrange(1, t as int),
                decreases acc@.len() - t,
            {
                copy.push(acc[t]);
                t = t + 1;
                proof {
                    assert(copy@ =~= acc@.subrange(1, t as int));
                }
            }
            proof {
                assert(copy@ =~= acc@.drop_first());
                gbest = Some((i as int, acc@.drop_first()));
            }
            best = Some((i, copy));
        }
        if infos.len() <= i + 1 {
            return best;
        }
        i = i + 1;
    }
}

/// Merges neighbouring runs that together spell a string key into one run of class 12,
/// taking at each run the longest such join (of at most five characters).
pub fn unit_str_merge_process(infos: &mut Vec<StrInfo>, d: Option<&CharDicts>)
    ensures
        d is None ==> final(infos)@ == old(infos)@,
        d matches Some(dd) ==> final(infos)@.map_values(|x: StrInfo| info_view(x)) == unit_merge_from(
            old(infos)@.map_values(|x: StrInfo| info_view(x)),
            dd.strpron@,
            0,
        ),
{
    let dd = match d {
        Some(dd) => dd,
        None => {
            return;
        },
    };
    let ghost keys = dd.strpron@;
    let ghost target = unit_merge_from(infos@.map_values(|x: StrInfo| info_view(x)), keys, 0);
    let mut n: usize = 0;
    while n < infos.len()
        invariant
            keys == dd.strpron@,
            unit_merge_from(infos@.map_values(|x: StrInfo| info_view(x)), keys, n as int) == target,
        decreases infos@.len() - n,
    {
        let ghost iv = infos@.map_values(|x: StrInfo| info_view(x));
        match unit_scan_exec(infos, &dd.strpron, n) {
            None => {
                n = n + 1;
            },
            Some((e, copy)) => {
                if e == n {
                    let old_info = copy_info(&infos[n]);
                    infos.set(n, StrInfo { f_char_type: 0x0c, pw_str: old_info.pw_str, n_str_len: old_info.n_str_len });
                    proof {
                        assert(infos@.map_values(|x: StrInfo| info_view(x)) =~= iv.update(
                            n as int,
                            (0x0cu8, iv[n as int].1, iv[n as int].2),
                        ));
                    }
                    n = n + 1;
                } else {
                    let mut new_infos: Vec<StrInfo> = Vec::new();
                    let mut k: usize = 0;
                    while k < n
                        invariant
                            n < infos@.len(),
                            k <= n,
                            new_infos@.map_values(|x: StrInfo| info_view(x)) == iv.subrange(0, k as int),
                            iv == infos@.map_values(|x: StrInfo| info_view(x)),
                        decreases n - k,
                    {
                        let ghost before = new_infos@.map_values(|x: StrInfo| info_view(x));
                        let c = copy_info(&infos[k]);
                        proof {
                            assert(iv[k as int] == info_view(infos@[k as int]));
                        }
                        new_infos.push(c);
                        proof {
                            assert(new_infos@.map_values(|x: StrInfo| info_view(x)) =~= before.push(info_view(c)));
                        }
                        k = k + 1;
                        proof {
                            assert(new_infos@.map_values(|x: StrInfo| info_view(x)) =~= iv.subrange(0, k as int));
                        }
                    }
                    let len = copy.len();
                    new_infos.push(StrInfo { f_char_type: 0x0c, pw_str: copy, n_str_len: len });
                    let ghost mid = new_infos@.map_values(|x: StrInfo| info_view(x));
                    let mut k2: usize = e + 1;
                    while k2 < infos.len()
                        invariant
                            e + 1 <= k2 <= infos@.len(),
                            new_infos@.map_values(|x: StrInfo| info_view(x)) == mid + iv.subrange(e + 1, k2 as int),
                            iv == infos@.map_values(|x: StrInfo| info_view(x)),
                        decreases infos@.len() - k2,
                    {
                        let ghost before = new_infos@.map_values(|x: StrInfo| info_view(x));
                        let c = copy_info(&infos[k2]);
                        proof {
                            assert(iv[k2 as int] == info_view(infos@[k2 as int]));
                        }
                        new_infos.push(c);
                        proof {
                            assert(new_infos@.map_values(|x: StrInfo| info_view(x)) =~= before.push(info_view(c)));
                        }
                        k2 = k2 + 1;
                        proof {
                            assert(new_infos@.map_values(|x: StrInfo| info_view(x)) =~= mid + iv.subrange(e + 1, k2 as int));
                        }
                    }
                    proof {
                        assert(new_infos@.map_values(|x: StrInfo| info_view(x)) =~= iv.subrange(0, n as int) + seq![(0x0cu8, copy@, len)]
                            + iv.subrange(e + 1, iv.len() as int));
                    }
                    *infos = new_infos;
                    n = n + 1;
                }
            },
        }
    }
}

/// Classifies a text and divides it into runs, merging runs that spell a string key
/// when `b_unit` is set.
pub fn get_char_type_str(pch: &[u16], b_unit: bool, d: Option<&CharDicts>) -> (r: Vec<StrInfo>)
    requires
        d matches Some(dd) ==> char_dicts_wf(*dd),
    ensures
        exists|chars: Seq<CharInfo>|
            chars.len() == pch@.len() && (forall|i: int|
                0 <= i < pch@.len() ==> ((#[trigger] chars[i]).f_char_type, chars[i].w_char) == char_attr(
                    pch@[i],
                    match d {
                        Some(dd) => Some(*dd),
                        None => None,
                    },
                )) && r@.map_values(|x: StrInfo| info_view(x)) == (match d {
                Some(dd) => if b_unit {
                    unit_merge_from(runs_view(chars), dd.strpron@, 0)
                } else {
                    runs_view(chars)
                },
                None => runs_view(chars),
            }),
{
    let chars = divide_str_to_char(pch, d);
    let mut infos = merge_char_to_sub_str(chars.as_slice());
    proof {
        assert(infos@.map_values(|x: StrInfo| info_view(x)) =~= runs_view(chars@));
    }
    if b_unit {
        unit_str_merge_process(&mut infos, d);
    }
    infos
}

/// The runs of a classified text, with their lengths.
pub open spec fn runs_view(c: Seq<CharInfo>) -> Seq<(u8, Seq<u16>, usize)> {
    runs_from(c, 0).map_values(|p: (u8, Seq<u16>)| (p.0, p.1, p.1.len() as usize))
}

/// The code units of runs, in order.
pub open spec fn run_text(rs: Seq<(u8, Seq<u16>)>) -> Seq<u16>
    decreases rs.len(),
{
    if rs.len() == 0 {
        Seq::empty()
    } else {
        rs[0].1 + run_text(rs.drop_first())
    }
}

/// The class of each code unit of runs, in order.
pub open spec fn run_classes(rs: Seq<(u8, Seq<u16>)>) -> Seq<u8>
    decreases rs.len(),
{
    if rs.len() == 0 {
        Seq::empty()
    } else {
        Seq::new(rs[0].1.len(), |j: int| rs[0].0) + run_classes(rs.drop_first())
    }
}

proof fn lemma_run_from(c: Seq<CharInfo>, i: int, t: u8, k: int)
    requires
        0 <= i,
        1 <= k <= 20,
        i + k <= c.len(),
        forall|m: int| i <= m < i + k ==> (#[trigger] c[m]).f_char_type == t,
    ensures
        k <= run_from(c, i, t, k) <= 20,
        i + run_from(c, i, t, k) <= c.len(),
        forall|m: int| i <= m < i + run_from(c, i, t, k) ==> (#[trigger] c[m]).f_char_type == t,
        run_from(c, i, t, k) < 20 && i + run_from(c, i, t, k) < c.len() ==> c[i + run_from(c, i, t, k)].f_char_type
            != t,
    decreases 20 - k,
{
    if k < 20 && i + k < c.len() && c[i + k].f_char_type == t {
        lemma_run_from(c, i, t, k + 1);
    }
}

proof fn lemma_run_len(c: Seq<CharInfo>, i: int)
    requires
        0 <= i < c.len(),
    ensures
        1 <= run_len(c, i) <= 20,
        i + run_len(c, i) <= c.len(),
        forall|m: int| i <= m < i + run_len(c, i) ==> (#[trigger] c[m]).f_char_type == c[i].f_char_type,
        run_len(c, i) > 1 ==> mergeable(c[i].f_char_type),
        mergeable(c[i].f_char_type) && run_len(c, i) < 20 && i + run_len(c, i) < c.len() ==> c[i + run_len(
            c,
            i,
        )].f_char_type != c[i].f_char_type,
{
    let t = c[i].f_char_type;
    if mergeable(t) && i + 1 < c.len() && c[i + 1].f_char_type == t {
        lemma_run_from(c, i, t, 2);
    }
}

/// Law: the runs from `i` hold exactly the characters from `i` on, in order, each run of
/// one class; every run has 1 to 20 characters, only a mergeable class makes runs longer
/// than one, and a run followed by a run of the same mergeable class has 20 characters.
pub proof fn law_runs(c: Seq<CharInfo>, i: int)
    requires
        0 <= i <= c.len(),
    ensures
        run_text(runs_from(c, i)) == c.subrange(i, c.len() as int).map_values(|x: CharInfo| x.w_char),
        run_classes(runs_from(c, i)) == c.subrange(i, c.len() as int).map_values(|x: CharInfo| x.f_char_type),
        forall|k: int|
            0 <= k < runs_from(c, i).len() ==> 1 <= (#[trigger] runs_from(c, i)[k]).1.len() <= 20 && (
            runs_from(c, i)[k].1.len() > 1 ==> mergeable(runs_from(c, i)[k].0)),
        forall|k: int|
            0 <= k < runs_from(c, i).len() - 1 && (#[trigger] runs_from(c, i)[k]).0 == runs_from(c, i)[k + 1].0
                && mergeable(runs_from(c, i)[k].0) ==> runs_from(c, i)[k].1.len() == 20,
    decreases c.len() - i,
{
    let rs = runs_from(c, i);
    if i == c.len() {
        assert(c.subrange(i, c.len() as int).map_values(|x: CharInfo| x.w_char) =~= Seq::<u16>::empty());
        assert(c.subrange(i, c.len() as int).map_values(|x: CharInfo| x.f_char_type) =~= Seq::<u8>::empty());
    } else {
        lemma_run_len(c, i);
        let s = run_len(c, i);
        let t = c[i].f_char_type;
        law_runs(c, i + s);
        let rest = runs_from(c, i + s);
        let head = (t, c.subrange(i, i + s).map_values(|x: CharInfo| x.w_char));
        assert(rs == seq![head] + rest);
        assert(rs.drop_first() =~= rest);
        assert(rs[0] == head);
        assert(c.subrange(i, c.len() as int).map_values(|x: CharInfo| x.w_char) =~= head.1 + c.subrange(
            i + s,
            c.len() as int,
        ).map_values(|x: CharInfo| x.w_char));
        assert(Seq::new(head.1.len(), |j: int| head.0) =~= c.subrange(i, i + s).map_values(
            |x: CharInfo| x.f_char_type,
        ));
        assert(c.subrange(i, c.len() as int).map_values(|x: CharInfo| x.f_char_type) =~= c.subrange(
            i,
            i + s,
        ).map_values(|x: CharInfo| x.f_char_type) + c.subrange(i + s, c.len() as int).map_values(
            |x: CharInfo| x.f_char_type,
        ));
        assert forall|k: int| 0 <= k < rs.len() implies 1 <= (#[trigger] rs[k]).1.len() <= 20 && (rs[k].1.len() > 1
            ==> mergeable(rs[k].0)) by {
            if k > 0 {
                assert(rs[k] == rest[k - 1]);
            }
        }
        assert forall|k: int|
            0 <= k < rs.len() - 1 && (#[trigger] rs[k]).0 == rs[k + 1].0 && mergeable(rs[k].0) implies rs[k].1.len()
                == 20 by {
            if k > 0 {
                assert(rs[k] == rest[k - 1]);
                assert(rs[k + 1] == rest[k]);
            } else {
                assert(rs[1] == rest[0]);
                assert(i + s < c.len());
                assert(rest[0].0 == c[i + s].f_char_type);
            }
        }
    }
}

} // verus!
