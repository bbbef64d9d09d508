//! The INI-style settings file: one `[key]=[value]` line per entry.
use vstd::prelude::*;
use crate::common::{DictError, DictResult, copy_range, bytes_eq, first_index, lemma_first_index, lemma_first_index_none};
use crate::text::{lossy_text, utf8_lossy};
use vstd::utf8::encode_utf8;

verus! {

/// ASCII whitespace: space, tab, line feed, form feed, carriage return.
pub open spec fn is_ws(b: u8) -> bool {
    b == 0x20 || b == 0x09 || b == 0x0A || b == 0x0C || b == 0x0D
}

pub open spec fn trim_start(s: Seq<u8>) -> Seq<u8>
    decreases s.len(),
{
    if s.len() > 0 && is_ws(s[0]) {
        trim_start(s.drop_first())
    } else {
        s
    }
}

pub open spec fn trim_end(s: Seq<u8>) -> Seq<u8>
    decreases s.len(),
{
    if s.len() > 0 && is_ws(s.last()) {
        trim_end(s.drop_last())
    } else {
        s
    }
}

/// The bytes with leading and trailing ASCII whitespace removed.
pub open spec fn trim(s: Seq<u8>) -> Seq<u8> {
    trim_end(trim_start(s))
}

/// Index of the first `b` at or after `from`, or the length when there is none.
pub open spec fn find_from(s: Seq<u8>, from: int, b: u8) -> int
    decreases s.len() - from,
{
    if from < 0 || from >= s.len() {
        s.len() as int
    } else if s[from] == b {
        from
    } else {
        find_from(s, from + 1, b)
    }
}

pub proof fn lemma_find_from(s: Seq<u8>, from: int, b: u8)
    requires
        0 <= from <= s.len(),
    ensures
        from <= find_from(s, from, b) <= s.len(),
        find_from(s, from, b) < s.len() ==> s[find_from(s, from, b)] == b,
    decreases s.len() - from,
{
    if from < s.len() && s[from] != b {
        lemma_find_from(s, from + 1, b);
    }
}

/// Finds the first `b` at or after `from`.
pub fn find_byte(s: &[u8], from: usize, b: u8) -> (r: usize)
    requires
        from <= s@.len(),
    ensures
        r == find_from(s@, from as int, b),
        from <= r <= s@.len(),
{
    proof {
        lemma_find_from(s@, from as int, b);
    }
    let mut i = from;
    while i < s.len()
        invariant
            from <= i <= s@.len(),
            find_from(s@, from as int, b) == find_from(s@, i as int, b),
        decreases s@.len() - i,
    {
        if s[i] == b {
            return i;
        }
        i = i + 1;
    }
    i
}

fn is_ws_byte(b: u8) -> (r: bool)
    ensures
        r == is_ws(b),
{
    b == 0x20 || b == 0x09 || b == 0x0A || b == 0x0C || b == 0x0D
}

/// Bounds of `s[a..b]` with surrounding whitespace removed.
pub fn trim_range(s: &[u8], a: usize, b: usize) -> (r: (usize, usize))
    requires
        a <= b <= s@.len(),
    ensures
        a <= r.0 <= r.1 <= b,
        s@.subrange(r.0 as int, r.1 as int) == trim(s@.subrange(a as int, b as int)),
{
    let mut i = a;
    while i < b && is_ws_byte(s[i])
        invariant
            a <= i <= b <= s@.len(),
            trim_start(s@.subrange(a as int, b as int)) == trim_start(s@.subrange(i as int, b as int)),
        decreases b - i,
    {
        proof {
            assert(s@.subrange(i as int, b as int).drop_first() =~= s@.subrange(i + 1, b as int));
        }
        i = i + 1;
    }
    let mut j = b;
    while j > i && is_ws_byte(s[j - 1])
        invariant
            a <= i <= j <= b <= s@.len(),
            trim_start(s@.subrange(a as int, b as int)) == s@.subrange(i as int, b as int),
            trim(s@.subrange(a as int, b as int)) == trim_end(s@.subrange(i as int, j as int)),
        decreases j - i,
    {
        proof {
            assert(s@.subrange(i as int, j as int).drop_last() =~= s@.subrange(i as int, j - 1));
        }
        j = j - 1;
    }
    (i, j)
}

/// The value part after the key: what follows the first `=`, trimmed, without one pair of
/// enclosing brackets; empty when there is no `=`.
pub open spec fn ini_value(rest: Seq<u8>) -> Seq<u8> {
    let eq = find_from(rest, 0, 0x3D);
    if eq >= rest.len() {
        Seq::empty()
    } else {
        let v = trim(rest.subrange(eq + 1, rest.len() as int));
        if v.len() > 0 && v[0] == 0x5B && v.last() == 0x5D {
            v.subrange(1, v.len() - 1)
        } else {
            v
        }
    }
}

/// One line: `None` when it is malformed, `Some(None)` when it is blank, else the entry.
pub open spec fn ini_line(line: Seq<u8>) -> Option<Option<(Seq<u8>, Seq<u8>)>> {
    let l0 = if line.len() > 0 && line.last() == 0x0D {
        line.drop_last()
    } else {
        line
    };
    let l = trim(l0);
    if l.len() == 0 {
        Some(None)
    } else if l[0] != 0x5B {
        None
    } else {
        let c = find_from(l, 0, 0x5D);
        if c >= l.len() {
            None
        } else {
            Some(Some((l.subrange(1, c), ini_value(trim(l.subrange(c + 1, l.len() as int))))))
        }
    }
}

/// The entries of the lines from `start` on; `None` when a line is malformed.
pub open spec fn ini_from(d: Seq<u8>, start: int) -> Option<Seq<(Seq<u8>, Seq<u8>)>>
    decreases d.len() - start,
{
    if start < 0 || start > d.len() {
        Some(Seq::empty())
    } else {
        let e = find_from(d, start, 0x0A);
        proof {
            lemma_find_from(d, start, 0x0A);
        }
        match ini_line(d.subrange(start, e)) {
            None => None,
            Some(x) => {
                let rest = if e < d.len() {
                    ini_from(d, e + 1)
                } else {
                    Some(Seq::empty())
                };
                match rest {
                    None => None,
                    Some(r) => Some(
                        match x {
                            Some(kv) => seq![kv] + r,
                            None => r,
                        },
                    ),
                }
            },
        }
    }
}

/// The settings: (key, value) byte strings in file order.
#[derive(Debug, Clone, PartialEq, Eq)]
pub struct Wdic {
    pub entries: Vec<(Vec<u8>, Vec<u8>)>,
}

/// The entries as byte sequences.
pub open spec fn wdic_view(entries: Seq<(Vec<u8>, Vec<u8>)>) -> Seq<(Seq<u8>, Seq<u8>)> {
    entries.map_values(|e: (Vec<u8>, Vec<u8>)| (e.0@, e.1@))
}

impl Wdic {
    /// Number of entries.
    pub fn len(&self) -> (n: usize)
        ensures
            n == self.entries@.len(),
    {
        self.entries.len()
    }

    /// Whether there are no entries.
    pub fn is_empty(&self) -> (b: bool)
        ensures
            b <==> self.entries@.len() == 0,
    {
        self.entries.len() == 0
    }

    /// The value of the first entry whose key is `key`.
    pub fn get(&self, key: &str) -> (r: Option<&[u8]>)
        ensures
            r is Some <==> first_index(self.entries@, |e: (Vec<u8>, Vec<u8>)| e.0@ == encode_utf8(key@)) is Some,
            r matches Some(v) ==> v@ == self.entries@[first_index(
                self.entries@,
                |e: (Vec<u8>, Vec<u8>)| e.0@ == encode_utf8(key@),
            )->0].1@,
    {
        let kb = key.as_bytes();
        let ghost p = |e: (Vec<u8>, Vec<u8>)| e.0@ == encode_utf8(key@);
        let mut i: usize = 0;
        while i < self.entries.len()
            invariant
                i <= self.entries@.len(),
                kb@ == encode_utf8(key@),
                p == (|e: (Vec<u8>, Vec<u8>)| e.0@ == encode_utf8(key@)),
                forall|t: int| 0 <= t < i ==> !p(#[trigger] self.entries@[t]),
            decreases self.entries@.len() - i,
        {
            let e = &self.entries[i];
            if bytes_eq(e.0.as_slice(), kb) {
                proof {
                    assert(p(self.entries@[i as int]));
                    lemma_first_index(self.entries@, p, i as int);
                }
                return Some(e.1.as_slice());
            }
            i = i + 1;
        }
        proof {
            lemma_first_index_none(self.entries@, p);
        }
        None
    }

    /// The value of `key` decoded as UTF-8, invalid sequences replaced.
    pub fn get_str(&self, key: &str) -> (r: Option<String>)
        ensures
            r is Some <==> first_index(self.entries@, |e: (Vec<u8>, Vec<u8>)| e.0@ == encode_utf8(key@)) is Some,
            r matches Some(s) ==> s@ == lossy_text(
                self.entries@[first_index(
                    self.entries@,
                    |e: (Vec<u8>, Vec<u8>)| e.0@ == encode_utf8(key@),
                )->0].1@,
            ),
    {
        match self.get(key) {
            Some(v) => Some(utf8_lossy(v)),
            None => None,
        }
    }
}

/// One line.
fn parse_line(s: &[u8], a: usize, b: usize) -> (r: Option<Option<(Vec<u8>, Vec<u8>)>>)
    requires
        a <= b <= s@.len(),
    ensures
        match ini_line(s@.subrange(a as int, b as int)) {
            None => r is None,
            Some(None) => r matches Some(x) && x is None,
            Some(Some(kv)) => r matches Some(Some(p)) && p.0@ == kv.0 && p.1@ == kv.1,
        },
{
    let ghost line = s@.subrange(a as int, b as int);
    let mut e = b;
    if e > a && s[e - 1] == 0x0D {
        e = e - 1;
    }
    proof {
        if line.len() > 0 && line.last() == 0x0D {
            assert(line.drop_last() =~= s@.subrange(a as int, e as int));
        } else {
            assert(line =~= s@.subrange(a as int, e as int));
        }
    }
    let (la, lb) = trim_range(s, a, e);
    let ghost l = s@.subrange(la as int, lb as int);
    if la == lb {
        return Some(None);
    }
    if s[la] != 0x5B {
        return None;
    }
    let c = find_byte(s, la, 0x5D);
    proof {
        lemma_find_from(s@, la + 1, 0x5D);
    }
    if c >= lb {
        proof {
            lemma_find_from_sub(s@, la as int, lb as int, 0x5D);
        }
        return None;
    }
    proof {
        lemma_find_from_sub(s@, la as int, lb as int, 0x5D);
        assert(find_from(l, 0, 0x5D) == c - la);
    }
    let key = copy_range(s, la + 1, c);
    let (ra, rb) = trim_range(s, c + 1, lb);
    let eq = find_byte(s, ra, 0x3D);
    proof {
        lemma_find_from_sub(s@, ra as int, rb as int, 0x3D);
        assert(l.subrange(1, c - la) =~= s@.subrange(la + 1, c as int));
        assert(l.subrange(c - la + 1, l.len() as int) =~= s@.subrange(c + 1, lb as int));
    }
    let value = if eq >= rb {
        Vec::new()
    } else {
        let (va, vb) = trim_range(s, eq + 1, rb);
        proof {
            let rest = s@.subrange(ra as int, rb as int);
            assert(rest.subrange(eq - ra + 1, rest.len() as int) =~= s@.subrange(eq + 1, rb as int));
        }
        if vb > va && s[va] == 0x5B && s[vb - 1] == 0x5D {
            proof {
                let v = s@.subrange(va as int, vb as int);
                assert(v.subrange(1, v.len() - 1) =~= s@.subrange(va + 1, vb - 1));
            }
            copy_range(s, va + 1, vb - 1)
        } else {
            copy_range(s, va, vb)
        }
    };
    Some(Some((key, value)))
}

/// Searching a window of `s` is searching `s` from the window's start, cut at its end.
proof fn lemma_find_from_sub(s: Seq<u8>, a: int, b: int, x: u8)
    requires
        0 <= a <= b <= s.len(),
    ensures
        ({
            let f = find_from(s, a, x);
            let g = find_from(s.subrange(a, b), 0, x);
            &&& f < b ==> g == f - a
            &&& f >= b ==> g == b - a
        }),
    decreases b - a,
{
    lemma_find_from(s, a, x);
    lemma_find_from(s.subrange(a, b), 0, x);
    if a < b {
        if s[a] != x {
            lemma_find_from_sub(s, a + 1, b, x);
            assert(find_from(s.subrange(a, b), 0, x) == find_from(s.subrange(a, b), 1, x));
            lemma_find_from_shift(s.subrange(a, b), 1, x);
            assert(s.subrange(a, b).drop_first() =~= s.subrange(a + 1, b));
        }
    }
}

/// Searching from `k` is searching the sequence without its first element from `k - 1`.
proof fn lemma_find_from_shift(s: Seq<u8>, k: int, x: u8)
    requires
        1 <= k <= s.len(),
    ensures
        find_from(s, k, x) == find_from(s.drop_first(), k - 1, x) + 1,
    decreases s.len() - k,
{
    if k < s.len() && s[k] != x {
        lemma_find_from_shift(s, k + 1, x);
    }
}

/// Parses the settings text.
pub fn parse(data: &[u8]) -> (r: DictResult<Wdic>)
    ensures
        r is Ok <==> ini_from(data@, 0) is Some,
        r matches Ok(w) ==> wdic_view(w.entries@) == ini_from(data@, 0)->0,
{
    let ghost d = data@;
    let len = data.len();
    let mut entries: Vec<(Vec<u8>, Vec<u8>)> = Vec::new();
    let mut pos: usize = 0;
    loop
        invariant_except_break
            ini_from(d, 0) == match ini_from(d, pos as int) {
                Some(rest) => Some(wdic_view(entries@) + rest),
                None => None::<Seq<(Seq<u8>, Seq<u8>)>>,
            },
        invariant
            d == data@,
            len == d.len(),
            pos <= len,
        ensures
            ini_from(d, 0) == Some(wdic_view(entries@)),
        decreases len - pos,
    {
        let e = find_byte(data, pos, 0x0A);
        let ghost old_entries = entries@;
        match parse_line(data, pos, e) {
            None => {
                return Err(DictError::new("INI format violation", pos));
            },
            Some(None) => {},
            Some(Some(kv)) => {
                entries.push(kv);
            },
        }
        proof {
            let rest = if e < len {
                ini_from(d, e + 1)
            } else {
                Some(Seq::<(Seq<u8>, Seq<u8>)>::empty())
            };
            assert(wdic_view(entries@) == wdic_view(old_entries) + match ini_line(d.subrange(pos as int, e as int))->0 {
                Some(kv) => seq![kv],
                None => Seq::empty(),
            }) by {
                match ini_line(d.subrange(pos as int, e as int))->0 {
                    Some(kv) => {
                        assert(wdic_view(entries@) =~= wdic_view(old_entries) + seq![kv]);
                    },
                    None => {
                        assert(wdic_view(entries@) =~= wdic_view(old_entries) + Seq::empty());
                    },
                }
            }
            match rest {
                Some(r) => {
                    match ini_line(d.subrange(pos as int, e as int))->0 {
                        Some(kv) => {
                            assert(wdic_view(old_entries) + (seq![kv] + r) =~= wdic_view(entries@) + r);
                        },
                        None => {
                            assert(wdic_view(entries@) + r =~= wdic_view(old_entries) + r);
                        },
                    }
                },
                None => {},
            }
        }
        if e >= len {
            proof {
                assert(wdic_view(entries@) + Seq::empty() =~= wdic_view(entries@));
            }
            break;
        }
        pos = e + 1;
    }
    Ok(Wdic { entries })
}

} // verus!
