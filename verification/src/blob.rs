//! A map from file names to file contents, and the length-prefixed container that packs
//! such a map into one byte string.
//!
//! Layout (little-endian): a `u32` entry count, then for each entry a `u32` key length,
//! the key's UTF-8 bytes, a `u64` data length and the data. Entries are written in
//! increasing key order, so the output depends on the map alone.
use vstd::prelude::*;
use vstd::utf8::{valid_utf8, decode_utf8, encode_utf8};
use crate::common::{DictError, DictResult, le32, le64, get_le32, get_le64, copy_range, slice_range, bytes_eq};
use crate::text::utf8_strict;

verus! {

/// Lexicographic order on byte strings, comparing from position `i` on.
pub open spec fn bytes_lt_from(a: Seq<u8>, b: Seq<u8>, i: int) -> bool
    decreases a.len() - i,
{
    if i >= a.len() {
        i < b.len()
    } else if i >= b.len() {
        false
    } else if a[i] != b[i] {
        a[i] < b[i]
    } else {
        bytes_lt_from(a, b, i + 1)
    }
}

/// Lexicographic order on byte strings (the order of `str`).
pub open spec fn bytes_lt(a: Seq<u8>, b: Seq<u8>) -> bool {
    bytes_lt_from(a, b, 0)
}

proof fn lemma_lt_irreflexive(a: Seq<u8>, i: int)
    requires
        0 <= i,
    ensures
        !bytes_lt_from(a, a, i),
    decreases a.len() - i,
{
    if i < a.len() {
        lemma_lt_irreflexive(a, i + 1);
    }
}

proof fn lemma_lt_transitive(a: Seq<u8>, b: Seq<u8>, c: Seq<u8>, i: int)
    requires
        0 <= i,
        bytes_lt_from(a, b, i),
        bytes_lt_from(b, c, i),
    ensures
        bytes_lt_from(a, c, i),
    decreases a.len() - i,
{
    if i < a.len() && i < b.len() && i < c.len() && a[i] == b[i] && b[i] == c[i] {
        lemma_lt_transitive(a, b, c, i + 1);
    }
}

proof fn lemma_lt_total(a: Seq<u8>, b: Seq<u8>, i: int)
    requires
        0 <= i <= a.len(),
        i <= b.len(),
        forall|j: int| 0 <= j < i ==> a[j] == b[j],
    ensures
        a == b || bytes_lt_from(a, b, i) || bytes_lt_from(b, a, i),
    decreases a.len() - i,
{
    if i == a.len() && i == b.len() {
        assert(a =~= b);
    } else if i < a.len() && i < b.len() && a[i] == b[i] {
        lemma_lt_total(a, b, i + 1);
    }
}

/// Compares two byte strings lexicographically.
pub fn key_lt(a: &[u8], b: &[u8]) -> (r: bool)
    ensures
        r == bytes_lt(a@, b@),
{
    let mut i: usize = 0;
    while i < a.len() && i < b.len()
        invariant
            i <= a@.len(),
            i <= b@.len(),
            bytes_lt(a@, b@) == bytes_lt_from(a@, b@, i as int),
        decreases a@.len() - i,
    {
        if a[i] != b[i] {
            return a[i] < b[i];
        }
        i = i + 1;
    }
    i >= a.len() && i < b.len()
}

/// The map that inserting the entries one after another gives: a later entry replaces an
/// earlier one with the same key.
pub open spec fn map_of(s: Seq<(Seq<char>, Seq<u8>)>) -> Map<Seq<char>, Seq<u8>>
    decreases s.len(),
{
    if s.len() == 0 {
        Map::empty()
    } else {
        map_of(s.drop_last()).insert(s.last().0, s.last().1)
    }
}

/// Keys in strictly increasing order of their UTF-8 bytes.
pub open spec fn keys_sorted(s: Seq<(Seq<char>, Seq<u8>)>) -> bool {
    forall|i: int, j: int|
        0 <= i < j < s.len() ==> bytes_lt(encode_utf8(#[trigger] s[i].0), encode_utf8(#[trigger] s[j].0))
}

pub open spec fn keys_distinct(s: Seq<(Seq<char>, Seq<u8>)>) -> bool {
    forall|i: int, j: int| 0 <= i < s.len() && 0 <= j < s.len() && i != j ==> #[trigger] s[i].0 != #[trigger] s[j].0
}

proof fn lemma_sorted_distinct(s: Seq<(Seq<char>, Seq<u8>)>)
    requires
        keys_sorted(s),
    ensures
        keys_distinct(s),
{
    assert forall|i: int, j: int| 0 <= i < s.len() && 0 <= j < s.len() && i != j implies #[trigger] s[i].0 != #[trigger] s[j].0 by {
        if s[i].0 == s[j].0 {
            lemma_lt_irreflexive(encode_utf8(s[i].0), 0);
            if i < j {
                assert(bytes_lt(encode_utf8(s[i].0), encode_utf8(s[j].0)));
            } else {
                assert(bytes_lt(encode_utf8(s[j].0), encode_utf8(s[i].0)));
            }
        }
    }
}

proof fn lemma_map_of_dom(s: Seq<(Seq<char>, Seq<u8>)>, k: Seq<char>)
    ensures
        map_of(s).dom().contains(k) <==> exists|i: int| 0 <= i < s.len() && #[trigger] s[i].0 == k,
    decreases s.len(),
{
    if s.len() > 0 {
        lemma_map_of_dom(s.drop_last(), k);
        if map_of(s.drop_last()).dom().contains(k) {
            let i = choose|i: int| 0 <= i < s.drop_last().len() && #[trigger] s.drop_last()[i].0 == k;
            assert(s[i].0 == k);
        }
        if exists|i: int| 0 <= i < s.len() && #[trigger] s[i].0 == k {
            let i = choose|i: int| 0 <= i < s.len() && #[trigger] s[i].0 == k;
            if i < s.len() - 1 {
                assert(s.drop_last()[i].0 == k);
            }
        }
    }
}

proof fn lemma_map_of_at(s: Seq<(Seq<char>, Seq<u8>)>, i: int)
    requires
        keys_distinct(s),
        0 <= i < s.len(),
    ensures
        map_of(s).dom().contains(s[i].0),
        map_of(s)[s[i].0] == s[i].1,
    decreases s.len(),
{
    lemma_map_of_dom(s, s[i].0);
    if i < s.len() - 1 {
        let t = s.drop_last();
        assert(keys_distinct(t)) by {
            assert forall|a: int, b: int| 0 <= a < t.len() && 0 <= b < t.len() && a != b implies #[trigger] t[a].0 != #[trigger] t[b].0 by {
                assert(s[a].0 != s[b].0);
            }
        }
        assert(t[i] == s[i]);
        lemma_map_of_at(t, i);
        assert(s[i].0 != s[s.len() - 1].0);
    }
}

proof fn lemma_map_of_insert(s: Seq<(Seq<char>, Seq<u8>)>, p: int, k: Seq<char>, v: Seq<u8>)
    requires
        0 <= p <= s.len(),
        forall|i: int| 0 <= i < s.len() ==> #[trigger] s[i].0 != k,
    ensures
        map_of(s.insert(p, (k, v))) == map_of(s).insert(k, v),
    decreases s.len(),
{
    let t = s.insert(p, (k, v));
    if p == s.len() {
        assert(t.drop_last() =~= s);
    } else {
        let last = s.last();
        assert(t.drop_last() =~= s.drop_last().insert(p, (k, v)));
        assert(t.last() == last);
        lemma_map_of_insert(s.drop_last(), p, k, v);
        assert(last.0 != k);
        assert(map_of(s.drop_last()).insert(k, v).insert(last.0, last.1) =~= map_of(s.drop_last()).insert(last.0, last.1).insert(k, v));
    }
}

proof fn lemma_map_of_update(s: Seq<(Seq<char>, Seq<u8>)>, p: int, v: Seq<u8>)
    requires
        keys_distinct(s),
        0 <= p < s.len(),
    ensures
        map_of(s.update(p, (s[p].0, v))) == map_of(s).insert(s[p].0, v),
    decreases s.len(),
{
    let k = s[p].0;
    let t = s.update(p, (k, v));
    if p == s.len() - 1 {
        assert(t.drop_last() =~= s.drop_last());
        assert(map_of(s.drop_last()).insert(k, s[p].1).insert(k, v) =~= map_of(s.drop_last()).insert(k, v));
    } else {
        let d = s.drop_last();
        assert(keys_distinct(d)) by {
            assert forall|a: int, b: int| 0 <= a < d.len() && 0 <= b < d.len() && a != b implies #[trigger] d[a].0 != #[trigger] d[b].0 by {
                assert(s[a].0 != s[b].0);
            }
        }
        assert(t.drop_last() =~= d.update(p, (k, v)));
        assert(d[p] == s[p]);
        lemma_map_of_update(d, p, v);
        let last = s.last();
        assert(last.0 != k);
        assert(map_of(d).insert(k, v).insert(last.0, last.1) =~= map_of(d).insert(last.0, last.1).insert(k, v));
    }
}

/// File contents keyed by file name.
#[derive(Debug, PartialEq, Eq)]
pub struct DataMap {
    entries: Vec<(String, Vec<u8>)>,
}

impl DataMap {
    /// The entries as (key, data) pairs, in the order they are stored.
    pub closed spec fn entries(&self) -> Seq<(Seq<char>, Seq<u8>)> {
        self.entries@.map_values(|e: (String, Vec<u8>)| (e.0@, e.1@))
    }

    #[verifier::type_invariant]
    closed spec fn sorted(&self) -> bool {
        keys_sorted(self.entries())
    }
}

impl View for DataMap {
    type V = Map<Seq<char>, Seq<u8>>;

    closed spec fn view(&self) -> Map<Seq<char>, Seq<u8>> {
        map_of(self.entries())
    }
}

impl DataMap {
    /// The empty map.
    pub fn new() -> (m: DataMap)
        ensures
            m@ == Map::<Seq<char>, Seq<u8>>::empty(),
            m.entries().len() == 0,
    {
        let m = DataMap { entries: Vec::new() };
        assert(m.entries() =~= Seq::<(Seq<char>, Seq<u8>)>::empty());
        m
    }

    /// Number of entries.
    pub fn len(&self) -> (n: usize)
        ensures
            n == self.entries().len(),
            n == self@.dom().len(),
    {
        proof {
            use_type_invariant(self);
            let s = self.entries();
            lemma_sorted_distinct(s);
            let ks = s.map_values(|e: (Seq<char>, Seq<u8>)| e.0);
            assert(map_of(s).dom() =~= ks.to_set()) by {
                assert forall|k: Seq<char>| map_of(s).dom().contains(k) <==> ks.to_set().contains(k) by {
                    lemma_map_of_dom(s, k);
                    if ks.contains(k) {
                        let i = choose|i: int| 0 <= i < ks.len() && ks[i] == k;
                        assert(s[i].0 == k);
                    }
                    if map_of(s).dom().contains(k) {
                        let i = choose|i: int| 0 <= i < s.len() && #[trigger] s[i].0 == k;
                        assert(ks[i] == k);
                    }
                }
            }
            assert(ks.no_duplicates()) by {
                assert forall|i: int, j: int| 0 <= i < ks.len() && 0 <= j < ks.len() && i != j implies ks[i] != ks[j] by {
                    assert(s[i].0 != s[j].0);
                }
            }
            ks.unique_seq_to_set();
        }
        self.entries.len()
    }

    /// Whether the map has no entries.
    pub fn is_empty(&self) -> (b: bool)
        ensures
            b <==> self@ == Map::<Seq<char>, Seq<u8>>::empty(),
    {
        proof {
            let s = self.entries();
            if s.len() > 0 {
                assert(map_of(s).dom().contains(s.last().0));
            }
        }
        self.entries.len() == 0
    }

    /// The data stored under `key`.
    pub fn get(&self, key: &str) -> (r: Option<&Vec<u8>>)
        ensures
            r matches Some(v) ==> self@.dom().contains(key@) && v@ == self@[key@],
            r is None ==> !self@.dom().contains(key@),
    {
        proof {
            use_type_invariant(self);
            lemma_sorted_distinct(self.entries());
        }
        let kb = key.as_bytes();
        let mut i: usize = 0;
        while i < self.entries.len()
            invariant
                i <= self.entries@.len(),
                kb@ == encode_utf8(key@),
                keys_distinct(self.entries()),
                forall|t: int| 0 <= t < i ==> (#[trigger] self.entries@[t]).0@ != key@,
            decreases self.entries@.len() - i,
        {
            let e = &self.entries[i];
            if bytes_eq(e.0.as_str().as_bytes(), kb) {
                proof {
                    vstd::utf8::encode_utf8_decode_utf8(e.0@);
                    vstd::utf8::encode_utf8_decode_utf8(key@);
                    assert(self.entries()[i as int] == (e.0@, e.1@));
                    lemma_map_of_at(self.entries(), i as int);
                }
                return Some(&e.1);
            }
            i = i + 1;
        }
        proof {
            lemma_map_of_dom(self.entries(), key@);
            if map_of(self.entries()).dom().contains(key@) {
                let t = choose|t: int| 0 <= t < self.entries().len() && #[trigger] self.entries()[t].0 == key@;
                assert(self.entries@[t].0@ == key@);
            }
        }
        None
    }

    /// Stores `data` under `key`, replacing what was stored there.
    pub fn insert(&mut self, key: String, data: Vec<u8>)
        ensures
            final(self)@ == old(self)@.insert(key@, data@),
    {
        proof {
            use_type_invariant(&*self);
        }
        let mut es: Vec<(String, Vec<u8>)> = Vec::new();
        std::mem::swap(&mut es, &mut self.entries);
        let ghost s = es@.map_values(|e: (String, Vec<u8>)| (e.0@, e.1@));
        let ghost kbs = encode_utf8(key@);
        let n = es.len();
        let mut p: usize = 0;
        while p < n
            invariant
                n == es@.len() == s.len(),
                s == es@.map_values(|e: (String, Vec<u8>)| (e.0@, e.1@)),
                kbs == encode_utf8(key@),
                p <= n,
                forall|t: int| 0 <= t < p ==> bytes_lt(encode_utf8(#[trigger] s[t].0), kbs),
            ensures
                p <= n,
                forall|t: int| 0 <= t < p ==> bytes_lt(encode_utf8(#[trigger] s[t].0), kbs),
                p < n ==> !bytes_lt(encode_utf8(s[p as int].0), kbs),
            decreases n - p,
        {
            let lt = key_lt(es[p].0.as_str().as_bytes(), key.as_str().as_bytes());
            if !lt {
                break;
            }
            p = p + 1;
        }
        proof {
            lemma_sorted_distinct(s);
        }
        if p < n && es[p].0 == key {
            proof {
                assert(s[p as int].0 == key@);
            }
            let ghost before = es@;
            es.set(p, (key, data));
            proof {
                let s2 = es@.map_values(|e: (String, Vec<u8>)| (e.0@, e.1@));
                assert(s2 =~= s.update(p as int, (s[p as int].0, data@)));
                lemma_map_of_update(s, p as int, data@);
                assert(keys_sorted(s2)) by {
                    assert forall|i: int, j: int| 0 <= i < j < s2.len() implies bytes_lt(encode_utf8(#[trigger] s2[i].0), encode_utf8(#[trigger] s2[j].0)) by {
                        assert(s2[i].0 == s[i].0);
                        assert(s2[j].0 == s[j].0);
                    }
                }
            }
            self.entries = es;
        } else {
            proof {
                // Every key at or after `p` is greater than the new key.
                assert forall|t: int| p <= t < n implies bytes_lt(kbs, encode_utf8(#[trigger] s[t].0)) by {
                    let sp = encode_utf8(s[p as int].0);
                    assert(!bytes_lt(sp, kbs));
                    assert(s[p as int].0 != key@);
                    assert(sp != kbs) by {
                        vstd::utf8::encode_utf8_decode_utf8(s[p as int].0);
                        vstd::utf8::encode_utf8_decode_utf8(key@);
                    }
                    lemma_lt_total(sp, kbs, 0);
                    if t > p {
                        lemma_lt_transitive(kbs, sp, encode_utf8(s[t].0), 0);
                    }
                }
                assert forall|t: int| 0 <= t < n implies #[trigger] s[t].0 != key@ by {
                    if t < p {
                        lemma_lt_irreflexive(kbs, 0);
                    } else {
                        lemma_lt_irreflexive(kbs, 0);
                    }
                }
                lemma_map_of_insert(s, p as int, key@, data@);
            }
            let ghost kv = key@;
            let ghost dv = data@;
            es.insert(p, (key, data));
            proof {
                let s2 = es@.map_values(|e: (String, Vec<u8>)| (e.0@, e.1@));
                assert(s2 =~= s.insert(p as int, (kv, dv)));
                assert(keys_sorted(s2)) by {
                    assert forall|i: int, j: int| 0 <= i < j < s2.len() implies bytes_lt(encode_utf8(#[trigger] s2[i].0), encode_utf8(#[trigger] s2[j].0)) by {
                        if j < p {
                            assert(s2[i] == s[i] && s2[j] == s[j]);
                        } else if j == p {
                            assert(s2[i] == s[i]);
                        } else if i < p {
                            assert(s2[i] == s[i] && s2[j] == s[j - 1]);
                            assert(bytes_lt(encode_utf8(s[i].0), kbs));
                            assert(bytes_lt(kbs, encode_utf8(s[j - 1].0)));
                            lemma_lt_transitive(encode_utf8(s[i].0), kbs, encode_utf8(s[j - 1].0), 0);
                        } else if i == p {
                            assert(s2[j] == s[j - 1]);
                        } else {
                            assert(s2[i] == s[i - 1] && s2[j] == s[j - 1]);
                        }
                    }
                }
            }
            self.entries = es;
        }
    }
}

/// Little-endian bytes of a 32-bit value.
pub open spec fn u32_le(v: int) -> Seq<u8> {
    seq![(v % 256) as u8, (v / 256 % 256) as u8, (v / 65536 % 256) as u8, (v / 16777216 % 256) as u8]
}

/// Little-endian bytes of a 64-bit value.
pub open spec fn u64_le(v: int) -> Seq<u8> {
    u32_le(v % 4294967296) + u32_le(v / 4294967296)
}

/// One entry as it is written: key length, key bytes, data length, data.
pub open spec fn entry_bytes(e: (Seq<char>, Seq<u8>)) -> Seq<u8> {
    u32_le(encode_utf8(e.0).len() as int) + encode_utf8(e.0) + u64_le(e.1.len() as int) + e.1
}

/// The entries written one after another.
pub open spec fn entries_bytes(s: Seq<(Seq<char>, Seq<u8>)>) -> Seq<u8>
    decreases s.len(),
{
    if s.len() == 0 {
        Seq::empty()
    } else {
        entry_bytes(s[0]) + entries_bytes(s.drop_first())
    }
}

/// The whole container: entry count, then the entries.
pub open spec fn blob_bytes(s: Seq<(Seq<char>, Seq<u8>)>) -> Seq<u8> {
    u32_le(s.len() as int) + entries_bytes(s)
}

/// Every length fits the field it is written to.
pub open spec fn encodable(s: Seq<(Seq<char>, Seq<u8>)>) -> bool {
    &&& s.len() <= u32::MAX
    &&& forall|i: int| 0 <= i < s.len() ==> encode_utf8(#[trigger] s[i].0).len() <= u32::MAX
    &&& forall|i: int| 0 <= i < s.len() ==> (#[trigger] s[i]).1.len() <= u64::MAX
}

/// `n` entries read from `b` starting at `off`: key bytes (which must be UTF-8) and data.
pub open spec fn parse_entries(b: Seq<u8>, off: int, n: nat) -> Option<Seq<(Seq<u8>, Seq<u8>)>>
    decreases n,
{
    if n == 0 {
        Some(Seq::empty())
    } else if off < 0 || off + 4 > b.len() {
        None
    } else {
        let ks = off + 4;
        let ke = ks + le32(b, off);
        if ke > b.len() || !valid_utf8(b.subrange(ks, ke)) || ke + 8 > b.len() {
            None
        } else {
            let de = ke + 8 + le64(b, ke);
            if de > b.len() {
                None
            } else {
                match parse_entries(b, de, (n - 1) as nat) {
                    Some(rest) => Some(seq![(b.subrange(ks, ke), b.subrange(ke + 8, de))] + rest),
                    None => None,
                }
            }
        }
    }
}

/// The container is well formed: the count and all the entries it announces can be read.
/// Bytes after the last entry are ignored.
pub open spec fn blob_ok(b: Seq<u8>) -> bool {
    b.len() >= 4 && parse_entries(b, 4, le32(b, 0) as nat) is Some
}

/// The entries of a well-formed container, keys decoded from UTF-8.
pub open spec fn blob_entries(b: Seq<u8>) -> Seq<(Seq<char>, Seq<u8>)> {
    parse_entries(b, 4, le32(b, 0) as nat)->0.map_values(
        |e: (Seq<u8>, Seq<u8>)| (decode_utf8(e.0), e.1),
    )
}

pub proof fn lemma_u32_le(v: int)
    requires
        0 <= v < 0x1_0000_0000,
    ensures
        u32_le(v).len() == 4,
        le32(u32_le(v), 0) == v,
{
    let s = u32_le(v);
    assert(s[0] as int + 256 * (s[1] as int) + 65536 * (s[2] as int) + 16777216 * (s[3] as int) == v) by (nonlinear_arith)
        requires
            s[0] == (v % 256) as u8,
            s[1] == (v / 256 % 256) as u8,
            s[2] == (v / 65536 % 256) as u8,
            s[3] == (v / 16777216 % 256) as u8,
            0 <= v < 0x1_0000_0000,
    {
        assert(s[0] == v % 256);
        assert(s[1] == v / 256 % 256);
        assert(s[2] == v / 65536 % 256);
        assert(s[3] == v / 16777216 % 256);
    }
}

proof fn lemma_u64_le(v: int)
    requires
        0 <= v <= u64::MAX,
    ensures
        u64_le(v).len() == 8,
        le64(u64_le(v), 0) == v,
{
    lemma_u32_le(v % 4294967296);
    lemma_u32_le(v / 4294967296);
    let s = u64_le(v);
    assert(le32(s, 0) == le32(u32_le(v % 4294967296), 0));
    assert(le32(s, 4) == le32(u32_le(v / 4294967296), 0));
}

proof fn lemma_le32_in(pre: Seq<u8>, x: Seq<u8>, post: Seq<u8>)
    requires
        x.len() == 4,
    ensures
        le32(pre + x + post, pre.len() as int) == le32(x, 0),
{
    let b = pre + x + post;
    let o = pre.len() as int;
    assert(b[o] == x[0] && b[o + 1] == x[1] && b[o + 2] == x[2] && b[o + 3] == x[3]);
}

proof fn lemma_entries_bytes_concat(a: Seq<(Seq<char>, Seq<u8>)>, b: Seq<(Seq<char>, Seq<u8>)>)
    ensures
        entries_bytes(a + b) == entries_bytes(a) + entries_bytes(b),
    decreases a.len(),
{
    if a.len() == 0 {
        assert(a + b =~= b);
        assert(entries_bytes(a) + entries_bytes(b) =~= entries_bytes(b));
    } else {
        assert((a + b).drop_first() =~= a.drop_first() + b);
        assert((a + b)[0] == a[0]);
        lemma_entries_bytes_concat(a.drop_first(), b);
        assert(entries_bytes(a + b) =~= entry_bytes(a[0]) + (entries_bytes(a.drop_first()) + entries_bytes(b)));
    }
}

/// Raw form of the entries: key bytes instead of characters.
pub open spec fn raw_entries(s: Seq<(Seq<char>, Seq<u8>)>) -> Seq<(Seq<u8>, Seq<u8>)> {
    s.map_values(|e: (Seq<char>, Seq<u8>)| (encode_utf8(e.0), e.1))
}

proof fn lemma_prefix(x: Seq<u8>, y: Seq<u8>, a: int, c: int)
    requires
        0 <= a <= c <= x.len(),
    ensures
        (x + y).subrange(a, c) == x.subrange(a, c),
        c - a >= 4 ==> le32(x + y, a) == le32(x, a),
        c - a >= 8 ==> le64(x + y, a) == le64(x, a),
{
    assert((x + y).subrange(a, c) =~= x.subrange(a, c));
}

proof fn lemma_suffix(x: Seq<u8>, y: Seq<u8>)
    ensures
        (x + y).subrange(x.len() as int, (x.len() + y.len()) as int) == y,
        y.len() >= 4 ==> le32(x + y, x.len() as int) == le32(y, 0),
        y.len() >= 8 ==> le64(x + y, x.len() as int) == le64(y, 0),
{
    assert((x + y).subrange(x.len() as int, (x.len() + y.len()) as int) =~= y);
}

proof fn lemma_parse_one(p: Seq<u8>, e: (Seq<char>, Seq<u8>), more: Seq<u8>)
    requires
        encode_utf8(e.0).len() <= u32::MAX,
        e.1.len() <= u64::MAX,
    ensures
        ({
            let b = p + entry_bytes(e) + more;
            let kb = encode_utf8(e.0);
            let off = p.len() as int;
            let ke = off + 4 + kb.len();
            let de = off + entry_bytes(e).len();
            &&& off + 4 <= b.len()
            &&& le32(b, off) == kb.len()
            &&& ke + 8 <= b.len()
            &&& b.subrange(off + 4, ke) == kb
            &&& valid_utf8(kb)
            &&& le64(b, ke) == e.1.len()
            &&& de == ke + 8 + e.1.len()
            &&& de <= b.len()
            &&& b.subrange(ke + 8, de) == e.1
        }),
{
    let kb = encode_utf8(e.0);
    let d = e.1;
    let lk = u32_le(kb.len() as int);
    let ld = u64_le(d.len() as int);
    lemma_u32_le(kb.len() as int);
    lemma_u64_le(d.len() as int);
    vstd::utf8::encode_utf8_valid_utf8(e.0);
    let q1 = p + lk;
    let q2 = q1 + kb;
    let q3 = q2 + ld;
    let q4 = q3 + d;
    let b = p + entry_bytes(e) + more;
    assert(b =~= q4 + more);
    let off = p.len() as int;
    // the key length field
    lemma_suffix(p, lk);
    lemma_prefix(q1, kb, off, q1.len() as int);
    lemma_prefix(q2, ld, off, q1.len() as int);
    lemma_prefix(q3, d, off, q1.len() as int);
    lemma_prefix(q4, more, off, q1.len() as int);
    // the key
    lemma_suffix(q1, kb);
    lemma_prefix(q2, ld, q1.len() as int, q2.len() as int);
    lemma_prefix(q3, d, q1.len() as int, q2.len() as int);
    lemma_prefix(q4, more, q1.len() as int, q2.len() as int);
    // the data length field
    lemma_suffix(q2, ld);
    lemma_prefix(q3, d, q2.len() as int, q3.len() as int);
    lemma_prefix(q4, more, q2.len() as int, q3.len() as int);
    // the data
    lemma_suffix(q3, d);
    lemma_prefix(q4, more, q3.len() as int, q4.len() as int);
}

proof fn lemma_split_first(p: Seq<u8>, s: Seq<(Seq<char>, Seq<u8>)>, tail: Seq<u8>)
    requires
        s.len() > 0,
    ensures
        p + entries_bytes(s) + tail == p + entry_bytes(s[0]) + (entries_bytes(s.drop_first()) + tail),
        p + entries_bytes(s) + tail == (p + entry_bytes(s[0])) + entries_bytes(s.drop_first()) + tail,
{
    let a = entry_bytes(s[0]);
    let r = entries_bytes(s.drop_first());
    assert(entries_bytes(s) == a + r);
    assert(p + (a + r) + tail =~= p + a + (r + tail));
    assert(p + (a + r) + tail =~= (p + a) + r + tail);
}

proof fn lemma_encodable_rest(s: Seq<(Seq<char>, Seq<u8>)>)
    requires
        encodable(s),
        s.len() > 0,
    ensures
        encodable(s.drop_first()),
        encode_utf8(s[0].0).len() <= u32::MAX,
        s[0].1.len() <= u64::MAX,
{
    let rest = s.drop_first();
    assert forall|i: int| 0 <= i < rest.len() implies encode_utf8(#[trigger] rest[i].0).len() <= u32::MAX by {
        assert(rest[i] == s[i + 1]);
    }
    assert forall|i: int| 0 <= i < rest.len() implies (#[trigger] rest[i]).1.len() <= u64::MAX by {
        assert(rest[i] == s[i + 1]);
    }
}

#[verifier::spinoff_prover]
#[verifier::rlimit(40)]
proof fn lemma_parse_entries(p: Seq<u8>, s: Seq<(Seq<char>, Seq<u8>)>, tail: Seq<u8>)
    requires
        encodable(s),
    ensures
        parse_entries(p + entries_bytes(s) + tail, p.len() as int, s.len()) == Some(raw_entries(s)),
    decreases s.len(),
{
    if s.len() == 0 {
        assert(raw_entries(s) =~= Seq::<(Seq<u8>, Seq<u8>)>::empty());
    } else {
        let e = s[0];
        let rest = s.drop_first();
        lemma_encodable_rest(s);
        lemma_split_first(p, s, tail);
        lemma_parse_one(p, e, entries_bytes(rest) + tail);
        let p2 = p + entry_bytes(e);
        lemma_parse_entries(p2, rest, tail);
        assert(raw_entries(s) =~= seq![(encode_utf8(e.0), e.1)] + raw_entries(rest));
    }
}

/// Decoding what `encode` writes gives back the entries it was given, in their order.
pub proof fn law_decode_encode(s: Seq<(Seq<char>, Seq<u8>)>)
    requires
        encodable(s),
    ensures
        blob_ok(blob_bytes(s)),
        blob_entries(blob_bytes(s)) == s,
{
    let b = blob_bytes(s);
    lemma_u32_le(s.len() as int);
    lemma_le32_in(Seq::empty(), u32_le(s.len() as int), entries_bytes(s));
    assert(Seq::<u8>::empty() + u32_le(s.len() as int) + entries_bytes(s) =~= b);
    assert(b =~= u32_le(s.len() as int) + entries_bytes(s) + Seq::<u8>::empty());
    lemma_parse_entries(u32_le(s.len() as int), s, Seq::empty());
    let r = raw_entries(s);
    assert forall|i: int| 0 <= i < s.len() implies decode_utf8(encode_utf8(#[trigger] s[i].0)) == s[i].0 by {
        vstd::utf8::encode_utf8_decode_utf8(s[i].0);
    }
    assert(blob_entries(b) =~= s);
}

/// After `data` is stored under `key`, reading `key` gives `data` back, and every other
/// name reads as it did before.
pub proof fn law_read_after_write(before: &DataMap, after: &DataMap, key: Seq<char>, data: Seq<u8>, other: Seq<char>)
    requires
        after@ == before@.insert(key, data),
    ensures
        after@.contains_key(key),
        after@[key] == data,
        other != key ==> (after@.contains_key(other) == before@.contains_key(other)),
        other != key && before@.contains_key(other) ==> after@[other] == before@[other],
{
}

proof fn lemma_sorted_same_map(s: Seq<(Seq<char>, Seq<u8>)>, t: Seq<(Seq<char>, Seq<u8>)>)
    requires
        keys_sorted(s),
        keys_sorted(t),
        map_of(s) == map_of(t),
    ensures
        s == t,
    decreases s.len() + t.len(),
{
    lemma_sorted_distinct(s);
    lemma_sorted_distinct(t);
    if s.len() == 0 || t.len() == 0 {
        if s.len() > 0 {
            lemma_map_of_at(s, s.len() - 1);
            lemma_map_of_dom(t, s[s.len() - 1].0);
        }
        if t.len() > 0 {
            lemma_map_of_at(t, t.len() - 1);
            lemma_map_of_dom(s, t[t.len() - 1].0);
        }
        assert(s =~= t);
    } else {
        let ls = s.len() - 1;
        let lt = t.len() - 1;
        let ks = s[ls].0;
        let kt = t[lt].0;
        lemma_map_of_at(s, ls);
        lemma_map_of_at(t, lt);
        lemma_map_of_dom(t, ks);
        lemma_map_of_dom(s, kt);
        if ks != kt {
            let j = choose|j: int| 0 <= j < t.len() && #[trigger] t[j].0 == ks;
            let i = choose|i: int| 0 <= i < s.len() && #[trigger] s[i].0 == kt;
            assert(j < lt);
            assert(i < ls);
            assert(bytes_lt(encode_utf8(t[j].0), encode_utf8(t[lt].0)));
            assert(bytes_lt(encode_utf8(s[i].0), encode_utf8(s[ls].0)));
            lemma_lt_transitive(encode_utf8(ks), encode_utf8(kt), encode_utf8(ks), 0);
            lemma_lt_irreflexive(encode_utf8(ks), 0);
        }
        assert(s[ls] == t[lt]);
        let s2 = s.drop_last();
        let t2 = t.drop_last();
        lemma_map_of_dom(s2, ks);
        lemma_map_of_dom(t2, ks);
        if map_of(s2).dom().contains(ks) {
            let i = choose|i: int| 0 <= i < s2.len() && #[trigger] s2[i].0 == ks;
            assert(s[i].0 == s[ls].0);
        }
        if map_of(t2).dom().contains(ks) {
            let j = choose|j: int| 0 <= j < t2.len() && #[trigger] t2[j].0 == ks;
            assert(t[j].0 == t[lt].0);
        }
        assert(map_of(s) == map_of(s2).insert(ks, s[ls].1));
        assert(map_of(t) == map_of(t2).insert(ks, t[lt].1));
        assert(map_of(s2) =~= map_of(s).remove(ks));
        assert(map_of(t2) =~= map_of(t).remove(ks));
        assert(keys_sorted(s2)) by {
            assert forall|a: int, b: int| 0 <= a < b < s2.len() implies bytes_lt(
                encode_utf8(#[trigger] s2[a].0),
                encode_utf8(#[trigger] s2[b].0),
            ) by {
                assert(s2[a] == s[a] && s2[b] == s[b]);
            }
        }
        assert(keys_sorted(t2)) by {
            assert forall|a: int, b: int| 0 <= a < b < t2.len() implies bytes_lt(
                encode_utf8(#[trigger] t2[a].0),
                encode_utf8(#[trigger] t2[b].0),
            ) by {
                assert(t2[a] == t[a] && t2[b] == t[b]);
            }
        }
        lemma_sorted_same_map(s2, t2);
        assert(s =~= s2.push(s[ls]));
        assert(t =~= t2.push(t[lt]));
    }
}

/// Encoding depends on the map's contents alone: two maps that hold the same names with
/// the same data are stored as the same entries, and so encode to the same bytes.
pub proof fn law_encode_deterministic(a: &DataMap, b: &DataMap)
    requires
        keys_sorted(a.entries()),
        keys_sorted(b.entries()),
        a@ == b@,
    ensures
        a.entries() == b.entries(),
        blob_bytes(a.entries()) == blob_bytes(b.entries()),
{
    lemma_sorted_same_map(a.entries(), b.entries());
}

/// The same law for a map: decoding its encoding gives the map back.
pub proof fn law_decode_encode_map(m: &DataMap)
    requires
        encodable(m.entries()),
    ensures
        blob_ok(blob_bytes(m.entries())),
        map_of(blob_entries(blob_bytes(m.entries()))) == m@,
{
    law_decode_encode(m.entries());
}

fn push_u32(out: &mut Vec<u8>, v: u32)
    ensures
        final(out)@ == old(out)@ + u32_le(v as int),
{
    out.push((v % 256) as u8);
    out.push((v / 256 % 256) as u8);
    out.push((v / 65536 % 256) as u8);
    out.push((v / 16777216 % 256) as u8);
    assert(out@ =~= old(out)@ + u32_le(v as int));
}

fn push_u64(out: &mut Vec<u8>, v: u64)
    ensures
        final(out)@ == old(out)@ + u64_le(v as int),
{
    push_u32(out, (v % 4294967296) as u32);
    push_u32(out, (v / 4294967296) as u32);
    assert(out@ =~= old(out)@ + u64_le(v as int));
}

fn push_bytes(out: &mut Vec<u8>, src: &[u8])
    ensures
        final(out)@ == old(out)@ + src@,
{
    let ghost start = out@;
    let mut i: usize = 0;
    while i < src.len()
        invariant
            i <= src@.len(),
            out@ == start + src@.subrange(0, i as int),
        decreases src@.len() - i,
    {
        out.push(src[i]);
        i = i + 1;
        assert(out@ =~= start + src@.subrange(0, i as int));
    }
    assert(src@.subrange(0, src@.len() as int) =~= src@);
}

proof fn lemma_assoc5(a: Seq<u8>, b: Seq<u8>, c: Seq<u8>, d: Seq<u8>, e: Seq<u8>)
    ensures
        a + b + c + d + e == a + (b + c + d + e),
{
    assert(a + b + c + d + e =~= a + (b + c + d + e));
}

proof fn lemma_assoc3(a: Seq<u8>, b: Seq<u8>, c: Seq<u8>)
    ensures
        a + b + c == a + (b + c),
{
    assert(a + b + c =~= a + (b + c));
}

proof fn lemma_entries_bytes_single(x: (Seq<char>, Seq<u8>))
    ensures
        entries_bytes(seq![x]) == entry_bytes(x),
{
    let one = seq![x];
    assert(one.drop_first() =~= Seq::<(Seq<char>, Seq<u8>)>::empty());
    assert(entries_bytes(one.drop_first()) == Seq::<u8>::empty());
    assert(entries_bytes(one) == entry_bytes(x) + Seq::<u8>::empty());
    assert(entry_bytes(x) + Seq::<u8>::empty() =~= entry_bytes(x));
}

proof fn lemma_entries_bytes_push(s: Seq<(Seq<char>, Seq<u8>)>, i: int)
    requires
        0 <= i < s.len(),
    ensures
        entries_bytes(s.take(i + 1)) == entries_bytes(s.take(i)) + entry_bytes(s[i]),
{
    let x = s[i];
    let a = s.take(i);
    let one = seq![x];
    assert(s.take(i + 1) =~= a + one);
    lemma_entries_bytes_concat(a, one);
    lemma_entries_bytes_single(x);
}

proof fn lemma_encode_step(
    s: Seq<(Seq<char>, Seq<u8>)>,
    i: int,
    head: Seq<u8>,
    before: Seq<u8>,
    after: Seq<u8>,
)
    requires
        0 <= i < s.len(),
        before == head + entries_bytes(s.take(i)),
        after == before + u32_le(encode_utf8(s[i].0).len() as int) + encode_utf8(s[i].0) + u64_le(
            s[i].1.len() as int,
        ) + s[i].1,
    ensures
        after == head + entries_bytes(s.take(i + 1)),
{
    let x = s[i];
    lemma_assoc5(before, u32_le(encode_utf8(x.0).len() as int), encode_utf8(x.0), u64_le(x.1.len() as int), x.1);
    assert(after == before + entry_bytes(x));
    lemma_entries_bytes_push(s, i);
    lemma_assoc3(head, entries_bytes(s.take(i)), entry_bytes(x));
}

/// Packs a map into the container format, entries in increasing key order.
pub fn encode(files: &DataMap) -> (r: Vec<u8>)
    requires
        encodable(files.entries()),
    ensures
        r@ == blob_bytes(files.entries()),
        keys_sorted(files.entries()),
        files@ == map_of(files.entries()),
{
    proof {
        use_type_invariant(files);
    }
    let ghost s = files.entries();
    let n = files.entries.len();
    let mut out: Vec<u8> = Vec::new();
    push_u32(&mut out, n as u32);
    proof {
        assert(s.take(0) =~= Seq::<(Seq<char>, Seq<u8>)>::empty());
        assert(out@ =~= u32_le(n as int) + entries_bytes(s.take(0)));
    }
    let mut i: usize = 0;
    while i < n
        invariant
            n == s.len() == files.entries@.len(),
            s == files.entries(),
            encodable(s),
            i <= n,
            out@ == u32_le(n as int) + entries_bytes(s.take(i as int)),
        decreases n - i,
    {
        let e = &files.entries[i];
        let kb = e.0.as_str().as_bytes();
        proof {
            assert(s[i as int] == (e.0@, e.1@));
            assert(kb@ == encode_utf8(s[i as int].0));
        }
        let ghost before = out@;
        push_u32(&mut out, kb.len() as u32);
        push_bytes(&mut out, kb);
        push_u64(&mut out, e.1.len() as u64);
        push_bytes(&mut out, e.1.as_slice());
        proof {
            lemma_encode_step(s, i as int, u32_le(n as int), before, out@);
        }
        i = i + 1;
    }
    proof {
        assert(s.take(n as int) =~= s);
    }
    out
}

/// Unpacks a container into a map. Entries are inserted in the order they are read, so a
/// later entry replaces an earlier one with the same key.
pub fn decode(blob: &[u8]) -> (r: DictResult<DataMap>)
    ensures
        r is Ok <==> blob_ok(blob@),
        r matches Ok(m) ==> m@ == map_of(blob_entries(blob@)),
{
    let ghost b = blob@;
    let len = blob.len();
    if len < 4 {
        return Err(DictError::new("blob truncated", 0));
    }
    let count = get_le32(blob, 0) as usize;
    let mut files = DataMap::new();
    let ghost mut done: Seq<(Seq<u8>, Seq<u8>)> = Seq::empty();
    let mut off: usize = 4;
    let mut i: usize = 0;
    while i < count
        invariant
            b == blob@,
            len == b.len(),
            count == le32(b, 0),
            4 <= off <= len,
            i <= count,
            done.len() == i,
            parse_entries(b, 4, count as nat) == match parse_entries(b, off as int, (count - i) as nat) {
                Some(rest) => Some(done + rest),
                None => None::<Seq<(Seq<u8>, Seq<u8>)>>,
            },
            files@ == map_of(done.map_values(|e: (Seq<u8>, Seq<u8>)| (decode_utf8(e.0), e.1))),
        decreases count - i,
    {
        if len - off < 4 {
            return Err(DictError::new("blob truncated", off));
        }
        let klen = get_le32(blob, off) as usize;
        let ks = off + 4;
        if len - ks < klen {
            return Err(DictError::new("blob truncated", ks));
        }
        let kbytes = slice_range(blob, ks, ks + klen);
        let key = match utf8_strict(kbytes) {
            Some(k) => k,
            None => {
                return Err(DictError::new("invalid key", ks + klen));
            },
        };
        let ke = ks + klen;
        if len - ke < 8 {
            return Err(DictError::new("blob truncated", ke));
        }
        let dlen64 = get_le64(blob, ke);
        let ds = ke + 8;
        if dlen64 > (len - ds) as u64 {
            return Err(DictError::new("blob truncated", ds));
        }
        let dlen = dlen64 as usize;
        let data = copy_range(blob, ds, ds + dlen);
        let ghost e = (b.subrange(ks as int, ke as int), b.subrange(ds as int, (ds + dlen) as int));
        let ghost f = |e: (Seq<u8>, Seq<u8>)| (decode_utf8(e.0), e.1);
        let ghost old_done = done;
        proof {
            done = done.push(e);
            match parse_entries(b, (ds + dlen) as int, (count - i - 1) as nat) {
                Some(rest) => {
                    assert(old_done + (seq![e] + rest) =~= done + rest);
                },
                None => {},
            }
            assert(done.map_values(f).drop_last() =~= old_done.map_values(f));
            assert(done.map_values(f).last() == (key@, data@));
        }
        files.insert(key, data);
        off = ds + dlen;
        i = i + 1;
    }
    proof {
        assert(parse_entries(b, off as int, 0) == Some(Seq::<(Seq<u8>, Seq<u8>)>::empty()));
        assert(done + Seq::<(Seq<u8>, Seq<u8>)>::empty() =~= done);
    }
    Ok(files)
}

} // verus!
