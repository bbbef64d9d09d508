//! The PATRICIA-style search trees of the n-gram dictionaries: a key array, an info
//! table (key offset, value, chain link) and a node table (bit index or leaf value,
//! left child, right child).
use vstd::prelude::*;
use crate::common::{DictError, DictResult, le32, signed32, get_le32, to_i32, slice_range, first_zero_from, find_zero, zero_pair_from, find_zero_pair, bytes_eq};

verus! {

/// One entry of the info table.
#[derive(Debug, Clone, Copy)]
pub struct AptreeInfo {
    pub key_offset: u32,
    pub value: u32,
    pub next: i32,
}

/// One node of the tree: an inner node tests bit `value` of the key; a node with a child
/// of `-1` is a leaf whose `value` is an info index.
#[derive(Debug, Clone, Copy)]
pub struct AptreeNode {
    pub value: u32,
    pub left: i32,
    pub right: i32,
}

/// A search tree over a borrowed key array.
#[derive(Debug)]
pub struct Aptree<'a> {
    pub n_info: usize,
    pub n_tree: usize,
    pub key_len: usize,
    pub keys: &'a [u8],
    pub wide: bool,
    pub info: Vec<AptreeInfo>,
    pub nodes: Vec<AptreeNode>,
}

/// Byte `i` of the key, zero past its end.
pub open spec fn key_byte(key: Seq<u8>, i: int) -> u8 {
    if 0 <= i < key.len() {
        key[i]
    } else {
        0
    }
}

/// Bit `bit` of a byte key, most significant bit of each byte first.
pub open spec fn bit_set(key: Seq<u8>, bit: u32) -> bool {
    key_byte(key, (bit >> 3) as int) & (0x80u8 >> ((bit & 7) as u8)) != 0
}

/// Unit `i` of a wide key, zero past its end.
pub open spec fn key_unit(key: Seq<u16>, i: int) -> u16 {
    if 0 <= i < key.len() {
        key[i]
    } else {
        0
    }
}

/// Bit `bit` of a wide key, most significant bit of each unit first.
pub open spec fn bit_set_w(key: Seq<u16>, bit: u32) -> bool {
    key_unit(key, (bit >> 4) as int) & (0x8000u16 >> ((bit & 15) as u16)) != 0
}

/// Tests bit `bit` of a byte key.
pub fn test_bit(key: &[u8], bit: u32) -> (r: bool)
    ensures
        r == bit_set(key@, bit),
{
    let i = (bit >> 3) as usize;
    let byte = if i < key.len() {
        key[i]
    } else {
        0
    };
    let s: u32 = bit & 7;
    assert(s < 8) by (bit_vector)
        requires
            s == bit & 7,
    ;
    (byte & (0x80u8 >> (s as u8))) != 0
}

/// Tests bit `bit` of a wide key.
pub fn test_bit_w(key: &[u16], bit: u32) -> (r: bool)
    ensures
        r == bit_set_w(key@, bit),
{
    let i = (bit >> 4) as usize;
    let w = if i < key.len() {
        key[i]
    } else {
        0
    };
    let s: u32 = bit & 15;
    assert(s < 16) by (bit_vector)
        requires
            s == bit & 15,
    ;
    (w & (0x8000u16 >> (s as u16))) != 0
}

/// Bit `b` of the search key: of the wide key when `wide`, else of the byte key.
pub open spec fn key_bit(key: Seq<u8>, wkey: Seq<u16>, wide: bool, b: u32) -> bool {
    if wide {
        bit_set_w(wkey, b)
    } else {
        bit_set(key, b)
    }
}

/// The walk down the tree from node `cur`, taking the right child where the key bit
/// holds, for at most `fuel` nodes: the value of the leaf reached, if one is reached at a
/// valid index.
pub open spec fn walk(
    nodes: Seq<AptreeNode>,
    key: Seq<u8>,
    wkey: Seq<u16>,
    wide: bool,
    cur: int,
    fuel: nat,
) -> Option<u32>
    decreases fuel,
{
    if fuel == 0 || cur < 0 || cur >= nodes.len() {
        None
    } else {
        let n = nodes[cur];
        if n.left == -1 || n.right == -1 {
            Some(n.value)
        } else {
            walk(
                nodes,
                key,
                wkey,
                wide,
                if key_bit(key, wkey, wide, n.value) {
                    n.right as int
                } else {
                    n.left as int
                },
                (fuel - 1) as nat,
            )
        }
    }
}

/// The walk from the root reaches a leaf.
pub open spec fn search_ends(
    nodes: Seq<AptreeNode>,
    n_tree: int,
    key: Seq<u8>,
    wkey: Seq<u16>,
    wide: bool,
) -> bool {
    n_tree == 0 || exists|f: nat| #[trigger] walk(nodes, key, wkey, wide, n_tree - 1, f) is Some
}

/// The leaf value the search from the root reaches.
pub open spec fn search_value(
    nodes: Seq<AptreeNode>,
    n_tree: int,
    key: Seq<u8>,
    wkey: Seq<u16>,
    wide: bool,
) -> Option<u32> {
    if n_tree == 0 {
        None
    } else {
        walk(
            nodes,
            key,
            wkey,
            wide,
            n_tree - 1,
            choose|f: nat| #[trigger] walk(nodes, key, wkey, wide, n_tree - 1, f) is Some,
        )
    }
}

fn search_with(nodes: &Vec<AptreeNode>, n_tree: usize, key: &[u8], wkey: &[u16], wide: bool) -> (r: Option<usize>)
    requires
        search_ends(nodes@, n_tree as int, key@, wkey@, wide),
    ensures
        r == match search_value(nodes@, n_tree as int, key@, wkey@, wide) {
            Some(v) => Some(v as usize),
            None => None::<usize>,
        },
{
    if n_tree == 0 {
        return None;
    }
    let ghost f0 = choose|f: nat| #[trigger] walk(nodes@, key@, wkey@, wide, n_tree - 1, f) is Some;
    let ghost result = walk(nodes@, key@, wkey@, wide, n_tree - 1, f0);
    let ghost mut fuel = f0;
    let mut cur: usize = n_tree - 1;
    loop
        invariant
            result is Some,
            result == search_value(nodes@, n_tree as int, key@, wkey@, wide),
            walk(nodes@, key@, wkey@, wide, cur as int, fuel) == result,
        decreases fuel,
    {
        let n = nodes[cur];
        if n.left == -1 || n.right == -1 {
            return Some(n.value as usize);
        }
        let go_right = if wide {
            test_bit_w(wkey, n.value)
        } else {
            test_bit(key, n.value)
        };
        let next = if go_right {
            n.right
        } else {
            n.left
        };
        proof {
            assert(go_right == key_bit(key@, wkey@, wide, n.value));
            assert(walk(nodes@, key@, wkey@, wide, next as int, (fuel - 1) as nat) == result);
            fuel = (fuel - 1) as nat;
        }
        cur = next as usize;
    }
}

impl<'a> Aptree<'a> {
    /// The byte key of info entry `idx`: from its offset to the next NUL or the end.
    pub fn key_at(&self, idx: usize) -> (r: &[u8])
        requires
            idx < self.info@.len(),
            self.info@[idx as int].key_offset <= self.keys@.len(),
        ensures
            r@ == self.keys@.subrange(
                self.info@[idx as int].key_offset as int,
                match first_zero_from(self.keys@, self.info@[idx as int].key_offset as int) {
                    Some(k) => self.info@[idx as int].key_offset + k,
                    None => self.keys@.len() as int,
                },
            ),
    {
        let start = self.info[idx].key_offset as usize;
        let end = match find_zero(self.keys, start) {
            Some(e) => e,
            None => self.keys.len(),
        };
        slice_range(self.keys, start, end)
    }

    /// The wide key of info entry `idx`: from twice its offset to the next aligned zero
    /// unit, or to the last whole unit.
    pub fn key_w_at(&self, idx: usize) -> (r: &[u8])
        requires
            idx < self.info@.len(),
            2 * self.info@[idx as int].key_offset <= self.keys@.len(),
        ensures
            r@ == self.keys@.subrange(
                2 * self.info@[idx as int].key_offset,
                match zero_pair_from(self.keys@, 2 * self.info@[idx as int].key_offset) {
                    Some(e) => e,
                    None => wide_end(self.keys@.len() as int, 2 * self.info@[idx as int].key_offset),
                },
            ),
    {
        let klen = self.keys.len();
        let start = self.info[idx].key_offset as usize * 2;
        let end = match find_zero_pair(self.keys, start) {
            Some(e) => e,
            None => if start + 1 >= klen {
                start
            } else {
                start + 2 * ((klen - start) / 2)
            },
        };
        slice_range(self.keys, start, end)
    }

    /// Searches the tree with a byte key: the info index of the leaf reached.
    pub fn search(&self, key: &[u8]) -> (r: Option<usize>)
        requires
            search_ends(self.nodes@, self.n_tree as int, key@, Seq::empty(), false),
        ensures
            r == match search_value(self.nodes@, self.n_tree as int, key@, Seq::empty(), false) {
                Some(v) => Some(v as usize),
                None => None::<usize>,
            },
    {
        let empty: [u16; 0] = [];
        let e = empty.as_slice();
        assert(e@ =~= Seq::<u16>::empty());
        search_with(&self.nodes, self.n_tree, key, e, false)
    }

    /// Searches the tree with a wide key: the info index of the leaf reached.
    pub fn search_w(&self, key: &[u16]) -> (r: Option<usize>)
        requires
            search_ends(self.nodes@, self.n_tree as int, Seq::empty(), key@, true),
        ensures
            r == match search_value(self.nodes@, self.n_tree as int, Seq::empty(), key@, true) {
                Some(v) => Some(v as usize),
                None => None::<usize>,
            },
    {
        let empty: [u8; 0] = [];
        let e = empty.as_slice();
        assert(e@ =~= Seq::<u8>::empty());
        search_with(&self.nodes, self.n_tree, e, key, true)
    }
}

/// Where the scan for an aligned zero unit stops when there is none: the first position
/// `start + 2k` with no whole unit left.
pub open spec fn wide_end(len: int, start: int) -> int {
    if start + 1 >= len {
        start
    } else {
        start + 2 * ((len - start) / 2)
    }
}

/// Bytes of the key array: `key_len` units of one byte, or of two when `wide`.
pub open spec fn ap_kbytes(d: Seq<u8>, wide: bool) -> int {
    if wide {
        2 * le32(d, 8)
    } else {
        le32(d, 8)
    }
}

/// Start of the info table.
pub open spec fn ap_info_start(d: Seq<u8>, wide: bool) -> int {
    12 + ap_kbytes(d, wide)
}

/// `n` entries of `isz` bytes.
pub open spec fn isz_mul(isz: int, n: int) -> int {
    if isz == 12 {
        12 * n
    } else {
        8 * n
    }
}

/// Start of the node table.
pub open spec fn ap_node_start(d: Seq<u8>, isz: int, wide: bool) -> int {
    ap_info_start(d, wide) + isz_mul(isz, le32(d, 0))
}

/// Size the header announces.
pub open spec fn ap_total(d: Seq<u8>, isz: int, wide: bool) -> int {
    ap_node_start(d, isz, wide) + 12 * le32(d, 4)
}

/// Info entry `i`: key offset, value (absent from 8-byte entries), chain link.
pub open spec fn ap_info(d: Seq<u8>, isz: int, wide: bool, i: int) -> AptreeInfo {
    let b = ap_info_start(d, wide) + isz_mul(isz, i);
    AptreeInfo {
        key_offset: le32(d, b) as u32,
        value: if isz == 12 {
            le32(d, b + 4) as u32
        } else {
            0
        },
        next: signed32(
            le32(
                d,
                if isz == 12 {
                    b + 8
                } else {
                    b + 4
                },
            ),
        ) as i32,
    }
}

/// Node `j`.
pub open spec fn ap_node(d: Seq<u8>, isz: int, wide: bool, j: int) -> AptreeNode {
    let b = ap_node_start(d, isz, wide) + 12 * j;
    AptreeNode {
        value: le32(d, b) as u32,
        left: signed32(le32(d, b + 4)) as i32,
        right: signed32(le32(d, b + 8)) as i32,
    }
}

/// The key at offset `off` starts inside the key array and is terminated there: by a NUL,
/// or for wide keys by an aligned zero unit.
pub open spec fn ap_key_ok(keys: Seq<u8>, off: int, wide: bool) -> bool {
    if wide {
        2 * off < keys.len() && zero_pair_from(keys, 2 * off) is Some
    } else {
        off < keys.len() && first_zero_from(keys, off) is Some
    }
}

/// The data is a tree with `isz`-byte info entries and nothing after it, and every key
/// it names is terminated.
pub open spec fn aptree_ok(d: Seq<u8>, isz: int, wide: bool) -> bool {
    &&& isz == 8 || isz == 12
    &&& d.len() >= 12
    &&& ap_total(d, isz, wide) == d.len()
    &&& forall|i: int|
        0 <= i < le32(d, 0) ==> #[trigger] ap_key_ok(
            d.subrange(12, ap_info_start(d, wide)),
            ap_info(d, isz, wide, i).key_offset as int,
            wide,
        )
}

/// The tree is what the data holds.
pub open spec fn aptree_matches(t: Aptree, d: Seq<u8>, isz: int, wide: bool) -> bool {
    &&& t.n_info == le32(d, 0)
    &&& t.n_tree == le32(d, 4)
    &&& t.key_len == le32(d, 8)
    &&& t.wide == wide
    &&& t.keys@ == d.subrange(12, ap_info_start(d, wide))
    &&& t.info@ == Seq::new(t.n_info as nat, |i: int| ap_info(d, isz, wide, i))
    &&& t.nodes@ == Seq::new(t.n_tree as nat, |j: int| ap_node(d, isz, wide, j))
}

/// Parses a tree whose info entries are `info_size` bytes (12, or 8 without a value); an
/// `info_size` of neither is refused.
#[verifier::spinoff_prover]
#[verifier::rlimit(40)]
pub fn parse_aptree<'a>(data: &'a [u8], info_size: usize, wide: bool) -> (r: DictResult<Aptree<'a>>)
    ensures
        r is Ok <==> aptree_ok(data@, info_size as int, wide),
        r matches Ok(t) ==> aptree_matches(t, data@, info_size as int, wide),
{
    let ghost d = data@;
    let len = data.len();
    if info_size != 12 && info_size != 8 {
        return Err(DictError::new("info_size must be 8 or 12", 0));
    }
    if len < 12 {
        return Err(DictError::new("header EOF", 0));
    }
    let n_info = get_le32(data, 0) as u64;
    let n_tree = get_le32(data, 4) as u64;
    let key_len = get_le32(data, 8) as u64;
    let kb: u64 = if wide {
        2 * key_len
    } else {
        key_len
    };
    let isz12 = info_size == 12;
    let itotal: u64 = if isz12 {
        12 * n_info
    } else {
        8 * n_info
    };
    let total: u64 = 12 + kb + itotal + 12 * n_tree;
    if total != len as u64 {
        return Err(DictError::new("size does not match the header", 0));
    }
    let kb = kb as usize;
    let n_info = n_info as usize;
    let n_tree = n_tree as usize;
    let keys = slice_range(data, 12, 12 + kb);
    let istart = 12 + kb;
    let mut info: Vec<AptreeInfo> = Vec::new();
    let mut i: usize = 0;
    while i < n_info
        invariant
            d == data@,
            len == d.len(),
            info_size == 8 || info_size == 12,
            isz12 == (info_size == 12),
            istart == ap_info_start(d, wide),
            ap_total(d, info_size as int, wide) == len,
            n_info == le32(d, 0),
            n_tree == le32(d, 4),
            i <= n_info,
            info@ == Seq::new(i as nat, |t: int| ap_info(d, info_size as int, wide, t)),
        decreases n_info - i,
    {
        let b = if isz12 {
            istart + 12 * i
        } else {
            istart + 8 * i
        };
        let key_offset = get_le32(data, b);
        let value = if isz12 {
            get_le32(data, b + 4)
        } else {
            0
        };
        let next = if isz12 {
            to_i32(get_le32(data, b + 8))
        } else {
            to_i32(get_le32(data, b + 4))
        };
        info.push(AptreeInfo { key_offset, value, next });
        proof {
            assert(info@ =~= Seq::new((i + 1) as nat, |t: int| ap_info(d, info_size as int, wide, t)));
        }
        i = i + 1;
    }
    let nstart = if isz12 {
        istart + 12 * n_info
    } else {
        istart + 8 * n_info
    };
    let mut nodes: Vec<AptreeNode> = Vec::new();
    let mut j: usize = 0;
    while j < n_tree
        invariant
            d == data@,
            len == d.len(),
            info_size == 8 || info_size == 12,
            nstart == ap_node_start(d, info_size as int, wide),
            ap_total(d, info_size as int, wide) == len,
            n_tree == le32(d, 4),
            j <= n_tree,
            nodes@ == Seq::new(j as nat, |t: int| ap_node(d, info_size as int, wide, t)),
        decreases n_tree - j,
    {
        let b = nstart + 12 * j;
        let value = get_le32(data, b);
        let left = to_i32(get_le32(data, b + 4));
        let right = to_i32(get_le32(data, b + 8));
        nodes.push(AptreeNode { value, left, right });
        proof {
            assert(nodes@ =~= Seq::new((j + 1) as nat, |t: int| ap_node(d, info_size as int, wide, t)));
        }
        j = j + 1;
    }
    let mut i: usize = 0;
    while i < n_info
        invariant
            d == data@,
            len == d.len(),
            info_size == 8 || info_size == 12,
            ap_total(d, info_size as int, wide) == len,
            12 + ap_kbytes(d, wide) <= len,
            n_info == le32(d, 0),
            n_tree == le32(d, 4),
            key_len == le32(d, 8),
            nodes@ == Seq::new(n_tree as nat, |t: int| ap_node(d, info_size as int, wide, t)),
            keys@ == d.subrange(12, ap_info_start(d, wide)),
            info@ == Seq::new(n_info as nat, |t: int| ap_info(d, info_size as int, wide, t)),
            i <= n_info,
            forall|t: int|
                0 <= t < i ==> #[trigger] ap_key_ok(
                    d.subrange(12, ap_info_start(d, wide)),
                    ap_info(d, info_size as int, wide, t).key_offset as int,
                    wide,
                ),
        decreases n_info - i,
    {
        let off = info[i].key_offset as usize;
        proof {
            assert(info@[i as int] == ap_info(d, info_size as int, wide, i as int));
        }
        if wide {
            if 2 * (off as u64) >= keys.len() as u64 {
                proof {
                    assert(!ap_key_ok(keys@, off as int, wide));
                }
                return Err(DictError::new("key offset exceeds the key array", 0));
            }
            if find_zero_pair(keys, 2 * off).is_none() {
                proof {
                    assert(!ap_key_ok(keys@, off as int, wide));
                }
                return Err(DictError::new("wide key is not terminated", 0));
            }
        } else {
            if off >= keys.len() {
                proof {
                    assert(!ap_key_ok(keys@, off as int, wide));
                }
                return Err(DictError::new("key offset exceeds the key array", 0));
            }
            if find_zero(keys, off).is_none() {
                proof {
                    assert(!ap_key_ok(keys@, off as int, wide));
                }
                return Err(DictError::new("key is not NUL-terminated", 0));
            }
        }
        i = i + 1;
    }
    Ok(Aptree { n_info, n_tree, key_len: key_len as usize, keys, wide, info, nodes })
}

/// Little-endian bytes of UTF-16 units.
pub open spec fn units_le(key: Seq<u16>) -> Seq<u8> {
    Seq::new(
        (2 * key.len()) as nat,
        |i: int|
            if i % 2 == 0 {
                (key[i / 2] % 256) as u8
            } else {
                (key[i / 2] / 256) as u8
            },
    )
}

pub(crate) fn u16_slice_bytes(key: &[u16]) -> (r: Vec<u8>)
    ensures
        r@ == units_le(key@),
{
    let mut v: Vec<u8> = Vec::new();
    let mut i: usize = 0;
    while i < key.len()
        invariant
            i <= key@.len(),
            v@ == units_le(key@.subrange(0, i as int)),
        decreases key@.len() - i,
    {
        let w = key[i];
        v.push((w % 256) as u8);
        v.push((w / 256) as u8);
        i = i + 1;
        proof {
            assert(v@ =~= units_le(key@.subrange(0, i as int)));
        }
    }
    proof {
        assert(key@.subrange(0, i as int) =~= key@);
    }
    v
}

/// The wide key of an info entry, as `key_w_at` reads it.
pub open spec fn wide_key(keys: Seq<u8>, off: int) -> Seq<u8> {
    keys.subrange(
        2 * off,
        match zero_pair_from(keys, 2 * off) {
            Some(e) => e,
            None => wide_end(keys.len() as int, 2 * off),
        },
    )
}

/// A wide-key search ends at a leaf whose info entry exists and whose key offset lies in
/// the key array.
pub open spec fn wide_lookup_defined(t: Aptree, key: Seq<u16>) -> bool {
    &&& search_ends(t.nodes@, t.n_tree as int, Seq::empty(), key, true)
    &&& search_value(t.nodes@, t.n_tree as int, Seq::empty(), key, true) matches Some(i) ==> i
        < t.info@.len() && 2 * t.info@[i as int].key_offset <= t.keys@.len()
}

/// Whether the wide-key search for `key` ends at an entry holding exactly `key`.
pub open spec fn wide_found(t: Aptree, key: Seq<u16>) -> bool {
    match search_value(t.nodes@, t.n_tree as int, Seq::empty(), key, true) {
        Some(i) => wide_key(t.keys@, t.info@[i as int].key_offset as int) == units_le(key),
        None => false,
    }
}

/// The hanja character bigram tree.
#[derive(Debug)]
pub struct CharGram<'a> {
    pub aptree: Aptree<'a>,
}

/// Parses the hanja character bigram tree: wide keys, 12-byte info entries.
pub fn parse_hc<'a>(data: &'a [u8]) -> (r: DictResult<CharGram<'a>>)
    ensures
        r is Ok <==> aptree_ok(data@, 12, true),
        r matches Ok(c) ==> aptree_matches(c.aptree, data@, 12, true),
{
    match parse_aptree(data, 12, true) {
        Ok(aptree) => Ok(CharGram { aptree }),
        Err(e) => Err(e),
    }
}

/// The hanja name trigram tree.
#[derive(Debug)]
pub struct NameGram<'a> {
    pub aptree: Aptree<'a>,
}

impl<'a> NameGram<'a> {
    /// Whether `key` is in the tree.
    pub fn contains(&self, key: &[u16]) -> (b: bool)
        requires
            wide_lookup_defined(self.aptree, key@),
        ensures
            b == wide_found(self.aptree, key@),
    {
        match self.aptree.search_w(key) {
            Some(i) => {
                let k = self.aptree.key_w_at(i);
                let kb = u16_slice_bytes(key);
                bytes_eq(k, kb.as_slice())
            },
            None => false,
        }
    }
}

/// Parses the hanja name trigram tree: wide keys, 8-byte info entries.
pub fn parse_hkname<'a>(data: &'a [u8]) -> (r: DictResult<NameGram<'a>>)
    ensures
        r is Ok <==> aptree_ok(data@, 8, true),
        r matches Ok(c) ==> aptree_matches(c.aptree, data@, 8, true),
{
    match parse_aptree(data, 8, true) {
        Ok(aptree) => Ok(NameGram { aptree }),
        Err(e) => Err(e),
    }
}

/// A word trigram pattern: its probability (the bit pattern of an IEEE single value),
/// the three spellings it matches (empty: any) and the three tags (0: any).
#[derive(Debug, Clone, PartialEq, Eq)]
pub struct WordPattern {
    pub prob: u32,
    pub pyogi: [Vec<u8>; 3],
    pub pos: [u8; 3],
}

/// A pattern as (probability bits, spellings, tags).
pub open spec fn pattern_view(p: WordPattern) -> (u32, Seq<Seq<u8>>, Seq<u8>) {
    (p.prob, seq![p.pyogi@[0]@, p.pyogi@[1]@, p.pyogi@[2]@], p.pos@)
}

/// One pattern read at `p`: the probability, three length-prefixed spellings, three tags;
/// with the offset after it, or `None` where it runs past the end.
pub open spec fn pattern_at(d: Seq<u8>, p: int) -> Option<((u32, Seq<Seq<u8>>, Seq<u8>), int)> {
    let a = p + 4;
    if a + 1 > d.len() {
        None
    } else {
        let b = a + 1 + d[a];
        if b + 1 > d.len() {
            None
        } else {
            let c = b + 1 + d[b];
            if c + 1 > d.len() {
                None
            } else {
                let e = c + 1 + d[c];
                if e + 3 > d.len() {
                    None
                } else {
                    Some(
                        (
                            (
                                le32(d, p) as u32,
                                seq![d.subrange(a + 1, b), d.subrange(b + 1, c), d.subrange(c + 1, e)],
                                d.subrange(e, e + 3),
                            ),
                            e + 3,
                        ),
                    )
                }
            }
        }
    }
}

/// `k` patterns read from `p` on, or `None` where one runs past the end.
pub open spec fn patterns_from(d: Seq<u8>, p: int, k: nat) -> Option<Seq<(u32, Seq<Seq<u8>>, Seq<u8>)>>
    decreases k,
{
    if k == 0 {
        Some(Seq::empty())
    } else {
        match pattern_at(d, p) {
            None => None,
            Some(x) => match patterns_from(d, x.1, (k - 1) as nat) {
                None => None,
                Some(rest) => Some(seq![x.0] + rest),
            },
        }
    }
}

/// The patterns of the record at `off` of the pattern file: a count, then that many
/// patterns; `None` where the offset or a pattern lies past the end.
pub open spec fn patterns_at(d: Seq<u8>, off: int) -> Option<Seq<(u32, Seq<Seq<u8>>, Seq<u8>)>> {
    if off < 0 || off >= d.len() {
        None
    } else {
        patterns_from(d, off + 1, d[off] as nat)
    }
}

proof fn lemma_pattern_at_grows(d: Seq<u8>, p: int)
    requires
        pattern_at(d, p) is Some,
    ensures
        (pattern_at(d, p)->0).1 > p,
        (pattern_at(d, p)->0).1 <= d.len(),
{
}

fn read_bytes(dic: &[u8], p: usize) -> (r: Option<(Vec<u8>, usize)>)
    ensures
        match r {
            Some(x) => p + 1 <= dic@.len() && x.1 == p + 1 + dic@[p as int] && x.1 <= dic@.len() && x.0@
                == dic@.subrange(p + 1, x.1 as int),
            None => p + 1 > dic@.len() || p + 1 + dic@[p as int] > dic@.len(),
        },
{
    if p >= dic.len() {
        return None;
    }
    let n = dic[p] as usize;
    if dic.len() - p - 1 < n {
        return None;
    }
    Some((crate::common::copy_range(dic, p + 1, p + 1 + n), p + 1 + n))
}

fn parse_pattern(dic: &[u8], p: usize) -> (r: Option<(WordPattern, usize)>)
    ensures
        match pattern_at(dic@, p as int) {
            None => r is None,
            Some(x) => r matches Some(y) && pattern_view(y.0) == x.0 && y.1 == x.1,
        },
{
    if dic.len() < 4 || p > dic.len() - 4 {
        return None;
    }
    let prob = get_le32(dic, p);
    let (a, pa) = match read_bytes(dic, p + 4) {
        Some(x) => x,
        None => {
            return None;
        },
    };
    let (b, pb) = match read_bytes(dic, pa) {
        Some(x) => x,
        None => {
            return None;
        },
    };
    let (c, pc) = match read_bytes(dic, pb) {
        Some(x) => x,
        None => {
            return None;
        },
    };
    if dic.len() - pc < 3 {
        return None;
    }
    let pos = [dic[pc], dic[pc + 1], dic[pc + 2]];
    let w = WordPattern { prob, pyogi: [a, b, c], pos };
    proof {
        assert(pos@ =~= dic@.subrange(pc as int, pc + 3));
        assert(pattern_view(w).1 =~= seq![
            dic@.subrange(p + 5, pa as int),
            dic@.subrange(pa + 1, pb as int),
            dic@.subrange(pb + 1, pc as int),
        ]);
    }
    Some((w, pc + 3))
}

/// Parses the patterns of the record at `offset` of the pattern file.
pub fn parse_patterns(dic: &[u8], offset: usize) -> (r: DictResult<Vec<WordPattern>>)
    ensures
        match patterns_at(dic@, offset as int) {
            None => r is Err,
            Some(ps) => r matches Ok(v) && v@.map_values(|w: WordPattern| pattern_view(w)) == ps,
        },
{
    if offset >= dic.len() {
        return Err(DictError::new("offset exceeds file size", offset));
    }
    let n = dic[offset] as usize;
    let mut out: Vec<WordPattern> = Vec::new();
    let mut p: usize = offset + 1;
    let mut k: usize = 0;
    while k < n
        invariant
            offset < dic@.len(),
            n == dic@[offset as int],
            k <= n,
            p <= dic@.len(),
            match patterns_at(dic@, offset as int) {
                None => patterns_from(dic@, p as int, (n - k) as nat) is None,
                Some(ps) => patterns_from(dic@, p as int, (n - k) as nat) matches Some(rest) && ps
                    == out@.map_values(|w: WordPattern| pattern_view(w)) + rest,
            },
        decreases n - k,
    {
        let ghost before = out@.map_values(|w: WordPattern| pattern_view(w));
        match parse_pattern(dic, p) {
            None => {
                return Err(DictError::new("record exceeds file size", p));
            },
            Some((w, q)) => {
                proof {
                    lemma_pattern_at_grows(dic@, p as int);
                }
                out.push(w);
                proof {
                    assert(out@.map_values(|w: WordPattern| pattern_view(w)) =~= before.push(pattern_view(w)));
                    let rest = patterns_from(dic@, q as int, (n - k - 1) as nat);
                    if rest is Some {
                        assert(seq![pattern_view(w)] + rest->0 =~= seq![pattern_view(w)].add(rest->0));
                        assert(before + (seq![pattern_view(w)] + rest->0) =~= before.push(pattern_view(w)) + rest->0);
                    }
                }
                p = q;
            },
        }
        k = k + 1;
    }
    proof {
        if patterns_at(dic@, offset as int) is Some {
            let ps = patterns_at(dic@, offset as int)->0;
            assert(ps == out@.map_values(|w: WordPattern| pattern_view(w)) + Seq::<(u32, Seq<Seq<u8>>, Seq<u8>)>::empty());
            assert(out@.map_values(|w: WordPattern| pattern_view(w)) + Seq::<(u32, Seq<Seq<u8>>, Seq<u8>)>::empty()
                =~= out@.map_values(|w: WordPattern| pattern_view(w)));
        }
    }
    Ok(out)
}

/// The word trigram dictionary: the tree over the word keys, the pattern-file offset of
/// each key, and the patterns read there.
#[derive(Debug)]
pub struct WordTriGram<'a> {
    pub aptree: Aptree<'a>,
    pub dic_offsets: Vec<u32>,
    pub patterns: Vec<Vec<WordPattern>>,
}

/// The tree parses and every key's pattern record parses.
pub open spec fn wordtri_ok(bin: Seq<u8>, dic: Seq<u8>) -> bool {
    aptree_ok(bin, 12, false) && forall|i: int|
        0 <= i < le32(bin, 0) ==> #[trigger] patterns_at(dic, ap_info(bin, 12, false, i).value as int) is Some
}

/// Parses the word trigram tree and the pattern record of each of its keys.
pub fn parse<'a>(bin: &'a [u8], dic: &'a [u8]) -> (r: DictResult<WordTriGram<'a>>)
    ensures
        r is Ok <==> wordtri_ok(bin@, dic@),
        r matches Ok(w) ==> aptree_matches(w.aptree, bin@, 12, false) && w.dic_offsets@.len()
            == w.aptree.info@.len() && w.patterns@.len() == w.aptree.info@.len() && forall|i: int|
            0 <= i < w.aptree.info@.len() ==> #[trigger] w.dic_offsets@[i] == w.aptree.info@[i].value && Some(
                w.patterns@[i]@.map_values(|p: WordPattern| pattern_view(p)),
            ) == patterns_at(dic@, w.aptree.info@[i].value as int),
{
    let aptree = match parse_aptree(bin, 12, false) {
        Ok(t) => t,
        Err(e) => {
            return Err(e);
        },
    };
    let n = aptree.info.len();
    let mut dic_offsets: Vec<u32> = Vec::new();
    let mut patterns: Vec<Vec<WordPattern>> = Vec::new();
    let mut i: usize = 0;
    while i < n
        invariant
            n == aptree.info@.len(),
            aptree_matches(aptree, bin@, 12, false),
            aptree_ok(bin@, 12, false),
            i <= n,
            dic_offsets@.len() == i,
            patterns@.len() == i,
            forall|j: int|
                0 <= j < i ==> #[trigger] dic_offsets@[j] == aptree.info@[j].value && Some(
                    patterns@[j]@.map_values(|p: WordPattern| pattern_view(p)),
                ) == patterns_at(dic@, aptree.info@[j].value as int),
        decreases n - i,
    {
        let o = aptree.info[i].value;
        let ps = match parse_patterns(dic, o as usize) {
            Ok(ps) => ps,
            Err(e) => {
                proof {
                    assert(aptree.info@[i as int] == ap_info(bin@, 12, false, i as int));
                }
                return Err(e);
            },
        };
        dic_offsets.push(o);
        patterns.push(ps);
        i = i + 1;
    }
    proof {
        assert(aptree.info@.len() == le32(bin@, 0));
        assert forall|j: int| 0 <= j < le32(bin@, 0) implies #[trigger] patterns_at(dic@, ap_info(bin@, 12, false, j).value as int) is Some by {
            assert(aptree.info@[j] == ap_info(bin@, 12, false, j));
            assert(dic_offsets@[j] == aptree.info@[j].value);
        }
    }
    Ok(WordTriGram { aptree, dic_offsets, patterns })
}

impl<'a> CharGram<'a> {
    /// The value of `key`, where the search ends at an entry holding exactly `key`: the bit
    /// pattern of its single-precision probability.
    pub fn lookup_bits(&self, key: &[u16]) -> (r: Option<u32>)
        requires
            wide_lookup_defined(self.aptree, key@),
        ensures
            match search_value(self.aptree.nodes@, self.aptree.n_tree as int, Seq::empty(), key@, true) {
                Some(i) => if wide_key(self.aptree.keys@, self.aptree.info@[i as int].key_offset as int)
                    == units_le(key@) {
                    r == Some(self.aptree.info@[i as int].value)
                } else {
                    r is None
                },
                None => r is None,
            },
    {
        match self.aptree.search_w(key) {
            Some(i) => {
                let k = self.aptree.key_w_at(i);
                let kb = u16_slice_bytes(key);
                if bytes_eq(k, kb.as_slice()) {
                    Some(self.aptree.info[i].value)
                } else {
                    None
                }
            },
            None => None,
        }
    }
}

/// The byte key at offset `off` of the key array: up to the next NUL or the end.
pub open spec fn byte_key(keys: Seq<u8>, off: int) -> Seq<u8> {
    keys.subrange(
        off,
        match first_zero_from(keys, off) {
            Some(k) => off + k,
            None => keys.len() as int,
        },
    )
}

/// A byte-key search ends at a leaf whose info entry exists and whose key offset lies in
/// the key array.
pub open spec fn byte_lookup_defined(t: Aptree, key: Seq<u8>) -> bool {
    &&& search_ends(t.nodes@, t.n_tree as int, key, Seq::empty(), false)
    &&& search_value(t.nodes@, t.n_tree as int, key, Seq::empty(), false) matches Some(i) ==> i
        < t.info@.len() && t.info@[i as int].key_offset <= t.keys@.len()
}

impl<'a> WordTriGram<'a> {
    /// The info index of `key`, where the search ends at an entry holding exactly `key`.
    pub fn lookup(&self, key: &[u8]) -> (r: Option<usize>)
        requires
            byte_lookup_defined(self.aptree, key@),
        ensures
            match search_value(self.aptree.nodes@, self.aptree.n_tree as int, key@, Seq::empty(), false) {
                Some(i) => if byte_key(self.aptree.keys@, self.aptree.info@[i as int].key_offset as int) == key@ {
                    r == Some(i as usize)
                } else {
                    r is None
                },
                None => r is None,
            },
    {
        match self.aptree.search(key) {
            Some(i) => {
                let k = self.aptree.key_at(i);
                if bytes_eq(k, key) {
                    Some(i)
                } else {
                    None
                }
            },
            None => None,
        }
    }
}

} // verus!
