//! Section dictionaries: a header, a key pool, an optional value pool, a record table
//! and a PATRICIA-style search tree.
use vstd::prelude::*;
use crate::common::{DictError, DictResult, le32, signed32, get_le32, to_i32, copy_range, first_zero_from, zero_pair_from, find_zero, find_zero_pair, slice_range, le_units, bytes_to_units};
use crate::text::{lossy_text, utf16_decode, utf8_lossy, utf16_lossy};

verus! {

#[derive(Debug, Clone, Copy, PartialEq, Eq, Structural)]
pub enum PoolUnit {
    Bytes,
    U16,
}

#[derive(Debug, Clone, Copy, PartialEq, Eq, Structural)]
pub enum RecordValue {
    PoolRef(u32),
    Code(u8),
    Empty,
}

#[derive(Debug, Clone, Copy, PartialEq, Eq, Structural)]
pub struct Record {
    pub key_ref: u32,
    pub value: RecordValue,
    pub next: i32,
}

#[derive(Debug, Clone, Copy, PartialEq, Eq, Structural)]
pub struct TreeNode {
    pub value: u32,
    pub left: i32,
    pub right: i32,
}

#[derive(Debug, Clone)]
pub struct SectionDict {
    pub header: Vec<u32>,
    pub key_pool: Vec<u8>,
    pub value_pool: Vec<u8>,
    pub key_unit: PoolUnit,
    pub value_unit: PoolUnit,
    pub records: Vec<Record>,
    pub tree: Vec<TreeNode>,
    pub tree_before_records: bool,
}

/// How a particular section file is laid out.
#[derive(Debug, Clone, Copy)]
pub struct SectionLayout {
    pub n_header: usize,
    pub key_unit: PoolUnit,
    pub value_unit: PoolUnit,
    pub has_value_pool: bool,
    pub tree_before_records: bool,
    pub validate_tree_ptrs: bool,
}

/// Size in bytes of one pool unit.
pub open spec fn unit_len(u: PoolUnit) -> int {
    match u {
        PoolUnit::Bytes => 1,
        PoolUnit::U16 => 2,
    }
}

/// The header has the three counts, and the value pool's length where there is one.
pub open spec fn layout_wf(l: SectionLayout) -> bool {
    3 <= l.n_header && (l.has_value_pool ==> l.n_header >= 4)
}

/// The `i`-th header word.
pub open spec fn hdr(d: Seq<u8>, i: int) -> int {
    le32(d, 4 * i)
}

pub open spec fn n_records(d: Seq<u8>) -> int {
    hdr(d, 0)
}

pub open spec fn n_nodes(d: Seq<u8>) -> int {
    hdr(d, 1)
}

pub open spec fn key_pool_len(d: Seq<u8>, l: SectionLayout) -> int {
    hdr(d, 2) * unit_len(l.key_unit)
}

pub open spec fn value_pool_len(d: Seq<u8>, l: SectionLayout) -> int {
    if l.has_value_pool {
        hdr(d, 3) * unit_len(l.value_unit)
    } else {
        0
    }
}

pub open spec fn pools_end(d: Seq<u8>, l: SectionLayout) -> int {
    4 * l.n_header + key_pool_len(d, l) + value_pool_len(d, l)
}

pub open spec fn records_off(d: Seq<u8>, l: SectionLayout) -> int {
    if l.tree_before_records {
        pools_end(d, l) + 12 * n_nodes(d)
    } else {
        pools_end(d, l)
    }
}

pub open spec fn tree_off(d: Seq<u8>, l: SectionLayout) -> int {
    if l.tree_before_records {
        pools_end(d, l)
    } else {
        pools_end(d, l) + 12 * n_records(d)
    }
}

pub open spec fn expected_len(d: Seq<u8>, l: SectionLayout) -> int {
    pools_end(d, l) + 12 * n_records(d) + 12 * n_nodes(d)
}

pub open spec fn record_at(d: Seq<u8>, l: SectionLayout, i: int) -> int {
    records_off(d, l) + 12 * i
}

pub open spec fn node_at(d: Seq<u8>, l: SectionLayout, i: int) -> int {
    tree_off(d, l) + 12 * i
}

/// A record is accepted when its padding is intact and its key lies inside the key pool.
pub open spec fn record_ok(d: Seq<u8>, l: SectionLayout, i: int) -> bool {
    let a = record_at(d, l, i);
    &&& !l.has_value_pool ==> (d[a + 5] == 0xCD && d[a + 6] == 0xCD && d[a + 7] == 0xCD)
    &&& le32(d, a) * unit_len(l.key_unit) < key_pool_len(d, l)
}

pub open spec fn ptr_ok(p: int, ntree: int) -> bool {
    p == -1 || (0 <= p < ntree)
}

pub open spec fn node_ok(d: Seq<u8>, l: SectionLayout, i: int) -> bool {
    let a = node_at(d, l, i);
    l.validate_tree_ptrs ==> (ptr_ok(signed32(le32(d, a + 4)), n_nodes(d)) && ptr_ok(
        signed32(le32(d, a + 8)),
        n_nodes(d),
    ))
}

/// The conditions under which a section parses.
pub open spec fn section_ok(d: Seq<u8>, l: SectionLayout) -> bool {
    &&& d.len() >= 4 * l.n_header
    &&& expected_len(d, l) == d.len()
    &&& forall|i: int| 0 <= i < n_records(d) ==> #[trigger] record_ok(d, l, i)
    &&& forall|i: int| 0 <= i < n_nodes(d) ==> #[trigger] node_ok(d, l, i)
}

pub open spec fn spec_record(d: Seq<u8>, l: SectionLayout, i: int) -> Record {
    let a = record_at(d, l, i);
    Record {
        key_ref: le32(d, a) as u32,
        value: if l.has_value_pool {
            if le32(d, a + 4) == 0xFFFF_FFFF {
                RecordValue::Empty
            } else {
                RecordValue::PoolRef(le32(d, a + 4) as u32)
            }
        } else {
            RecordValue::Code(d[a + 4])
        },
        next: signed32(le32(d, a + 8)) as i32,
    }
}

pub open spec fn spec_node(d: Seq<u8>, l: SectionLayout, i: int) -> TreeNode {
    let a = node_at(d, l, i);
    TreeNode {
        value: le32(d, a) as u32,
        left: signed32(le32(d, a + 4)) as i32,
        right: signed32(le32(d, a + 8)) as i32,
    }
}

/// What a successfully parsed section holds.
pub open spec fn section_matches(s: SectionDict, d: Seq<u8>, l: SectionLayout) -> bool {
    &&& s.header@.len() == l.n_header
    &&& forall|i: int| 0 <= i < l.n_header ==> s.header@[i] as int == hdr(d, i)
    &&& s.key_pool@ == d.subrange(4 * l.n_header, 4 * l.n_header + key_pool_len(d, l))
    &&& s.value_pool@ == d.subrange(4 * l.n_header + key_pool_len(d, l), pools_end(d, l))
    &&& s.key_unit == l.key_unit
    &&& s.value_unit == l.value_unit
    &&& s.tree_before_records == l.tree_before_records
    &&& s.records@.len() == n_records(d)
    &&& forall|i: int| 0 <= i < n_records(d) ==> s.records@[i] == spec_record(d, l, i)
    &&& s.tree@.len() == n_nodes(d)
    &&& forall|i: int| 0 <= i < n_nodes(d) ==> s.tree@[i] == spec_node(d, l, i)
}

fn unit_size(u: PoolUnit) -> (r: usize)
    ensures
        r as int == unit_len(u),
{
    match u {
        PoolUnit::Bytes => 1,
        PoolUnit::U16 => 2,
    }
}

/// Parses a section file laid out as `l` describes.
pub fn parse_section(data: &[u8], l: SectionLayout) -> (r: DictResult<SectionDict>)
    requires
        layout_wf(l),
    ensures
        r is Ok <==> section_ok(data@, l),
        r matches Ok(s) ==> section_matches(s, data@, l),
{
    let ghost d = data@;
    let mut header: Vec<u32> = Vec::new();
    let mut i: usize = 0;
    while i < l.n_header
        invariant
            i <= l.n_header,
            layout_wf(l),
            header@.len() == i,
            forall|k: int| 0 <= k < i ==> header@[k] as int == hdr(d, k),
            4 * i <= d.len(),
            d == data@,
        decreases l.n_header - i,
    {
        if data.len() - 4 * i < 4 {
            return Err(DictError::new("u32 EOF", 4 * i));
        }
        header.push(get_le32(data, 4 * i));
        i = i + 1;
    }
    let num = header[0] as u128;
    let ntree = header[1] as u128;
    let key_bytes: u128 = if unit_size(l.key_unit) == 1 {
        header[2] as u128
    } else {
        (header[2] as u128) * 2
    };
    let value_bytes: u128 = if l.has_value_pool {
        if unit_size(l.value_unit) == 1 {
            header[3] as u128
        } else {
            (header[3] as u128) * 2
        }
    } else {
        0u128
    };
    let hb = 4 * (l.n_header as u128);
    let expected = hb + key_bytes + value_bytes + num * 12 + ntree * 12;
    if expected != data.len() as u128 {
        return Err(DictError::new("size mismatch", 0));
    }
    let n = data.len();
    let kb = key_bytes as usize;
    let vb = value_bytes as usize;
    let h = 4 * l.n_header;
    let key_pool = copy_range(data, h, h + kb);
    let value_pool = copy_range(data, h + kb, h + kb + vb);
    let after_pools = h + kb + vb;
    let num = num as usize;
    let ntree = ntree as usize;
    let recs_off = if l.tree_before_records {
        after_pools + ntree * 12
    } else {
        after_pools
    };
    let t_off = if l.tree_before_records {
        after_pools
    } else {
        after_pools + num * 12
    };
    let unit = unit_size(l.key_unit);
    let mut records: Vec<Record> = Vec::new();
    let mut i: usize = 0;
    while i < num
        invariant
            d == data@,
            n == d.len(),
            layout_wf(l),
            expected_len(d, l) == n,
            num == n_records(d),
            ntree == n_nodes(d),
            recs_off == records_off(d, l),
            kb == key_pool_len(d, l),
            key_pool@.len() == kb,
            unit as int == unit_len(l.key_unit),
            i <= num,
            records@.len() == i,
            forall|k: int| 0 <= k < i ==> records@[k] == spec_record(d, l, k),
            forall|k: int| 0 <= k < i ==> record_ok(d, l, k),
        decreases num - i,
    {
        let a = recs_off + 12 * i;
        assert(a + 12 <= n) by (nonlinear_arith)
            requires
                a == recs_off + 12 * i,
                i < num,
                recs_off + 12 * num <= n,
        ;
        let key_ref = get_le32(data, a);
        let value = if l.has_value_pool {
            let v = get_le32(data, a + 4);
            if v == 0xFFFF_FFFFu32 {
                RecordValue::Empty
            } else {
                RecordValue::PoolRef(v)
            }
        } else {
            if !(data[a + 5] == 0xCD && data[a + 6] == 0xCD && data[a + 7] == 0xCD) {
                proof {
                    assert(!record_ok(d, l, i as int));
                }
                return Err(DictError::new("abnormal padding after code", a));
            }
            RecordValue::Code(data[a + 4])
        };
        let next = to_i32(get_le32(data, a + 8));
        let kstart: u64 = if unit == 1 { key_ref as u64 } else { (key_ref as u64) * 2 };
        if kstart >= kb as u64 {
            proof {
                assert(!record_ok(d, l, i as int));
            }
            return Err(DictError::new("key_ref exceeds key pool", a));
        }
        records.push(Record { key_ref, value, next });
        proof {
            assert(record_ok(d, l, i as int));
        }
        i = i + 1;
    }
    let mut tree: Vec<TreeNode> = Vec::new();
    let mut i: usize = 0;
    while i < ntree
        invariant
            d == data@,
            n == d.len(),
            layout_wf(l),
            expected_len(d, l) == n,
            num == n_records(d),
            ntree == n_nodes(d),
            t_off == tree_off(d, l),
            i <= ntree,
            tree@.len() == i,
            forall|k: int| 0 <= k < i ==> tree@[k] == spec_node(d, l, k),
            forall|k: int| 0 <= k < i ==> node_ok(d, l, k),
        decreases ntree - i,
    {
        let a = t_off + 12 * i;
        assert(a + 12 <= n) by (nonlinear_arith)
            requires
                a == t_off + 12 * i,
                i < ntree,
                t_off + 12 * ntree <= n,
        ;
        let value = get_le32(data, a);
        let left = to_i32(get_le32(data, a + 4));
        let right = to_i32(get_le32(data, a + 8));
        if l.validate_tree_ptrs {
            if left != -1 && (left < 0 || left as u64 >= ntree as u64) {
                proof {
                    assert(!node_ok(d, l, i as int));
                }
                return Err(DictError::new("tree node left out of range", a));
            }
            if right != -1 && (right < 0 || right as u64 >= ntree as u64) {
                proof {
                    assert(!node_ok(d, l, i as int));
                }
                return Err(DictError::new("tree node right out of range", a));
            }
        }
        tree.push(TreeNode { value, left, right });
        proof {
            assert(node_ok(d, l, i as int));
        }
        i = i + 1;
    }
    let s = SectionDict {
        header,
        key_pool,
        value_pool,
        key_unit: l.key_unit,
        value_unit: l.value_unit,
        records,
        tree,
        tree_before_records: l.tree_before_records,
    };
    Ok(s)
}


/// The string stored at `start` in a pool: up to a zero byte for byte pools, up to an
/// aligned zero unit for `u16` pools. `None` when the start is past the end or no
/// terminator follows.
pub open spec fn pool_str(pool: Seq<u8>, start: int, unit: PoolUnit) -> Option<Seq<u8>> {
    if start > pool.len() {
        None
    } else {
        match unit {
            PoolUnit::Bytes => match first_zero_from(pool, start) {
                Some(k) => Some(pool.subrange(start, start + k)),
                None => None,
            },
            PoolUnit::U16 => match zero_pair_from(pool, start) {
                Some(e) => Some(pool.subrange(start, e)),
                None => None,
            },
        }
    }
}

/// Text of pool bytes: UTF-16 for `u16` pools, UTF-8 (see `lossy_text`) for byte pools.
pub open spec fn pool_text(b: Seq<u8>, unit: PoolUnit) -> Seq<char> {
    match unit {
        PoolUnit::U16 => utf16_decode(le_units(b)),
        PoolUnit::Bytes => lossy_text(b),
    }
}

/// The key bytes of record `rec`.
pub open spec fn spec_key_bytes(s: SectionDict, rec: int) -> Option<Seq<u8>> {
    if 0 <= rec < s.records@.len() {
        pool_str(s.key_pool@, s.records@[rec].key_ref * unit_len(s.key_unit), s.key_unit)
    } else {
        None
    }
}

/// The value bytes of record `rec`, when it refers to the value pool.
pub open spec fn spec_value_bytes(s: SectionDict, rec: int) -> Option<Seq<u8>> {
    if 0 <= rec < s.records@.len() {
        match s.records@[rec].value {
            RecordValue::PoolRef(v) => pool_str(s.value_pool@, v * unit_len(s.value_unit), s.value_unit),
            _ => None,
        }
    } else {
        None
    }
}

/// Finds the string stored at `start * unit` in `pool`.
fn zstr_slice<'b>(pool: &'b [u8], st: usize) -> (r: Option<&'b [u8]>)
    requires
        st <= pool@.len(),
    ensures
        match first_zero_from(pool@, st as int) {
            Some(k) => r is Some && r->0@ == pool@.subrange(st as int, st + k),
            None => r is None,
        },
{
    match find_zero(pool, st) {
        Some(k) => Some(slice_range(pool, st, k)),
        None => None,
    }
}

fn wstr_slice<'b>(pool: &'b [u8], st: usize) -> (r: Option<&'b [u8]>)
    requires
        st <= pool@.len(),
    ensures
        match zero_pair_from(pool@, st as int) {
            Some(e) => r is Some && r->0@ == pool@.subrange(st as int, e),
            None => r is None,
        },
{
    let n = pool.len();
    let f = find_zero_pair(pool, st);
    match f {
        Some(e) => {
            proof {
                let z = zero_pair_from(pool@, st as int);
                assert(z is Some);
                assert(z->0 == e);
            }
            Some(slice_range(pool, st, e))
        },
        None => None,
    }
}

fn pool_slice<'b>(pool: &'b [u8], start: u32, unit: PoolUnit) -> (r: Option<&'b [u8]>)
    ensures
        match pool_str(pool@, start * unit_len(unit), unit) {
            Some(b) => r is Some && r->0@ == b,
            None => r is None,
        },
{
    match unit {
        PoolUnit::Bytes => {
            let st = start as u64;
            assert(st == start * unit_len(unit));
            if st > pool.len() as u64 {
                return None;
            }
            zstr_slice(pool, st as usize)
        },
        PoolUnit::U16 => {
            let st = (start as u64) * 2;
            assert(st == start * unit_len(unit));
            if st > pool.len() as u64 {
                return None;
            }
            wstr_slice(pool, st as usize)
        },
    }
}

fn pool_string(b: &[u8], unit: PoolUnit) -> (r: String)
    ensures
        r@ == pool_text(b@, unit),
{
    match unit {
        PoolUnit::U16 => {
            let units = bytes_to_units(b);
            utf16_lossy(units.as_slice())
        },
        PoolUnit::Bytes => utf8_lossy(b),
    }
}

impl SectionDict {
    pub fn num_records(&self) -> (n: usize)
        ensures
            n == self.records@.len(),
    {
        self.records.len()
    }

    pub fn num_tree_nodes(&self) -> (n: usize)
        ensures
            n == self.tree@.len(),
    {
        self.tree.len()
    }

    /// Index of the tree root, the last node (0 for an empty tree).
    pub fn root_index(&self) -> (n: usize)
        ensures
            n == if self.tree@.len() == 0 {
                0
            } else {
                self.tree@.len() - 1
            },
    {
        if self.tree.len() == 0 {
            0
        } else {
            self.tree.len() - 1
        }
    }

    pub fn key_pool_bytes(&self) -> (n: usize)
        ensures
            n == self.key_pool@.len(),
    {
        self.key_pool.len()
    }

    /// The raw key of record `rec`, without its terminator.
    pub fn key_bytes(&self, rec: usize) -> (r: Option<&[u8]>)
        ensures
            match spec_key_bytes(*self, rec as int) {
                Some(b) => r is Some && r->0@ == b,
                None => r is None,
            },
    {
        if rec >= self.records.len() {
            return None;
        }
        pool_slice(self.key_pool.as_slice(), self.records[rec].key_ref, self.key_unit)
    }

    /// The key of record `rec` as text.
    pub fn key_string(&self, rec: usize) -> (r: Option<String>)
        ensures
            match spec_key_bytes(*self, rec as int) {
                Some(b) => r is Some && r->0@ == pool_text(b, self.key_unit),
                None => r is None,
            },
    {
        match self.key_bytes(rec) {
            Some(b) => Some(pool_string(b, self.key_unit)),
            None => None,
        }
    }

    /// The value of record `rec` as text, when the record refers to the value pool.
    pub fn value_string(&self, rec: usize) -> (r: Option<String>)
        ensures
            match spec_value_bytes(*self, rec as int) {
                Some(b) => r is Some && r->0@ == pool_text(b, self.value_unit),
                None => r is None,
            },
    {
        if rec >= self.records.len() {
            return None;
        }
        match self.records[rec].value {
            RecordValue::PoolRef(v) => match pool_slice(self.value_pool.as_slice(), v, self.value_unit) {
                Some(b) => Some(pool_string(b, self.value_unit)),
                None => None,
            },
            _ => None,
        }
    }

    /// The code of record `rec`, when the record holds one.
    pub fn code(&self, rec: usize) -> (r: Option<u8>)
        ensures
            r == if rec < self.records@.len() {
                match self.records@[rec as int].value {
                    RecordValue::Code(c) => Some(c),
                    _ => None,
                }
            } else {
                None::<u8>
            },
    {
        if rec >= self.records.len() {
            return None;
        }
        match self.records[rec].value {
            RecordValue::Code(c) => Some(c),
            _ => None,
        }
    }
}

pub open spec fn strpron_layout() -> SectionLayout {
    SectionLayout { n_header: 4, key_unit: PoolUnit::U16, value_unit: PoolUnit::Bytes, has_value_pool: true, tree_before_records: false, validate_tree_ptrs: true }
}

pub open spec fn prepron_layout() -> SectionLayout {
    SectionLayout { n_header: 3, key_unit: PoolUnit::U16, value_unit: PoolUnit::Bytes, has_value_pool: false, tree_before_records: false, validate_tree_ptrs: true }
}

pub open spec fn morphmodify_layout() -> SectionLayout {
    SectionLayout { n_header: 3, key_unit: PoolUnit::Bytes, value_unit: PoolUnit::Bytes, has_value_pool: false, tree_before_records: false, validate_tree_ptrs: true }
}

pub open spec fn unienglishpron_layout() -> SectionLayout {
    SectionLayout { n_header: 4, key_unit: PoolUnit::Bytes, value_unit: PoolUnit::Bytes, has_value_pool: true, tree_before_records: false, validate_tree_ptrs: true }
}

pub open spec fn user_layout() -> SectionLayout {
    SectionLayout { n_header: 4, key_unit: PoolUnit::U16, value_unit: PoolUnit::U16, has_value_pool: true, tree_before_records: true, validate_tree_ptrs: false }
}

/// Parses the `strpron` section dictionary.
pub fn parse_strpron(data: &[u8]) -> (r: DictResult<SectionDict>)
    ensures
        r is Ok <==> section_ok(data@, strpron_layout()),
        r matches Ok(s) ==> section_matches(s, data@, strpron_layout()),
{
    parse_section(data, SectionLayout { n_header: 4, key_unit: PoolUnit::U16, value_unit: PoolUnit::Bytes, has_value_pool: true, tree_before_records: false, validate_tree_ptrs: true })
}

/// Parses the `prepron` section dictionary.
pub fn parse_prepron(data: &[u8]) -> (r: DictResult<SectionDict>)
    ensures
        r is Ok <==> section_ok(data@, prepron_layout()),
        r matches Ok(s) ==> section_matches(s, data@, prepron_layout()),
{
    parse_section(data, SectionLayout { n_header: 3, key_unit: PoolUnit::U16, value_unit: PoolUnit::Bytes, has_value_pool: false, tree_before_records: false, validate_tree_ptrs: true })
}

/// Parses the `unipron` section dictionary (laid out as `strpron`).
pub fn parse_unipron(data: &[u8]) -> (r: DictResult<SectionDict>)
    ensures
        r is Ok <==> section_ok(data@, strpron_layout()),
        r matches Ok(s) ==> section_matches(s, data@, strpron_layout()),
{
    parse_section(data, SectionLayout { n_header: 4, key_unit: PoolUnit::U16, value_unit: PoolUnit::Bytes, has_value_pool: true, tree_before_records: false, validate_tree_ptrs: true })
}

/// Parses the `morphmodify` section dictionary.
pub fn parse_morphmodify(data: &[u8]) -> (r: DictResult<SectionDict>)
    ensures
        r is Ok <==> section_ok(data@, morphmodify_layout()),
        r matches Ok(s) ==> section_matches(s, data@, morphmodify_layout()),
{
    parse_section(data, SectionLayout { n_header: 3, key_unit: PoolUnit::Bytes, value_unit: PoolUnit::Bytes, has_value_pool: false, tree_before_records: false, validate_tree_ptrs: true })
}

/// Parses the `unienglishpron` section dictionary.
pub fn parse_unienglishpron(data: &[u8]) -> (r: DictResult<SectionDict>)
    ensures
        r is Ok <==> section_ok(data@, unienglishpron_layout()),
        r matches Ok(s) ==> section_matches(s, data@, unienglishpron_layout()),
{
    parse_section(data, SectionLayout { n_header: 4, key_unit: PoolUnit::Bytes, value_unit: PoolUnit::Bytes, has_value_pool: true, tree_before_records: false, validate_tree_ptrs: true })
}

/// Parses the `engsym` section dictionary (laid out as `morphmodify`).
pub fn parse_engsym(data: &[u8]) -> (r: DictResult<SectionDict>)
    ensures
        r is Ok <==> section_ok(data@, morphmodify_layout()),
        r matches Ok(s) ==> section_matches(s, data@, morphmodify_layout()),
{
    parse_section(data, SectionLayout { n_header: 3, key_unit: PoolUnit::Bytes, value_unit: PoolUnit::Bytes, has_value_pool: false, tree_before_records: false, validate_tree_ptrs: true })
}

/// Parses the `user` section dictionary.
pub fn parse_user(data: &[u8]) -> (r: DictResult<SectionDict>)
    ensures
        r is Ok <==> section_ok(data@, user_layout()),
        r matches Ok(s) ==> section_matches(s, data@, user_layout()),
{
    parse_section(data, SectionLayout { n_header: 4, key_unit: PoolUnit::U16, value_unit: PoolUnit::U16, has_value_pool: true, tree_before_records: true, validate_tree_ptrs: false })
}

} // verus!
