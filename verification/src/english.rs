//! The English pronunciation dictionary: a table of length-prefixed pronunciations, a
//! hashed dictionary of word blocks that point into it, and the bucket table of the hash.
use vstd::prelude::*;
use crate::common::{DictError, DictResult, le32, get_le32, hash31_signed, hash31_exec, first_zero_from, find_zero, slice_range, copy_range, bytes_eq};
use crate::birule::{words_at, read_words};

verus! {

/// Number of buckets of the English hash.
pub const ENG_BUCKETS: u32 = 16127;

/// Entry starts of the pronunciation table, walking from `p` to the end of the data: each
/// entry is a length byte followed by that many bytes.
pub open spec fn pt_chain(d: Seq<u8>, p: int) -> Option<Seq<int>>
    decreases d.len() - p,
{
    if p < 0 || p > d.len() {
        None
    } else if p == d.len() {
        Some(Seq::empty())
    } else if p + 1 + d[p] > d.len() {
        None
    } else {
        match pt_chain(d, p + 1 + d[p]) {
            Some(rest) => Some(seq![p] + rest),
            None => None,
        }
    }
}

proof fn lemma_pt_chain_bounds(d: Seq<u8>, p: int)
    requires
        pt_chain(d, p) is Some,
    ensures
        forall|k: int|
            0 <= k < pt_chain(d, p)->0.len() ==> p <= #[trigger] pt_chain(d, p)->0[k] < d.len(),
        forall|a: int, b: int|
            0 <= a < b < pt_chain(d, p)->0.len() ==> pt_chain(d, p)->0[a] < pt_chain(d, p)->0[b],
    decreases d.len() - p,
{
    if p < d.len() {
        lemma_pt_chain_bounds(d, p + 1 + d[p]);
    }
}

/// The pronunciation table.
#[derive(Debug)]
pub struct PronTable {
    data: Vec<u8>,
    entries: Vec<(u32, u8)>,
}

impl PronTable {
    /// The raw table bytes.
    pub closed spec fn spec_data(&self) -> Seq<u8> {
        self.data@
    }

    /// (offset, length) of each entry, in the order of the data.
    pub closed spec fn spec_entries(&self) -> Seq<(u32, u8)> {
        self.entries@
    }

    #[verifier::type_invariant]
    closed spec fn offsets_increase(&self) -> bool {
        forall|a: int, b: int|
            0 <= a < b < self.entries@.len() ==> (#[trigger] self.entries@[a]).0 < (
            #[trigger] self.entries@[b]).0
    }

    /// Number of entries.
    pub fn len(&self) -> (n: usize)
        ensures
            n == self.spec_entries().len(),
    {
        self.entries.len()
    }

    /// Whether the table has no entries.
    pub fn is_empty(&self) -> (b: bool)
        ensures
            b <==> self.spec_entries().len() == 0,
    {
        self.entries.len() == 0
    }

    /// The bytes of entry `i`.
    pub fn pron(&self, i: usize) -> (r: Option<&[u8]>)
        ensures
            r is Some <==> pt_pron_fits(self.spec_data(), self.spec_entries(), i as int),
            r matches Some(x) ==> x@ == pt_pron(self.spec_data(), self.spec_entries(), i as int),
    {
        if i >= self.entries.len() {
            return None;
        }
        let (off, len) = self.entries[i];
        let s = off as usize;
        if s >= self.data.len() || (len as usize) > self.data.len() - s - 1 {
            return None;
        }
        Some(slice_range(self.data.as_slice(), s + 1, s + 1 + len as usize))
    }

    /// Index of the entry starting at `off`.
    pub fn index_of(&self, off: u32) -> (r: Option<usize>)
        ensures
            r matches Some(i) ==> i < self.spec_entries().len() && self.spec_entries()[i as int].0
                == off,
            r is None ==> forall|i: int|
                0 <= i < self.spec_entries().len() ==> (#[trigger] self.spec_entries()[i]).0 != off,
    {
        proof {
            use_type_invariant(self);
        }
        let mut lo: usize = 0;
        let mut hi: usize = self.entries.len();
        while lo < hi
            invariant
                0 <= lo <= hi <= self.entries@.len(),
                forall|a: int, b: int|
                    0 <= a < b < self.entries@.len() ==> (#[trigger] self.entries@[a]).0 < (
                    #[trigger] self.entries@[b]).0,
                forall|i: int| 0 <= i < lo ==> (#[trigger] self.entries@[i]).0 < off,
                forall|i: int| hi <= i < self.entries@.len() ==> (#[trigger] self.entries@[i]).0 > off,
            decreases hi - lo,
        {
            let mid = lo + (hi - lo) / 2;
            let k = self.entries[mid].0;
            if k == off {
                return Some(mid);
            } else if k < off {
                proof {
                    assert forall|i: int| 0 <= i < mid + 1 implies (#[trigger] self.entries@[i]).0 < off by {
                        if i < mid {
                            assert(self.entries@[i].0 < self.entries@[mid as int].0);
                        }
                    }
                }
                lo = mid + 1;
            } else {
                proof {
                    assert forall|i: int| mid <= i < self.entries@.len() implies (#[trigger] self.entries@[i]).0 > off by {
                        if i > mid {
                            assert(self.entries@[mid as int].0 < self.entries@[i].0);
                        }
                    }
                }
                hi = mid;
            }
        }
        None
    }
}

/// Entry `i` lies inside the table data.
pub open spec fn pt_pron_fits(d: Seq<u8>, e: Seq<(u32, u8)>, i: int) -> bool {
    0 <= i < e.len() && e[i].0 + 1 + e[i].1 <= d.len()
}

/// The bytes of entry `i`.
pub open spec fn pt_pron(d: Seq<u8>, e: Seq<(u32, u8)>, i: int) -> Seq<u8> {
    d.subrange(e[i].0 + 1, e[i].0 + 1 + e[i].1)
}

/// Parses the pronunciation table: length-prefixed entries that fill the data exactly.
pub fn parse_pron_table(data: &[u8]) -> (r: DictResult<PronTable>)
    requires
        data@.len() <= u32::MAX + 1,
    ensures
        r is Ok <==> pt_chain(data@, 0) is Some,
        r matches Ok(t) ==> t.spec_data() == data@ && t.spec_entries() == pt_chain(data@, 0)->0.map_values(
            |p: int| (p as u32, data@[p]),
        ),
{
    let ghost d = data@;
    let dlen = data.len();
    let mut entries: Vec<(u32, u8)> = Vec::new();
    let ghost mut starts: Seq<int> = Seq::empty();
    let mut pos: usize = 0;
    while pos < dlen
        invariant
            d == data@,
            dlen == d.len(),
            dlen <= u32::MAX + 1,
            pos <= dlen,
            pt_chain(d, 0) == match pt_chain(d, pos as int) {
                Some(rest) => Some(starts + rest),
                None => None::<Seq<int>>,
            },
            forall|k: int| 0 <= k < starts.len() ==> 0 <= #[trigger] starts[k] < pos,
            forall|a: int, b: int| 0 <= a < b < starts.len() ==> starts[a] < starts[b],
            entries@ == starts.map_values(|p: int| (p as u32, d[p])),
        decreases dlen - pos,
    {
        let len = data[pos];
        if dlen - pos - 1 < len as usize {
            return Err(DictError::new("pron entry length beyond EOF", pos));
        }
        let ghost old_starts = starts;
        entries.push((pos as u32, len));
        proof {
            starts = starts.push(pos as int);
            match pt_chain(d, pos + 1 + len) {
                Some(rest) => {
                    assert(old_starts + (seq![pos as int] + rest) =~= starts + rest);
                },
                None => {},
            }
            assert(entries@ =~= starts.map_values(|p: int| (p as u32, d[p])));
        }
        pos = pos + 1 + len as usize;
    }
    proof {
        assert(starts + Seq::<int>::empty() =~= starts);
    }
    let t = PronTable { data: copy_range(data, 0, dlen), entries };
    proof {
        assert(data@.subrange(0, dlen as int) =~= data@);
    }
    Ok(t)
}

/// Word count of the block at `p`.
pub open spec fn hd_cnt(d: Seq<u8>, p: int) -> int {
    d[p] as int
}

/// Size of the string section of the block at `p`.
pub open spec fn hd_tot(d: Seq<u8>, p: int) -> int {
    d[p + 1] as int
}

/// Start of the string section.
pub open spec fn hd_strs(d: Seq<u8>, p: int) -> int {
    p + 2 + hd_cnt(d, p)
}

/// End of the string section, where the pronunciation offsets start.
pub open spec fn hd_tail(d: Seq<u8>, p: int) -> int {
    hd_strs(d, p) + hd_tot(d, p)
}

/// End of the block.
pub open spec fn hd_end(d: Seq<u8>, p: int) -> int {
    hd_tail(d, p) + 4 * hd_cnt(d, p)
}

/// Offset of word `i` inside the string section.
pub open spec fn hd_off(d: Seq<u8>, p: int, i: int) -> int {
    d[p + 2 + i] as int
}

/// Start of word `i`.
pub open spec fn hd_word_start(d: Seq<u8>, p: int, i: int) -> int {
    hd_strs(d, p) + hd_off(d, p, i)
}

/// Length of word `i`: up to the first NUL of the string section after its start.
pub open spec fn hd_word_len(d: Seq<u8>, p: int, i: int) -> Option<int> {
    first_zero_from(d.subrange(0, hd_tail(d, p)), hd_word_start(d, p, i))
}

/// Word `i` of the block at `p`.
pub open spec fn hd_word(d: Seq<u8>, p: int, i: int) -> Seq<u8> {
    d.subrange(hd_word_start(d, p, i), hd_word_start(d, p, i) + hd_word_len(d, p, i)->0)
}

/// The block at `p` fits, its word offsets start at zero, never decrease and stay inside
/// the string section, and every word is non-empty and NUL-terminated there.
pub open spec fn hd_block_ok(d: Seq<u8>, p: int) -> bool {
    &&& 0 <= p
    &&& p + 2 <= d.len()
    &&& hd_end(d, p) <= d.len()
    &&& hd_cnt(d, p) > 0 ==> hd_off(d, p, 0) == 0
    &&& forall|a: int, b: int|
        0 <= a <= b < hd_cnt(d, p) ==> #[trigger] hd_off(d, p, a) <= #[trigger] hd_off(d, p, b)
    &&& forall|i: int| 0 <= i < hd_cnt(d, p) ==> #[trigger] hd_off(d, p, i) < hd_tot(d, p)
    &&& forall|i: int|
        0 <= i < hd_cnt(d, p) ==> ((#[trigger] hd_word_len(d, p, i)) matches Some(k) && k > 0)
}

/// Block starts, walking from `p` to the end of the data.
pub open spec fn hd_chain(d: Seq<u8>, p: int) -> Option<Seq<int>>
    decreases d.len() - p,
{
    if p < 0 || p > d.len() {
        None
    } else if p == d.len() {
        Some(Seq::empty())
    } else if !hd_block_ok(d, p) {
        None
    } else {
        match hd_chain(d, hd_end(d, p)) {
            Some(rest) => Some(seq![p] + rest),
            None => None,
        }
    }
}

/// One block of the hashed dictionary.
#[derive(Debug, Clone, PartialEq, Eq)]
pub struct Block {
    pub offset: usize,
    pub count: u8,
    pub words: Vec<Vec<u8>>,
    pub pron_offsets: Vec<u32>,
}

/// The block `b` is what the data holds at `p`.
pub open spec fn block_matches(b: Block, d: Seq<u8>, p: int) -> bool {
    &&& b.offset == p
    &&& b.count == d[p]
    &&& b.words@.len() == hd_cnt(d, p)
    &&& forall|i: int| 0 <= i < hd_cnt(d, p) ==> (#[trigger] b.words@[i])@ == hd_word(d, p, i)
    &&& b.pron_offsets@ == words_at(d, hd_tail(d, p), hd_cnt(d, p))
}

/// The hashed dictionary: the raw data and its blocks.
#[derive(Debug, Clone)]
pub struct HashDic {
    data: Vec<u8>,
    pub blocks: Vec<Block>,
}

/// Sum of the word counts of the blocks.
pub open spec fn count_sum(bs: Seq<Block>) -> int
    decreases bs.len(),
{
    if bs.len() == 0 {
        0
    } else {
        count_sum(bs.drop_last()) + bs.last().count
    }
}

impl HashDic {
    /// The raw dictionary bytes.
    pub closed spec fn spec_data(&self) -> Seq<u8> {
        self.data@
    }

    /// The blocks.
    pub closed spec fn spec_blocks(&self) -> Seq<Block> {
        self.blocks@
    }

    /// Number of blocks.
    pub fn len(&self) -> (n: usize)
        ensures
            n == self.spec_blocks().len(),
    {
        self.blocks.len()
    }

    /// Whether there are no blocks.
    pub fn is_empty(&self) -> (b: bool)
        ensures
            b <==> self.spec_blocks().len() == 0,
    {
        self.blocks.len() == 0
    }

    /// Total number of words.
    pub fn word_count(&self) -> (n: usize)
        requires
            count_sum(self.spec_blocks()) <= usize::MAX,
        ensures
            n == count_sum(self.spec_blocks()),
    {
        let mut n: usize = 0;
        let mut i: usize = 0;
        while i < self.blocks.len()
            invariant
                i <= self.blocks@.len(),
                count_sum(self.blocks@) <= usize::MAX,
                n == count_sum(self.blocks@.subrange(0, i as int)),
            decreases self.blocks@.len() - i,
        {
            proof {
                lemma_count_sum_prefix(self.blocks@, i as int);
            }
            n = n + self.blocks[i].count as usize;
            i = i + 1;
        }
        proof {
            assert(self.blocks@.subrange(0, i as int) =~= self.blocks@);
        }
        n
    }
}

proof fn lemma_count_sum_mono(bs: Seq<Block>, k: int)
    requires
        0 <= k <= bs.len(),
    ensures
        count_sum(bs.subrange(0, k)) <= count_sum(bs),
    decreases bs.len(),
{
    if k < bs.len() {
        assert(bs.drop_last() =~= bs.subrange(0, bs.len() - 1));
        lemma_count_sum_mono(bs.drop_last(), k);
        assert(bs.drop_last().subrange(0, k) =~= bs.subrange(0, k));
    } else {
        assert(bs.subrange(0, k) =~= bs);
    }
}

proof fn lemma_count_sum_prefix(bs: Seq<Block>, i: int)
    requires
        0 <= i < bs.len(),
    ensures
        count_sum(bs.subrange(0, i + 1)) == count_sum(bs.subrange(0, i)) + bs[i].count,
        count_sum(bs.subrange(0, i + 1)) <= count_sum(bs),
{
    assert(bs.subrange(0, i + 1).drop_last() =~= bs.subrange(0, i));
    lemma_count_sum_mono(bs, i + 1);
}

fn parse_block(data: &[u8], pos: usize) -> (r: Option<Block>)
    requires
        pos + 2 <= data@.len(),
        hd_end(data@, pos as int) <= data@.len(),
    ensures
        r is Some <==> hd_block_ok(data@, pos as int),
        r matches Some(b) ==> block_matches(b, data@, pos as int),
{
    let ghost d = data@;
    let dlen = data.len();
    let cnt = data[pos];
    let count = cnt as usize;
    let tot = data[pos + 1] as usize;
    let offs_end = pos + 2 + count;
    let strs_end = offs_end + tot;
    let mut prev: usize = 0;
    let mut i: usize = 0;
    while i < count
        invariant
            d == data@,
            dlen == d.len(),
            hd_end(d, pos as int) <= dlen,
            pos + 2 <= dlen,
            count == hd_cnt(d, pos as int),
            tot == hd_tot(d, pos as int),
            i <= count,
            i > 0 ==> prev == hd_off(d, pos as int, i - 1),
            count > 0 && i > 0 ==> hd_off(d, pos as int, 0) == 0,
            forall|a: int, b: int|
                0 <= a <= b < i ==> #[trigger] hd_off(d, pos as int, a) <= #[trigger] hd_off(d, pos as int, b),
            forall|t: int| 0 <= t < i ==> #[trigger] hd_off(d, pos as int, t) < tot,
        decreases count - i,
    {
        let off = data[pos + 2 + i] as usize;
        assert(off == hd_off(d, pos as int, i as int));
        if (i == 0 && off != 0) || (i > 0 && off < prev) {
            proof {
                if i > 0 {
                    assert(hd_off(d, pos as int, i - 1) > hd_off(d, pos as int, i as int));
                }
            }
            return None;
        }
        if off >= tot {
            return None;
        }
        proof {
            assert forall|a: int, b: int|
                0 <= a <= b < i + 1 implies #[trigger] hd_off(d, pos as int, a) <= #[trigger] hd_off(d, pos as int, b) by {
                if b == i && a < i {
                    assert(hd_off(d, pos as int, a) <= hd_off(d, pos as int, i - 1));
                }
            }
        }
        prev = off;
        i = i + 1;
    }
    let section = slice_range(data, 0, strs_end);
    let mut words: Vec<Vec<u8>> = Vec::new();
    let mut i: usize = 0;
    while i < count
        invariant
            d == data@,
            dlen == d.len(),
            hd_end(d, pos as int) <= dlen,
            pos + 2 <= dlen,
            count == hd_cnt(d, pos as int),
            tot == hd_tot(d, pos as int),
            offs_end == hd_strs(d, pos as int),
            strs_end == hd_tail(d, pos as int),
            section@ == d.subrange(0, strs_end as int),
            forall|t: int| 0 <= t < count ==> #[trigger] hd_off(d, pos as int, t) < tot,
            i <= count,
            words@.len() == i,
            forall|t: int| 0 <= t < i ==> ((#[trigger] hd_word_len(d, pos as int, t)) matches Some(k) && k > 0),
            forall|t: int| 0 <= t < i ==> (#[trigger] words@[t])@ == hd_word(d, pos as int, t),
        decreases count - i,
    {
        let sp = offs_end + data[pos + 2 + i] as usize;
        let nul = match find_zero(section, sp) {
            Some(e) => e,
            None => {
                return None;
            },
        };
        if nul == sp {
            return None;
        }
        let w = copy_range(data, sp, nul);
        proof {
            assert(hd_word_start(d, pos as int, i as int) == sp);
            assert(hd_word_len(d, pos as int, i as int) == Some((nul - sp) as int));
        }
        words.push(w);
        i = i + 1;
    }
    let pron_offsets = read_words(data, strs_end, count);
    Some(Block { offset: pos, count: cnt, words, pron_offsets })
}

/// Parses the hashed dictionary: blocks that fill the data exactly.
pub fn parse_hash_dic(data: &[u8]) -> (r: DictResult<HashDic>)
    ensures
        r is Ok <==> hd_chain(data@, 0) is Some,
        r matches Ok(h) ==> h.spec_data() == data@ && h.spec_blocks().len() == hd_chain(data@, 0)->0.len()
            && forall|k: int|
            0 <= k < h.spec_blocks().len() ==> block_matches(
                #[trigger] h.spec_blocks()[k],
                data@,
                hd_chain(data@, 0)->0[k],
            ),
{
    let ghost d = data@;
    let dlen = data.len();
    let mut blocks: Vec<Block> = Vec::new();
    let ghost mut starts: Seq<int> = Seq::empty();
    let mut pos: usize = 0;
    while pos < dlen
        invariant
            d == data@,
            dlen == d.len(),
            pos <= dlen,
            hd_chain(d, 0) == match hd_chain(d, pos as int) {
                Some(rest) => Some(starts + rest),
                None => None::<Seq<int>>,
            },
            blocks@.len() == starts.len(),
            forall|k: int| 0 <= k < starts.len() ==> block_matches(#[trigger] blocks@[k], d, starts[k]),
        decreases dlen - pos,
    {
        if dlen - pos < 2 {
            return Err(DictError::new("block header beyond EOF", pos));
        }
        let count = data[pos] as usize;
        let tot = data[pos + 1] as usize;
        if dlen - pos - 2 < count + tot + 4 * count {
            return Err(DictError::new("block beyond EOF", pos));
        }
        let b = match parse_block(data, pos) {
            Some(b) => b,
            None => {
                return Err(DictError::new("invalid block", pos));
            },
        };
        let ghost old_starts = starts;
        let ghost old_blocks = blocks@;
        let next = pos + 2 + count + tot + 4 * count;
        blocks.push(b);
        proof {
            starts = starts.push(pos as int);
            match hd_chain(d, next as int) {
                Some(rest) => {
                    assert(old_starts + (seq![pos as int] + rest) =~= starts + rest);
                },
                None => {},
            }
            assert forall|k: int| 0 <= k < starts.len() implies block_matches(#[trigger] blocks@[k], d, starts[k]) by {
                if k < old_starts.len() {
                    assert(blocks@[k] == old_blocks[k]);
                }
            }
        }
        pos = next;
    }
    proof {
        assert(starts + Seq::<int>::empty() =~= starts);
    }
    let h = HashDic { data: copy_range(data, 0, dlen), blocks };
    proof {
        assert(data@.subrange(0, dlen as int) =~= data@);
    }
    Ok(h)
}

/// The bucket table of the hash: one little-endian `u32` per bucket.
#[derive(Debug, Clone)]
pub struct HashBin {
    pub buckets: Vec<u32>,
}

impl HashBin {
    /// Number of buckets.
    pub fn len(&self) -> (n: usize)
        ensures
            n == self.buckets@.len(),
    {
        self.buckets.len()
    }

    /// Whether there are no buckets.
    pub fn is_empty(&self) -> (b: bool)
        ensures
            b <==> self.buckets@.len() == 0,
    {
        self.buckets.len() == 0
    }
}

/// Parses the bucket table; its size must be a multiple of four.
pub fn parse_hash_bin(data: &[u8]) -> (r: DictResult<HashBin>)
    ensures
        r is Ok <==> data@.len() % 4 == 0,
        r matches Ok(b) ==> b.buckets@ == words_at(data@, 0, (data@.len() / 4) as int),
{
    if data.len() % 4 != 0 {
        return Err(DictError::new("hash table size is not a multiple of 4", 0));
    }
    Ok(HashBin { buckets: read_words(data, 0, data.len() / 4) })
}

/// Bucket of a word: the hash over its bytes taken as signed, modulo the bucket count.
pub fn get_hash_value(word: &[u8]) -> (h: u32)
    ensures
        h as int == hash31_signed(word@) % (ENG_BUCKETS as int),
{
    hash31_exec(word, true) % ENG_BUCKETS
}

/// Some entry of the table starts at `o`.
pub open spec fn off_known(entries: Seq<(u32, u8)>, o: u32) -> bool {
    exists|i: int| 0 <= i < entries.len() && (#[trigger] entries[i]).0 == o
}

/// Every pronunciation offset of the block names an entry of the table.
pub open spec fn block_known(entries: Seq<(u32, u8)>, b: Block) -> bool {
    forall|j: int| 0 <= j < b.pron_offsets@.len() ==> off_known(entries, #[trigger] b.pron_offsets@[j])
}

/// Every pronunciation offset of every block names an entry of the table.
pub open spec fn offsets_known(blocks: Seq<Block>, entries: Seq<(u32, u8)>) -> bool {
    forall|b: int| 0 <= b < blocks.len() ==> block_known(entries, #[trigger] blocks[b])
}

/// Index of the table entry that starts at `off`.
pub open spec fn pt_index(e: Seq<(u32, u8)>, off: int) -> Option<int> {
    if exists|i: int| 0 <= i < e.len() && (#[trigger] e[i]).0 == off {
        Some(choose|i: int| 0 <= i < e.len() && (#[trigger] e[i]).0 == off)
    } else {
        None
    }
}

#[verifier::opaque]
/// Scanning the words of the block at `pos` for `w`, from word `i` on: `Some(Some(j))` when
/// word `j` matches, `Some(None)` when the scan ends without a match (no more words, or a
/// word without NUL), `None` when a word offset points past the string section.
pub open spec fn eng_scan(d: Seq<u8>, pos: int, i: int, w: Seq<u8>) -> Option<Option<int>>
    decreases hd_cnt(d, pos) - i,
{
    if i < 0 || i >= hd_cnt(d, pos) {
        Some(None)
    } else if hd_off(d, pos, i) > hd_tot(d, pos) {
        None
    } else {
        match hd_word_len(d, pos, i) {
            None => Some(None),
            Some(k) => if d.subrange(hd_word_start(d, pos, i), hd_word_start(d, pos, i) + k) == w {
                Some(Some(i))
            } else {
                eng_scan(d, pos, i + 1, w)
            },
        }
    }
}

/// The block the bucket of `w` points at, when its header can be read and it fits.
pub open spec fn eng_block(dd: Seq<u8>, buckets: Seq<u32>, w: Seq<u8>) -> Option<int> {
    let h = hash31_signed(w) % (ENG_BUCKETS as int);
    if h >= buckets.len() || buckets[h] == 0 {
        None
    } else {
        let pos = buckets[h] - 1;
        if pos + 1 >= dd.len() || hd_cnt(dd, pos) == 0 || hd_end(dd, pos) > dd.len() {
            None
        } else {
            Some(pos)
        }
    }
}

/// The pronunciation stored at table offset `off`, if an entry starts there and fits.
pub open spec fn pt_pron_at(td: Seq<u8>, te: Seq<(u32, u8)>, off: int) -> Option<Seq<u8>> {
    match pt_index(te, off) {
        None => None,
        Some(idx) => if pt_pron_fits(td, te, idx) {
            Some(pt_pron(td, te, idx))
        } else {
            None
        },
    }
}

/// What looking up `w` gives: `Some(r)` with the pronunciation found or `None`, and `None`
/// on the data that makes the lookup index out of bounds.
pub open spec fn eng_lookup(
    dd: Seq<u8>,
    buckets: Seq<u32>,
    td: Seq<u8>,
    te: Seq<(u32, u8)>,
    w: Seq<u8>,
) -> Option<Option<Seq<u8>>> {
    match eng_block(dd, buckets, w) {
        None => Some(None),
        Some(pos) => match eng_scan(dd, pos, 0, w) {
            None => None,
            Some(None) => Some(None),
            Some(Some(i)) => Some(pt_pron_at(td, te, le32(dd, hd_tail(dd, pos) + 4 * i))),
        },
    }
}

/// Scans the words of the block at `pos` for `word`.
fn scan_words(dd: &[u8], pos: usize, word: &[u8]) -> (r: Option<usize>)
    requires
        pos + 2 <= dd@.len(),
        hd_end(dd@, pos as int) <= dd@.len(),
        eng_scan(dd@, pos as int, 0, word@) is Some,
    ensures
        r matches Some(i) ==> eng_scan(dd@, pos as int, 0, word@) == Some(Some(i as int)),
        r is None ==> eng_scan(dd@, pos as int, 0, word@) == Some(None::<int>),
        r matches Some(i) ==> i < hd_cnt(dd@, pos as int),
{
    reveal(eng_scan);
    let ghost d = dd@;
    let cnt = dd[pos] as usize;
    let tot = dd[pos + 1] as usize;
    let strs_off = pos + 2 + cnt;
    let section = slice_range(dd, 0, strs_off + tot);
    let mut i: usize = 0;
    while i < cnt
        invariant
            d == dd@,
            pos + 2 <= d.len(),
            hd_end(d, pos as int) <= d.len(),
            cnt == hd_cnt(d, pos as int),
            tot == hd_tot(d, pos as int),
            strs_off == hd_strs(d, pos as int),
            section@ == d.subrange(0, hd_tail(d, pos as int)),
            i <= cnt,
            eng_scan(d, pos as int, 0, word@) == eng_scan(d, pos as int, i as int, word@),
            eng_scan(d, pos as int, i as int, word@) is Some,
        decreases cnt - i,
    {
        reveal(eng_scan);
        let o = dd[pos + 2 + i] as usize;
        assert(o == hd_off(d, pos as int, i as int));
        if o > tot {
            return None;
        }
        let sp = strs_off + o;
        assert(hd_word_start(d, pos as int, i as int) == sp);
        let nul = match find_zero(section, sp) {
            Some(e) => e,
            None => {
                return None;
            },
        };
        assert(hd_word_len(d, pos as int, i as int) == Some((nul - sp) as int));
        if bytes_eq(slice_range(dd, sp, nul), word) {
            return Some(i);
        }
        i = i + 1;
    }
    None
}

/// The three files of the English dictionary, checked to agree.
#[derive(Debug)]
pub struct EnglishPyogiSet {
    table: PronTable,
    hash_dic: HashDic,
    hash_bin: HashBin,
}

impl EnglishPyogiSet {
    pub closed spec fn spec_table(&self) -> PronTable {
        self.table
    }

    pub closed spec fn spec_hash_dic(&self) -> HashDic {
        self.hash_dic
    }

    pub closed spec fn spec_hash_bin(&self) -> HashBin {
        self.hash_bin
    }

    /// What looking up `w` in this set gives.
    pub open spec fn spec_lookup(&self, w: Seq<u8>) -> Option<Option<Seq<u8>>> {
        eng_lookup(
            self.spec_hash_dic().spec_data(),
            self.spec_hash_bin().buckets@,
            self.spec_table().spec_data(),
            self.spec_table().spec_entries(),
            w,
        )
    }

    /// Builds the set; fails when a block names a pronunciation offset the table lacks.
    pub fn new(table: PronTable, hash_dic: HashDic, hash_bin: HashBin) -> (r: DictResult<Self>)
        ensures
            r is Ok <==> offsets_known(hash_dic.spec_blocks(), table.spec_entries()),
            r matches Ok(s) ==> s.spec_table() == table && s.spec_hash_dic() == hash_dic
                && s.spec_hash_bin() == hash_bin,
    {
        let ghost bs = hash_dic.spec_blocks();
        let ghost es = table.spec_entries();
        let mut b: usize = 0;
        while b < hash_dic.blocks.len()
            invariant
                bs == hash_dic.spec_blocks(),
                es == table.spec_entries(),
                b <= bs.len(),
                forall|x: int| 0 <= x < b ==> block_known(es, #[trigger] bs[x]),
            decreases bs.len() - b,
        {
            let blk = &hash_dic.blocks[b];
            let mut j: usize = 0;
            while j < blk.pron_offsets.len()
                invariant
                    es == table.spec_entries(),
                    bs == hash_dic.spec_blocks(),
                    b < bs.len(),
                    *blk == bs[b as int],
                    j <= blk.pron_offsets@.len(),
                    forall|jj: int| 0 <= jj < j ==> off_known(es, #[trigger] blk.pron_offsets@[jj]),
                decreases blk.pron_offsets@.len() - j,
            {
                let o = blk.pron_offsets[j];
                if table.index_of(o).is_none() {
                    proof {
                        assert(bs[b as int] == *blk);
                        assert(!off_known(es, o));
                        assert(!block_known(es, bs[b as int]));
                    }
                    return Err(DictError::new("pronunciation offset missing from the table", blk.offset));
                }
                j = j + 1;
            }
            proof {
                assert(bs[b as int] == *blk);
            }
            b = b + 1;
        }
        Ok(EnglishPyogiSet { table, hash_dic, hash_bin })
    }

    /// The pronunciation table.
    pub fn table(&self) -> (t: &PronTable)
        ensures
            *t == self.spec_table(),
    {
        &self.table
    }

    /// The hashed dictionary.
    pub fn hash_dic(&self) -> (h: &HashDic)
        ensures
            *h == self.spec_hash_dic(),
    {
        &self.hash_dic
    }

    /// The bucket table.
    pub fn hash_bin(&self) -> (h: &HashBin)
        ensures
            *h == self.spec_hash_bin(),
    {
        &self.hash_bin
    }

    /// The pronunciation of `word`.
    pub fn lookup(&self, word: &[u8]) -> (r: Option<&[u8]>)
        requires
            self.spec_lookup(word@) is Some,
        ensures
            r is Some <==> self.spec_lookup(word@)->0 is Some,
            r matches Some(x) ==> x@ == self.spec_lookup(word@)->0->0,
    {
        let dd = self.hash_dic.data.as_slice();
        let pos = match self.block_of(word) {
            Some(p) => p,
            None => {
                return None;
            },
        };
        let i = match scan_words(dd, pos, word) {
            Some(i) => i,
            None => {
                return None;
            },
        };
        let cnt = dd[pos] as usize;
        let tot = dd[pos + 1] as usize;
        let poff = get_le32(dd, pos + 2 + cnt + tot + 4 * i);
        proof {
            let d = self.spec_hash_dic().spec_data();
            assert(dd@ == d);
            assert(pos + 2 + cnt + tot + 4 * i == hd_tail(d, pos as int) + 4 * i);
            assert(eng_block(d, self.spec_hash_bin().buckets@, word@) == Some(pos as int));
            assert(eng_scan(d, pos as int, 0, word@) == Some(Some(i as int)));
        }
        self.entry_pron(poff)
    }

    /// The block the bucket of `word` points at.
    fn block_of(&self, word: &[u8]) -> (r: Option<usize>)
        ensures
            r == match eng_block(self.spec_hash_dic().spec_data(), self.spec_hash_bin().buckets@, word@) {
                Some(p) => Some(p as usize),
                None => None::<usize>,
            },
            r matches Some(p) ==> p + 2 <= self.spec_hash_dic().spec_data().len() && hd_end(
                self.spec_hash_dic().spec_data(),
                p as int,
            ) <= self.spec_hash_dic().spec_data().len(),
    {
        let hash = get_hash_value(word) as usize;
        if hash >= self.hash_bin.buckets.len() {
            return None;
        }
        let off = self.hash_bin.buckets[hash];
        if off == 0 {
            return None;
        }
        let pos = (off - 1) as usize;
        let dd = self.hash_dic.data.as_slice();
        if pos >= dd.len() || pos + 1 >= dd.len() {
            return None;
        }
        let cnt = dd[pos] as usize;
        let tot = dd[pos + 1] as usize;
        if cnt == 0 {
            return None;
        }
        if dd.len() - pos - 2 < cnt + tot + 4 * cnt {
            return None;
        }
        Some(pos)
    }

    /// The pronunciation stored at table offset `poff`.
    fn entry_pron(&self, poff: u32) -> (r: Option<&[u8]>)
        ensures
            r is Some <==> pt_pron_at(self.spec_table().spec_data(), self.spec_table().spec_entries(), poff as int) is Some,
            r matches Some(x) ==> x@ == pt_pron_at(self.spec_table().spec_data(), self.spec_table().spec_entries(), poff as int)->0,
    {
        match self.table.index_of(poff) {
            Some(idx) => {
                proof {
                    use_type_invariant(&self.table);
                    let es = self.table.spec_entries();
                    let c = choose|c: int| 0 <= c < es.len() && (#[trigger] es[c]).0 == poff;
                    if c != idx {
                        if c < idx {
                            assert(es[c].0 < es[idx as int].0);
                        } else {
                            assert(es[idx as int].0 < es[c].0);
                        }
                    }
                }
                self.table.pron(idx)
            },
            None => None,
        }
    }
}

/// Law: the set of English pronunciations can be built exactly when every pronunciation
/// offset of every block is the start offset of some entry of the table (`off_known`).
pub proof fn law_offsets_known(blocks: Seq<Block>, entries: Seq<(u32, u8)>)
    ensures
        offsets_known(blocks, entries) <==> forall|b: int, j: int|
            0 <= b < blocks.len() && 0 <= j < blocks[b].pron_offsets@.len() ==> off_known(
                entries,
                #[trigger] blocks[b].pron_offsets@[j],
            ),
{
    if forall|b: int, j: int|
        0 <= b < blocks.len() && 0 <= j < blocks[b].pron_offsets@.len() ==> off_known(
            entries,
            #[trigger] blocks[b].pron_offsets@[j],
        ) {
        assert forall|b: int| 0 <= b < blocks.len() implies block_known(entries, #[trigger] blocks[b]) by {
            assert forall|j: int| 0 <= j < blocks[b].pron_offsets@.len() implies off_known(
                entries,
                #[trigger] blocks[b].pron_offsets@[j],
            ) by {}
        }
    }
}

proof fn lemma_eng_scan_found(d: Seq<u8>, pos: int, i: int, w: Seq<u8>)
    requires
        eng_scan(d, pos, i, w) matches Some(Some(_)),
    ensures
        eng_scan(d, pos, i, w) matches Some(Some(k)) && i <= k < hd_cnt(d, pos) && hd_word_len(d, pos, k) is Some
            && hd_word(d, pos, k) == w,
    decreases hd_cnt(d, pos) - i,
{
    reveal(eng_scan);
    if 0 <= i < hd_cnt(d, pos) && hd_off(d, pos, i) <= hd_tot(d, pos) {
        match hd_word_len(d, pos, i) {
            None => {},
            Some(k) => {
                if d.subrange(hd_word_start(d, pos, i), hd_word_start(d, pos, i) + k) != w {
                    lemma_eng_scan_found(d, pos, i + 1, w);
                }
            },
        }
    }
}

/// Law: a word whose bucket is out of range or empty is not found; a word that is found
/// is one of the words of the block its bucket points at, and what is found is the
/// pronunciation of an entry of the table.
pub proof fn law_eng_lookup(dd: Seq<u8>, buckets: Seq<u32>, td: Seq<u8>, te: Seq<(u32, u8)>, w: Seq<u8>)
    ensures
        ({
            let h = hash31_signed(w) % (ENG_BUCKETS as int);
            h >= buckets.len() || buckets[h] == 0
        }) ==> eng_lookup(dd, buckets, td, te, w) == Some(None::<Seq<u8>>),
        eng_lookup(dd, buckets, td, te, w) matches Some(Some(p)) ==> {
            &&& eng_block(dd, buckets, w) matches Some(pos) && exists|k: int|
                0 <= k < hd_cnt(dd, pos) && hd_word_len(dd, pos, k) is Some && #[trigger] hd_word(dd, pos, k) == w
            &&& exists|idx: int| pt_pron_fits(td, te, idx) && #[trigger] pt_pron(td, te, idx) == p
        },
{
    if eng_lookup(dd, buckets, td, te, w) matches Some(Some(_)) {
        let p = eng_lookup(dd, buckets, td, te, w)->0->0;
        let pos = eng_block(dd, buckets, w)->0;
        lemma_eng_scan_found(dd, pos, 0, w);
        let k = eng_scan(dd, pos, 0, w)->0->0;
        assert(hd_word(dd, pos, k) == w);
        let idx = pt_index(te, le32(dd, hd_tail(dd, pos) + 4 * k))->0;
        assert(pt_pron(td, te, idx) == p);
    }
}

} // verus!
