//! The morpheme dictionary: a hash bin (one `u32` per bucket, a record offset plus one), a
//! hashed key dictionary whose records list keys with the offsets of their entries, and
//! the entry dictionary itself.
use vstd::prelude::*;
use crate::common::{DictError, DictResult, le32, get_le32, hash31_signed, hash31_exec, first_zero_from, find_zero, slice_range, bytes_eq, first_index, lemma_first_index, lemma_first_index_none, lemma_first_index_past};
use crate::birule::{words_at, read_words};

verus! {

/// Number of buckets of the hash.
pub const KMORPH_HASH_BUCKETS: usize = 16127;

/// Bucket of a key: the hash over its bytes taken as signed, modulo the bucket count.
pub open spec fn key_hash(key: Seq<u8>) -> int {
    hash31_signed(key) % (KMORPH_HASH_BUCKETS as int)
}

/// Bucket of a key.
pub fn get_hash_value(key: &[u8]) -> (h: usize)
    ensures
        h == key_hash(key@),
        h < KMORPH_HASH_BUCKETS,
{
    (hash31_exec(key, true) % 16127) as usize
}

/// Parses the hash bin: exactly `KMORPH_HASH_BUCKETS` little-endian `u32` values.
pub fn parse_hash_bin(data: &[u8]) -> (r: DictResult<Vec<u32>>)
    ensures
        r is Ok <==> data@.len() == KMORPH_HASH_BUCKETS * 4,
        r matches Ok(b) ==> b@ == words_at(data@, 0, KMORPH_HASH_BUCKETS as int),
{
    if data.len() != KMORPH_HASH_BUCKETS * 4 {
        return Err(DictError::new("kmorph_hash.bin size mismatch", 0));
    }
    Ok(read_words(data, 0, KMORPH_HASH_BUCKETS))
}

/// Key count of the record at `p`.
pub open spec fn kh_nk(d: Seq<u8>, p: int) -> int {
    d[p] as int
}

/// Size of the key buffer of the record at `p`.
pub open spec fn kh_sl(d: Seq<u8>, p: int) -> int {
    d[p + 1] as int
}

/// Start of the key buffer.
pub open spec fn kh_buf(d: Seq<u8>, p: int) -> int {
    p + 2 + kh_nk(d, p)
}

/// Start of the entry offsets.
pub open spec fn kh_offs(d: Seq<u8>, p: int) -> int {
    kh_buf(d, p) + kh_sl(d, p)
}

/// End of the record.
pub open spec fn kh_end(d: Seq<u8>, p: int) -> int {
    kh_offs(d, p) + 4 * kh_nk(d, p)
}

/// The record at `p` fits and each key address lies inside its buffer.
pub open spec fn kh_ok(d: Seq<u8>, p: int) -> bool {
    &&& 0 <= p
    &&& p + 2 <= d.len()
    &&& kh_end(d, p) <= d.len()
    &&& forall|j: int| 0 <= j < kh_nk(d, p) ==> (#[trigger] d[p + 2 + j]) < kh_sl(d, p)
}

/// Key `j` of the record at `p`: from its address to the next NUL or the buffer's end.
pub open spec fn kh_key(d: Seq<u8>, p: int, j: int) -> Seq<u8> {
    let buf = d.subrange(kh_buf(d, p), kh_offs(d, p));
    let a = d[p + 2 + j] as int;
    buf.subrange(
        a,
        match first_zero_from(buf, a) {
            Some(k) => a + k,
            None => buf.len() as int,
        },
    )
}

/// Record starts walking from `p` to the end of the data.
pub open spec fn kh_chain(d: Seq<u8>, p: int) -> Option<Seq<int>>
    decreases d.len() - p,
{
    if p < 0 || p > d.len() {
        None
    } else if p == d.len() {
        Some(Seq::empty())
    } else if !kh_ok(d, p) {
        None
    } else {
        match kh_chain(d, kh_end(d, p)) {
            Some(rest) => Some(seq![p] + rest),
            None => None,
        }
    }
}

pub proof fn lemma_kh_chain_bounds(d: Seq<u8>, p: int)
    requires
        kh_chain(d, p) is Some,
    ensures
        forall|k: int|
            0 <= k < kh_chain(d, p)->0.len() ==> p <= #[trigger] kh_chain(d, p)->0[k] < d.len(),
        forall|a: int, b: int|
            0 <= a < b < kh_chain(d, p)->0.len() ==> kh_chain(d, p)->0[a] < kh_chain(d, p)->0[b],
    decreases d.len() - p,
{
    if p < d.len() {
        lemma_kh_chain_bounds(d, kh_end(d, p));
    }
}

/// One record of the hashed key dictionary.
#[derive(Debug)]
pub struct KmorphHashRecord<'a> {
    pub offset: usize,
    pub keys: Vec<&'a [u8]>,
    pub dic_offsets: Vec<u32>,
}

/// The hashed key dictionary with its buckets.
#[derive(Debug)]
pub struct KmorphHashDic<'a> {
    pub buckets: Vec<u32>,
    pub records: Vec<KmorphHashRecord<'a>>,
}

/// The record is what the data holds at `p`.
pub open spec fn kh_record_matches(r: KmorphHashRecord, d: Seq<u8>, p: int) -> bool {
    &&& r.offset == p
    &&& r.keys@.len() == kh_nk(d, p)
    &&& forall|j: int| 0 <= j < kh_nk(d, p) ==> (#[trigger] r.keys@[j])@ == kh_key(d, p, j)
    &&& r.dic_offsets@ == words_at(d, kh_offs(d, p), kh_nk(d, p))
}

fn parse_kh_record<'a>(data: &'a [u8], p: usize) -> (r: Option<KmorphHashRecord<'a>>)
    requires
        p + 2 <= data@.len(),
        kh_end(data@, p as int) <= data@.len(),
    ensures
        r is Some <==> kh_ok(data@, p as int),
        r matches Some(rec) ==> kh_record_matches(rec, data@, p as int),
{
    let ghost d = data@;
    let nk = data[p] as usize;
    let sl = data[p + 1] as usize;
    let bs = p + 2 + nk;
    let buf = slice_range(data, bs, bs + sl);
    let mut keys: Vec<&'a [u8]> = Vec::new();
    let mut j: usize = 0;
    while j < nk
        invariant
            d == data@,
            p + 2 <= d.len(),
            kh_end(d, p as int) <= d.len(),
            nk == kh_nk(d, p as int),
            sl == kh_sl(d, p as int),
            bs == kh_buf(d, p as int),
            buf@ == d.subrange(bs as int, bs + sl),
            j <= nk,
            keys@.len() == j,
            forall|t: int| 0 <= t < j ==> (#[trigger] d[p + 2 + t]) < sl,
            forall|t: int| 0 <= t < j ==> (#[trigger] keys@[t])@ == kh_key(d, p as int, t),
        decreases nk - j,
    {
        let a = data[p + 2 + j] as usize;
        if a >= sl {
            return None;
        }
        let end = match find_zero(buf, a) {
            Some(e) => e,
            None => sl,
        };
        let k = slice_range(buf, a, end);
        proof {
            assert(k@ == kh_key(d, p as int, j as int));
        }
        keys.push(k);
        j = j + 1;
    }
    let dic_offsets = read_words(data, bs + sl, nk);
    Some(KmorphHashRecord { offset: p, keys, dic_offsets })
}

/// Parses the hashed key dictionary (its buckets stay empty): records that fill the data.
pub fn parse_hash_dic<'a>(data: &'a [u8]) -> (r: DictResult<KmorphHashDic<'a>>)
    requires
        data@.len() <= u32::MAX + 1,
    ensures
        r is Ok <==> kh_chain(data@, 0) is Some,
        r matches Ok(h) ==> h.buckets@.len() == 0 && h.records@.len() == kh_chain(data@, 0)->0.len()
            && forall|k: int|
            0 <= k < h.records@.len() ==> kh_record_matches(
                #[trigger] h.records@[k],
                data@,
                kh_chain(data@, 0)->0[k],
            ),
{
    let ghost d = data@;
    let dlen = data.len();
    let mut records: Vec<KmorphHashRecord<'a>> = Vec::new();
    let ghost mut starts: Seq<int> = Seq::empty();
    let mut pos: usize = 0;
    while pos < dlen
        invariant
            d == data@,
            dlen == d.len(),
            pos <= dlen,
            kh_chain(d, 0) == match kh_chain(d, pos as int) {
                Some(rest) => Some(starts + rest),
                None => None::<Seq<int>>,
            },
            records@.len() == starts.len(),
            forall|k: int| 0 <= k < starts.len() ==> kh_record_matches(#[trigger] records@[k], d, starts[k]),
        decreases dlen - pos,
    {
        if dlen - pos < 2 {
            return Err(DictError::new("record header EOF", pos));
        }
        let nk = data[pos] as usize;
        let sl = data[pos + 1] as usize;
        if dlen - pos - 2 < 5 * nk + sl {
            return Err(DictError::new("record EOF", pos));
        }
        let rec = match parse_kh_record(data, pos) {
            Some(r) => r,
            None => {
                return Err(DictError::new("key address exceeds the key buffer", pos));
            },
        };
        let ghost old_starts = starts;
        let ghost old_records = records@;
        let next = pos + 2 + 5 * nk + sl;
        records.push(rec);
        proof {
            starts = starts.push(pos as int);
            match kh_chain(d, next as int) {
                Some(rest) => {
                    assert(old_starts + (seq![pos as int] + rest) =~= starts + rest);
                },
                None => {},
            }
            assert forall|k: int| 0 <= k < starts.len() implies kh_record_matches(#[trigger] records@[k], d, starts[k]) by {
                if k < old_starts.len() {
                    assert(records@[k] == old_records[k]);
                }
            }
        }
        pos = next;
    }
    proof {
        assert(starts + Seq::<int>::empty() =~= starts);
    }
    Ok(KmorphHashDic { buckets: Vec::new(), records })
}

/// Record offsets increase strictly and every record has an entry offset for each key.
pub open spec fn kh_wf(recs: Seq<KmorphHashRecord>) -> bool {
    &&& forall|a: int, b: int| 0 <= a < b < recs.len() ==> (#[trigger] recs[a]).offset < (#[trigger] recs[b]).offset
    &&& forall|k: int| 0 <= k < recs.len() ==> (#[trigger] recs[k]).dic_offsets@.len() >= recs[k].keys@.len()
}

/// Index of the record starting at `off`.
pub open spec fn kh_index(recs: Seq<KmorphHashRecord>, off: int) -> Option<int> {
    if exists|i: int| 0 <= i < recs.len() && (#[trigger] recs[i]).offset == off {
        Some(choose|i: int| 0 <= i < recs.len() && (#[trigger] recs[i]).offset == off)
    } else {
        None
    }
}

/// What looking up `key` gives: the entry offset paired with the key in the record its
/// bucket points at.
pub open spec fn kh_lookup(buckets: Seq<u32>, recs: Seq<KmorphHashRecord>, key: Seq<u8>) -> Option<u32> {
    let h = key_hash(key);
    if h >= buckets.len() || buckets[h] == 0 {
        None
    } else {
        match kh_index(recs, buckets[h] - 1) {
            None => None,
            Some(i) => match first_index(recs[i].keys@, |k: &[u8]| k@ == key) {
                Some(j) => Some(recs[i].dic_offsets@[j]),
                None => None,
            },
        }
    }
}

impl<'a> KmorphHashDic<'a> {
    fn find_record(&self, off: usize) -> (r: Option<usize>)
        requires
            kh_wf(self.records@),
        ensures
            r matches Some(i) ==> i < self.records@.len() && kh_index(self.records@, off as int) == Some(i as int),
            r is None ==> kh_index(self.records@, off as int) is None,
    {
        let mut lo: usize = 0;
        let mut hi: usize = self.records.len();
        while lo < hi
            invariant
                0 <= lo <= hi <= self.records@.len(),
                kh_wf(self.records@),
                forall|i: int| 0 <= i < lo ==> (#[trigger] self.records@[i]).offset < off,
                forall|i: int| hi <= i < self.records@.len() ==> (#[trigger] self.records@[i]).offset > off,
            decreases hi - lo,
        {
            let mid = lo + (hi - lo) / 2;
            let o = self.records[mid].offset;
            if o == off {
                proof {
                    let recs = self.records@;
                    let c = choose|c: int| 0 <= c < recs.len() && (#[trigger] recs[c]).offset == off;
                    if c < mid {
                        assert(recs[c].offset < recs[mid as int].offset);
                    }
                    if c > mid {
                        assert(recs[mid as int].offset < recs[c].offset);
                    }
                }
                return Some(mid);
            } else if o < off {
                proof {
                    assert forall|i: int| 0 <= i < mid + 1 implies (#[trigger] self.records@[i]).offset < off by {
                        if i < mid {
                            assert(self.records@[i].offset < self.records@[mid as int].offset);
                        }
                    }
                }
                lo = mid + 1;
            } else {
                proof {
                    assert forall|i: int| mid <= i < self.records@.len() implies (#[trigger] self.records@[i]).offset > off by {
                        if i > mid {
                            assert(self.records@[mid as int].offset < self.records@[i].offset);
                        }
                    }
                }
                hi = mid;
            }
        }
        None
    }

    /// The entry offset of `key`.
    pub fn lookup(&self, key: &[u8]) -> (r: Option<u32>)
        requires
            kh_wf(self.records@),
        ensures
            r == kh_lookup(self.buckets@, self.records@, key@),
    {
        let h = get_hash_value(key);
        if h >= self.buckets.len() {
            return None;
        }
        let v = self.buckets[h];
        if v == 0 {
            return None;
        }
        let i = match self.find_record((v - 1) as usize) {
            Some(i) => i,
            None => {
                return None;
            },
        };
        let rec = &self.records[i];
        let ghost pk = |k: &[u8]| k@ == key@;
        let mut j: usize = 0;
        while j < rec.keys.len()
            invariant
                j <= rec.keys@.len(),
                i < self.records@.len(),
                *rec == self.records@[i as int],
                h == key_hash(key@),
                h < self.buckets@.len(),
                v == self.buckets@[h as int],
                v != 0,
                kh_index(self.records@, v - 1) == Some(i as int),
                rec.dic_offsets@.len() >= rec.keys@.len(),
                pk == (|k: &[u8]| k@ == key@),
                forall|t: int| 0 <= t < j ==> !pk(#[trigger] rec.keys@[t]),
            decreases rec.keys@.len() - j,
        {
            if bytes_eq(rec.keys[j], key) {
                proof {
                    assert(pk(rec.keys@[j as int]));
                    lemma_first_index(rec.keys@, pk, j as int);
                }
                return Some(rec.dic_offsets[j]);
            }
            j = j + 1;
        }
        proof {
            lemma_first_index_none(rec.keys@, pk);
        }
        None
    }
}

/// One item of an entry.
#[derive(Debug, Clone, Copy, PartialEq, Eq)]
pub struct SKeyItem {
    pub ch_pos: u8,
    pub n_freq: u32,
    pub ch_irr_pred: u8,
    pub un_ui_link: u32,
}

/// One entry of the entry dictionary.
#[derive(Debug)]
pub struct KmorphDicRecord<'a> {
    pub offset: usize,
    pub text: &'a [u8],
    pub items: Vec<SKeyItem>,
}

/// The entries read for the offsets the key dictionary names.
#[derive(Debug)]
pub struct KmorphDic<'a> {
    pub records: Vec<KmorphDicRecord<'a>>,
}

/// Text length of the entry at `o`.
pub open spec fn kd_tl(d: Seq<u8>, o: int) -> int {
    d[o] as int
}

/// Item count of the entry at `o`.
pub open spec fn kd_ni(d: Seq<u8>, o: int) -> int {
    d[o + 1 + kd_tl(d, o)] as int
}

/// End of the entry at `o`.
pub open spec fn kd_end(d: Seq<u8>, o: int) -> int {
    o + 2 + kd_tl(d, o) + 10 * kd_ni(d, o)
}

/// The entry at `o` lies inside the data.
pub open spec fn kd_ok(d: Seq<u8>, o: int) -> bool {
    0 <= o < d.len() && o + 2 + kd_tl(d, o) <= d.len() && kd_end(d, o) <= d.len()
}

/// Item `k` of the entry at `o`.
pub open spec fn kd_item(d: Seq<u8>, o: int, k: int) -> SKeyItem {
    let b = o + 2 + kd_tl(d, o) + 10 * k;
    SKeyItem {
        ch_pos: d[b],
        n_freq: le32(d, b + 1) as u32,
        ch_irr_pred: d[b + 5],
        un_ui_link: le32(d, b + 6) as u32,
    }
}

/// The entry is what the data holds at its offset.
pub open spec fn kd_matches(r: KmorphDicRecord, d: Seq<u8>) -> bool {
    let o = r.offset as int;
    &&& r.text@ == d.subrange(o + 1, o + 1 + kd_tl(d, o))
    &&& r.items@ == Seq::new(kd_ni(d, o) as nat, |k: int| kd_item(d, o, k))
}

/// Every named entry lies inside the data, and the one at the highest offset ends where
/// the data ends (no offsets: the data is empty).
pub open spec fn kd_all_ok(d: Seq<u8>, offs: Seq<u32>) -> bool {
    &&& forall|i: int| 0 <= i < offs.len() ==> kd_ok(d, #[trigger] offs[i] as int)
    &&& if offs.len() == 0 {
        d.len() == 0
    } else {
        exists|i: int|
            0 <= i < offs.len() && (forall|j: int| 0 <= j < offs.len() ==> offs[j] <= #[trigger] offs[i])
                && kd_end(d, offs[i] as int) == d.len()
    }
}

/// Sorts the values in increasing order (`slice::sort_unstable`): the same values, with
/// the same multiplicities, in order.
#[verifier::external_body]
fn sort_u32(v: &mut Vec<u32>)
    ensures
        final(v)@.to_multiset() == old(v)@.to_multiset(),
        forall|i: int, j: int| 0 <= i <= j < final(v)@.len() ==> final(v)@[i] <= final(v)@[j],
{
    v.sort_unstable();
}

/// The values of a sorted sequence without repeats.
fn dedup_sorted(v: &Vec<u32>) -> (r: Vec<u32>)
    requires
        forall|i: int, j: int| 0 <= i <= j < v@.len() ==> v@[i] <= v@[j],
    ensures
        forall|i: int, j: int| 0 <= i < j < r@.len() ==> r@[i] < r@[j],
        forall|x: u32| r@.contains(x) <==> v@.contains(x),
{
    let mut out: Vec<u32> = Vec::new();
    let mut i: usize = 0;
    while i < v.len()
        invariant
            i <= v@.len(),
            forall|a: int, b: int| 0 <= a <= b < v@.len() ==> v@[a] <= v@[b],
            forall|a: int, b: int| 0 <= a < b < out@.len() ==> out@[a] < out@[b],
            forall|x: u32| out@.contains(x) <==> v@.subrange(0, i as int).contains(x),
            out@.len() > 0 ==> i > 0 && out@.last() == v@[i - 1],
        decreases v@.len() - i,
    {
        let x = v[i];
        let ghost old_out = out@;
        if out.len() == 0 || out[out.len() - 1] != x {
            out.push(x);
            proof {
                assert forall|a: int, b: int| 0 <= a < b < out@.len() implies out@[a] < out@[b] by {
                    if b == out@.len() - 1 && a < b {
                        assert(old_out[a] <= old_out.last());
                        assert(v@[i - 1] <= v@[i as int]);
                        if old_out[a] < old_out.last() {
                        } else {
                            assert(old_out.last() != x);
                        }
                    }
                }
            }
        }
        proof {
            let w = v@.subrange(0, i + 1);
            let w0 = v@.subrange(0, i as int);
            assert forall|y: u32| out@.contains(y) <==> w.contains(y) by {
                if w.contains(y) {
                    let k = choose|k: int| 0 <= k < w.len() && #[trigger] w[k] == y;
                    if k < i {
                        assert(w0[k] == y);
                        assert(w0.contains(y));
                        assert(old_out.contains(y));
                        let m = choose|m: int| 0 <= m < old_out.len() && #[trigger] old_out[m] == y;
                        assert(out@[m] == y);
                    } else {
                        assert(y == x);
                        assert(out@[out@.len() - 1] == y);
                    }
                }
                if out@.contains(y) {
                    let k = choose|k: int| 0 <= k < out@.len() && #[trigger] out@[k] == y;
                    if k < old_out.len() {
                        assert(old_out[k] == y);
                        assert(old_out.contains(y));
                        assert(w0.contains(y));
                        let m = choose|m: int| 0 <= m < w0.len() && #[trigger] w0[m] == y;
                        assert(w[m] == y);
                    } else {
                        assert(w[i as int] == y);
                    }
                }
            }
        }
        i = i + 1;
    }
    proof {
        assert(v@.subrange(0, i as int) =~= v@);
    }
    out
}

/// The offsets of the entries.
pub open spec fn rec_offsets(recs: Seq<KmorphDicRecord>) -> Seq<u32> {
    recs.map_values(|r: KmorphDicRecord| r.offset as u32)
}

/// The entries read at the given offsets: one per distinct offset, in increasing order,
/// each as the data has it.
pub open spec fn dic_parsed(x: KmorphDic, d: Seq<u8>, offs: Seq<u32>) -> bool {
    &&& forall|a: int, b: int|
        0 <= a < b < x.records@.len() ==> (#[trigger] x.records@[a]).offset < (#[trigger] x.records@[b]).offset
    &&& forall|k: int|
        0 <= k < x.records@.len() ==> (#[trigger] x.records@[k]).offset <= u32::MAX && kd_matches(
            x.records@[k],
            d,
        )
    &&& forall|v: u32| #[trigger] rec_offsets(x.records@).contains(v) <==> offs.contains(v)
}

/// Parses the entries at the given offsets (in increasing order, each once).
pub fn parse_dic<'a>(data: &'a [u8], offsets: &[u32]) -> (r: DictResult<KmorphDic<'a>>)
    ensures
        r is Ok <==> kd_all_ok(data@, offsets@),
        r matches Ok(x) ==> dic_parsed(x, data@, offsets@),
{
    let ghost d = data@;
    let mut offs: Vec<u32> = Vec::new();
    let mut i: usize = 0;
    while i < offsets.len()
        invariant
            i <= offsets@.len(),
            offs@ == offsets@.subrange(0, i as int),
        decreases offsets@.len() - i,
    {
        offs.push(offsets[i]);
        i = i + 1;
        assert(offs@ =~= offsets@.subrange(0, i as int));
    }
    proof {
        assert(offsets@.subrange(0, i as int) =~= offsets@);
    }
    let ghost before_sort = offs@;
    sort_u32(&mut offs);
    proof {
        offs@.to_multiset_ensures();
        before_sort.to_multiset_ensures();
        assert forall|x: u32| offs@.contains(x) <==> offsets@.contains(x) by {
            assert(offs@.to_multiset().count(x) == before_sort.to_multiset().count(x));
        }
    }
    let u = dedup_sorted(&offs);
    let len = data.len();
    let mut records: Vec<KmorphDicRecord<'a>> = Vec::new();
    let mut last_end: usize = 0;
    let mut k: usize = 0;
    while k < u.len()
        invariant
            d == data@,
            len == d.len(),
            k <= u@.len(),
            forall|a: int, b: int| 0 <= a < b < u@.len() ==> u@[a] < u@[b],
            forall|x: u32| u@.contains(x) <==> offsets@.contains(x),
            records@.len() == k,
            forall|t: int| 0 <= t < k ==> (#[trigger] records@[t]).offset == u@[t] && kd_ok(d, u@[t] as int) && kd_matches(records@[t], d),
            k == 0 ==> last_end == 0,
            k > 0 ==> last_end == kd_end(d, u@[k - 1] as int),
        decreases u@.len() - k,
    {
        let o = u[k] as usize;
        proof {
            assert(u@.contains(u@[k as int]));
        }
        if o >= len {
            proof {
                let i = choose|i: int| 0 <= i < offsets@.len() && offsets@[i] == u@[k as int];
                assert(!kd_ok(d, offsets@[i] as int));
            }
            return Err(DictError::new("dic offset exceeds file size", o));
        }
        let tl = data[o] as usize;
        if len - o - 1 < tl + 1 {
            proof {
                let i = choose|i: int| 0 <= i < offsets@.len() && offsets@[i] == u@[k as int];
                assert(!kd_ok(d, offsets@[i] as int));
            }
            return Err(DictError::new("entry text EOF", o));
        }
        let text = slice_range(data, o + 1, o + 1 + tl);
        let ni = data[o + 1 + tl] as usize;
        if len - o - 2 - tl < 10 * ni {
            proof {
                let i = choose|i: int| 0 <= i < offsets@.len() && offsets@[i] == u@[k as int];
                assert(!kd_ok(d, offsets@[i] as int));
            }
            return Err(DictError::new("entry items EOF", o));
        }
        let mut items: Vec<SKeyItem> = Vec::new();
        let ib = o + 2 + tl;
        let mut t: usize = 0;
        while t < ni
            invariant
                d == data@,
                len == d.len(),
                o < len,
                tl == kd_tl(d, o as int),
                ni == kd_ni(d, o as int),
                ib == o + 2 + tl,
                ib + 10 * ni <= len,
                t <= ni,
                items@ == Seq::new(t as nat, |q: int| kd_item(d, o as int, q)),
            decreases ni - t,
        {
            let b = ib + 10 * t;
            items.push(SKeyItem {
                ch_pos: data[b],
                n_freq: get_le32(data, b + 1),
                ch_irr_pred: data[b + 5],
                un_ui_link: get_le32(data, b + 6),
            });
            t = t + 1;
            proof {
                assert(items@ =~= Seq::new(t as nat, |q: int| kd_item(d, o as int, q)));
            }
        }
        last_end = ib + 10 * ni;
        let ghost old_records = records@;
        records.push(KmorphDicRecord { offset: o, text, items });
        proof {
            assert forall|q: int| 0 <= q < k + 1 implies (#[trigger] records@[q]).offset == u@[q] && kd_ok(d, u@[q] as int) && kd_matches(records@[q], d) by {
                if q < k {
                    assert(records@[q] == old_records[q]);
                }
            }
        }
        k = k + 1;
    }
    if last_end != len {
        proof {
            if kd_all_ok(d, offsets@) {
                if offsets@.len() == 0 {
                    assert(u@.len() == 0) by {
                        if u@.len() > 0 {
                            assert(u@.contains(u@[0]));
                        }
                    }
                } else {
                    let i = choose|i: int|
                        0 <= i < offsets@.len() && (forall|j: int| 0 <= j < offsets@.len() ==> offsets@[j] <= #[trigger] offsets@[i])
                            && kd_end(d, offsets@[i] as int) == d.len();
                    assert(offsets@.contains(offsets@[i]));
                    let m = choose|m: int| 0 <= m < u@.len() && u@[m] == offsets@[i];
                    let last = u@.len() - 1;
                    assert(u@.contains(u@[last]));
                    let j = choose|j: int| 0 <= j < offsets@.len() && offsets@[j] == u@[last];
                    assert(offsets@[j] <= offsets@[i]);
                    if m < last {
                        assert(u@[m] < u@[last]);
                    }
                }
            }
        }
        return Err(DictError::new("kmorph.dic is not fully consumed", last_end));
    }
    proof {
        assert forall|i: int| 0 <= i < offsets@.len() implies kd_ok(d, #[trigger] offsets@[i] as int) by {
            assert(offsets@.contains(offsets@[i]));
            let m = choose|m: int| 0 <= m < u@.len() && u@[m] == offsets@[i];
            assert(records@[m].offset == u@[m]);
        }
        if offsets@.len() == 0 {
            if u@.len() > 0 {
                assert(u@.contains(u@[0]));
            }
        } else {
            assert(offsets@.contains(offsets@[0]));
            let last = u@.len() - 1;
            assert(u@.contains(u@[last]));
            let i = choose|i: int| 0 <= i < offsets@.len() && offsets@[i] == u@[last];
            assert forall|j: int| 0 <= j < offsets@.len() implies offsets@[j] <= #[trigger] offsets@[i] by {
                assert(offsets@.contains(offsets@[j]));
                let m = choose|m: int| 0 <= m < u@.len() && u@[m] == offsets@[j];
                if m < last {
                    assert(u@[m] < u@[last]);
                }
            }
        }
        let ro = rec_offsets(records@);
        assert(ro =~= u@);
    }
    Ok(KmorphDic { records })
}

/// Record offsets increase strictly and fit in 32 bits.
pub open spec fn kd_wf(recs: Seq<KmorphDicRecord>) -> bool {
    &&& forall|a: int, b: int| 0 <= a < b < recs.len() ==> (#[trigger] recs[a]).offset < (#[trigger] recs[b]).offset
    &&& forall|k: int| 0 <= k < recs.len() ==> (#[trigger] recs[k]).offset <= u32::MAX
}

impl<'a> KmorphDic<'a> {
    /// The entry at `offset`.
    pub fn record_at(&self, offset: u32) -> (r: Option<&KmorphDicRecord<'a>>)
        requires
            kd_wf(self.records@),
        ensures
            r matches Some(x) ==> x.offset == offset && exists|i: int| 0 <= i < self.records@.len() && self.records@[i] == *x,
            r is None ==> forall|i: int| 0 <= i < self.records@.len() ==> (#[trigger] self.records@[i]).offset != offset,
    {
        let off = offset as usize;
        let mut lo: usize = 0;
        let mut hi: usize = self.records.len();
        while lo < hi
            invariant
                0 <= lo <= hi <= self.records@.len(),
                off == offset,
                kd_wf(self.records@),
                forall|i: int| 0 <= i < lo ==> (#[trigger] self.records@[i]).offset < off,
                forall|i: int| hi <= i < self.records@.len() ==> (#[trigger] self.records@[i]).offset > off,
            decreases hi - lo,
        {
            let mid = lo + (hi - lo) / 2;
            let o = self.records[mid].offset;
            if o == off {
                return Some(&self.records[mid]);
            } else if o < off {
                proof {
                    assert forall|i: int| 0 <= i < mid + 1 implies (#[trigger] self.records@[i]).offset < off by {
                        if i < mid {
                            assert(self.records@[i].offset < self.records@[mid as int].offset);
                        }
                    }
                }
                lo = mid + 1;
            } else {
                proof {
                    assert forall|i: int| mid <= i < self.records@.len() implies (#[trigger] self.records@[i]).offset > off by {
                        if i > mid {
                            assert(self.records@[mid as int].offset < self.records@[i].offset);
                        }
                    }
                }
                hi = mid;
            }
        }
        None
    }
}

/// The three files of the morpheme dictionary, checked to agree.
#[derive(Debug)]
pub struct KmorphDict<'a> {
    pub hash: KmorphHashDic<'a>,
    pub dic: KmorphDic<'a>,
}

/// The entry offsets of the records at `starts`, one record after another.
pub open spec fn flat_offsets(d: Seq<u8>, starts: Seq<int>) -> Seq<u32>
    decreases starts.len(),
{
    if starts.len() == 0 {
        Seq::empty()
    } else {
        flat_offsets(d, starts.drop_last()) + words_at(
            d,
            kh_offs(d, starts.last()),
            kh_nk(d, starts.last()),
        )
    }
}

/// Every used bucket points at a record start.
pub open spec fn buckets_known(b: Seq<u32>, starts: Seq<int>) -> bool {
    forall|h: int| 0 <= h < b.len() && (#[trigger] b[h]) != 0 ==> starts.contains(b[h] - 1)
}

/// Record `k` has a key, and its first key hashes to a bucket that points back at it.
pub open spec fn record_hashed(d: Seq<u8>, b: Seq<u32>, starts: Seq<int>, k: int) -> bool {
    kh_nk(d, starts[k]) > 0 && b[key_hash(kh_key(d, starts[k], 0))] == starts[k] + 1
}

/// The three files parse and agree.
pub open spec fn kmorph_ok(hb: Seq<u8>, hd: Seq<u8>, dic: Seq<u8>) -> bool {
    let b = words_at(hb, 0, KMORPH_HASH_BUCKETS as int);
    let starts = kh_chain(hd, 0)->0;
    &&& hb.len() == KMORPH_HASH_BUCKETS * 4
    &&& kh_chain(hd, 0) is Some
    &&& buckets_known(b, starts)
    &&& forall|k: int| 0 <= k < starts.len() ==> #[trigger] record_hashed(hd, b, starts, k)
    &&& kd_all_ok(dic, flat_offsets(hd, starts))
}

/// Both record tables are ordered as lookups need.
pub open spec fn dict_wf(x: KmorphDict) -> bool {
    kh_wf(x.hash.records@) && kd_wf(x.dic.records@)
}

/// The dictionary read from the three files: the buckets of the bucket file; one hash
/// record per record of the hash chain file, each as that file has it; and the entries of
/// the entry file at the offsets those records list, in offset order, each as that file
/// has it.
pub open spec fn kmorph_matches(x: KmorphDict, hb: Seq<u8>, hd: Seq<u8>, dic: Seq<u8>) -> bool {
    let starts = kh_chain(hd, 0)->0;
    &&& dict_wf(x)
    &&& x.hash.buckets@ == words_at(hb, 0, KMORPH_HASH_BUCKETS as int)
    &&& x.hash.records@.len() == starts.len()
    &&& forall|k: int| 0 <= k < starts.len() ==> kh_record_matches(#[trigger] x.hash.records@[k], hd, starts[k])
    &&& dic_parsed(x.dic, dic, flat_offsets(hd, starts))
}

/// Parses and cross-checks the three files.
pub fn parse<'a>(hash_bin: &'a [u8], hash_dic: &'a [u8], dic: &'a [u8]) -> (r: DictResult<KmorphDict<'a>>)
    requires
        hash_dic@.len() <= u32::MAX + 1,
    ensures
        r is Ok <==> kmorph_ok(hash_bin@, hash_dic@, dic@),
        r matches Ok(x) ==> kmorph_matches(x, hash_bin@, hash_dic@, dic@),
{
    let ghost hd = hash_dic@;
    let buckets = match parse_hash_bin(hash_bin) {
        Ok(b) => b,
        Err(e) => {
            return Err(e);
        },
    };
    let mut hash = match parse_hash_dic(hash_dic) {
        Ok(h) => h,
        Err(e) => {
            return Err(e);
        },
    };
    hash.buckets = buckets;
    let ghost b = hash.buckets@;
    let ghost starts = kh_chain(hd, 0)->0;
    proof {
        lemma_kh_chain_bounds(hd, 0);
    }
    let n = hash.records.len();
    let mut h: usize = 0;
    while h < hash.buckets.len()
        invariant
            hd == hash_dic@,
            b == hash.buckets@,
            b.len() == KMORPH_HASH_BUCKETS,
            starts == kh_chain(hd, 0)->0,
            n == hash.records@.len() == starts.len(),
            forall|k: int| 0 <= k < n ==> kh_record_matches(#[trigger] hash.records@[k], hd, starts[k]),
            forall|a: int, c: int| 0 <= a < c < starts.len() ==> starts[a] < starts[c],
            hash_bin@.len() == KMORPH_HASH_BUCKETS * 4,
            b == words_at(hash_bin@, 0, KMORPH_HASH_BUCKETS as int),
            kh_chain(hd, 0) is Some,
            h <= b.len(),
            forall|g: int| 0 <= g < h && (#[trigger] b[g]) != 0 ==> starts.contains(b[g] - 1),
        decreases b.len() - h,
    {
        let v = hash.buckets[h];
        if v != 0 {
            let mut found = false;
            let mut k: usize = 0;
            while k < n
                invariant
                    n == hash.records@.len() == starts.len(),
                    forall|q: int| 0 <= q < n ==> kh_record_matches(#[trigger] hash.records@[q], hd, starts[q]),
                    v != 0,
                    k <= n,
                    found ==> starts.contains(v - 1),
                    !found ==> forall|q: int| 0 <= q < k ==> starts[q] != v - 1,
                decreases n - k,
            {
                if hash.records[k].offset == (v - 1) as usize {
                    found = true;
                    proof {
                        assert(starts[k as int] == v - 1);
                    }
                }
                k = k + 1;
            }
            if !found {
                proof {
                    if starts.contains(v - 1) {
                        let q = choose|q: int| 0 <= q < starts.len() && starts[q] == v - 1;
                        assert(starts[q] != v - 1);
                    }
                    assert(b[h as int] == v);
                    assert(!buckets_known(b, starts));
                    assert(!kmorph_ok(hash_bin@, hash_dic@, dic@));
                }
                return Err(DictError::new("bucket value does not match a record start", h * 4));
            }
        }
        h = h + 1;
    }
    let mut k: usize = 0;
    while k < n
        invariant
            hd == hash_dic@,
            b == hash.buckets@,
            b.len() == KMORPH_HASH_BUCKETS,
            starts == kh_chain(hd, 0)->0,
            hash_bin@.len() == KMORPH_HASH_BUCKETS * 4,
            b == words_at(hash_bin@, 0, KMORPH_HASH_BUCKETS as int),
            kh_chain(hd, 0) is Some,
            buckets_known(b, starts),
            n == hash.records@.len() == starts.len(),
            forall|q: int| 0 <= q < n ==> kh_record_matches(#[trigger] hash.records@[q], hd, starts[q]),
            k <= n,
            forall|j: int| 0 <= j < k ==> #[trigger] record_hashed(hd, b, starts, j),
        decreases n - k,
    {
        let rec = &hash.records[k];
        proof {
            assert(kh_record_matches(hash.records@[k as int], hd, starts[k as int]));
        }
        if rec.keys.len() == 0 {
            proof {
                assert(!record_hashed(hd, b, starts, k as int));
                assert(!kmorph_ok(hash_bin@, hash_dic@, dic@));
            }
            return Err(DictError::new("hash record without keys", rec.offset));
        }
        let g = get_hash_value(rec.keys[0]);
        let bv = hash.buckets[g] as usize;
        if bv == 0 || bv - 1 != rec.offset {
            proof {
                assert(rec.keys@[0]@ == kh_key(hd, starts[k as int], 0));
                assert(!record_hashed(hd, b, starts, k as int));
                assert(!kmorph_ok(hash_bin@, hash_dic@, dic@));
            }
            return Err(DictError::new("first key does not hash to its record", rec.offset));
        }
        k = k + 1;
    }
    let mut offsets: Vec<u32> = Vec::new();
    let mut k: usize = 0;
    while k < n
        invariant
            starts == kh_chain(hd, 0)->0,
            n == hash.records@.len() == starts.len(),
            forall|q: int| 0 <= q < n ==> kh_record_matches(#[trigger] hash.records@[q], hd, starts[q]),
            k <= n,
            offsets@ == flat_offsets(hd, starts.subrange(0, k as int)),
        decreases n - k,
    {
        let rec = &hash.records[k];
        let ghost before = offsets@;
        let mut t: usize = 0;
        while t < rec.dic_offsets.len()
            invariant
                t <= rec.dic_offsets@.len(),
                offsets@ == before + rec.dic_offsets@.subrange(0, t as int),
            decreases rec.dic_offsets@.len() - t,
        {
            offsets.push(rec.dic_offsets[t]);
            t = t + 1;
            assert(offsets@ =~= before + rec.dic_offsets@.subrange(0, t as int));
        }
        proof {
            assert(rec.dic_offsets@.subrange(0, t as int) =~= rec.dic_offsets@);
            assert(kh_record_matches(hash.records@[k as int], hd, starts[k as int]));
            assert(starts.subrange(0, k + 1).drop_last() =~= starts.subrange(0, k as int));
        }
        k = k + 1;
    }
    proof {
        assert(starts.subrange(0, n as int) =~= starts);
    }
    let d = match parse_dic(dic, offsets.as_slice()) {
        Ok(d) => d,
        Err(e) => {
            return Err(e);
        },
    };
    let x = KmorphDict { hash, dic: d };
    proof {
        assert forall|a: int, c: int| 0 <= a < c < x.hash.records@.len() implies (#[trigger] x.hash.records@[a]).offset < (#[trigger] x.hash.records@[c]).offset by {
            assert(kh_record_matches(x.hash.records@[a], hd, starts[a]));
            assert(kh_record_matches(x.hash.records@[c], hd, starts[c]));
        }
        assert forall|q: int| 0 <= q < x.hash.records@.len() implies (#[trigger] x.hash.records@[q]).dic_offsets@.len() >= x.hash.records@[q].keys@.len() by {
            assert(kh_record_matches(x.hash.records@[q], hd, starts[q]));
        }
    }
    Ok(x)
}

/// What looking up `key` finds: the entry at the offset the key dictionary gives.
impl<'a> KmorphDict<'a> {
    pub fn lookup(&self, key: &[u8]) -> (r: Option<&KmorphDicRecord<'a>>)
        requires
            dict_wf(*self),
        ensures
            match kh_lookup(self.hash.buckets@, self.hash.records@, key@) {
                None => r is None,
                Some(o) => (r matches Some(x) ==> x.offset == o && exists|i: int|
                    0 <= i < self.dic.records@.len() && self.dic.records@[i] == *x) && (r is None
                    ==> forall|i: int|
                    0 <= i < self.dic.records@.len() ==> (#[trigger] self.dic.records@[i]).offset != o),
            },
    {
        match self.hash.lookup(key) {
            Some(o) => self.dic.record_at(o),
            None => None,
        }
    }
}

/// Law: an offset at or past the end of the data makes the entry file fail; a parsed entry
/// file holds, for each entry, its text and as many items as its count byte says; it is
/// empty exactly when the data is, and otherwise its last entry ends where the data ends.
pub proof fn law_parse_dic(x: KmorphDic, d: Seq<u8>, offs: Seq<u32>)
    ensures
        (exists|i: int| 0 <= i < offs.len() && offs[i] >= d.len()) ==> !kd_all_ok(d, offs),
        kd_all_ok(d, offs) && dic_parsed(x, d, offs) ==> {
            &&& forall|k: int|
                0 <= k < x.records@.len() ==> (#[trigger] x.records@[k]).text@.len() == kd_tl(
                    d,
                    x.records@[k].offset as int,
                ) && x.records@[k].items@.len() == kd_ni(d, x.records@[k].offset as int)
            &&& x.records@.len() == 0 <==> d.len() == 0
            &&& x.records@.len() > 0 ==> kd_end(d, x.records@.last().offset as int) == d.len()
        },
{
    if exists|i: int| 0 <= i < offs.len() && offs[i] >= d.len() {
        let i = choose|i: int| 0 <= i < offs.len() && offs[i] >= d.len();
        if kd_all_ok(d, offs) {
            assert(kd_ok(d, offs[i] as int));
        }
    }
    if kd_all_ok(d, offs) && dic_parsed(x, d, offs) {
        let rs = x.records@;
        assert forall|k: int| 0 <= k < rs.len() implies (#[trigger] rs[k]).text@.len() == kd_tl(
            d,
            rs[k].offset as int,
        ) && rs[k].items@.len() == kd_ni(d, rs[k].offset as int) by {
            assert(kd_matches(rs[k], d));
            let o = rs[k].offset as int;
            assert(rec_offsets(rs)[k] == rs[k].offset as u32);
            assert(rec_offsets(rs).contains(rs[k].offset as u32));
            assert(offs.contains(rs[k].offset as u32));
            let i = choose|i: int| 0 <= i < offs.len() && offs[i] == rs[k].offset as u32;
            assert(kd_ok(d, offs[i] as int));
        }
        if rs.len() == 0 {
            if offs.len() > 0 {
                assert(offs.contains(offs[0]));
                assert(rec_offsets(rs).contains(offs[0]));
            }
        } else {
            let last = rs.len() - 1;
            assert(rec_offsets(rs)[last] == rs[last].offset as u32);
            assert(rec_offsets(rs).contains(rs[last].offset as u32));
            assert(offs.len() > 0);
            let i = choose|i: int|
                0 <= i < offs.len() && (forall|j: int| 0 <= j < offs.len() ==> offs[j] <= #[trigger] offs[i])
                    && kd_end(d, offs[i] as int) == d.len();
            assert(offs.contains(offs[i]));
            assert(rec_offsets(rs).contains(offs[i]));
            let m = choose|m: int| 0 <= m < rs.len() && rec_offsets(rs)[m] == offs[i];
            let j = choose|j: int| 0 <= j < offs.len() && offs[j] == rs[last].offset as u32;
            assert(offs[j] <= offs[i]);
            if m < last {
                assert(rs[m].offset < rs[last].offset);
            }
            assert(rs[m].offset == rs[last].offset);
            assert(kd_ok(d, offs[i] as int));
            if d.len() == 0 {
                assert(false);
            }
        }
    }
}

} // verus!
