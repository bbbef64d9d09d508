//! The synthesis database: the unit index of phone records, the PCM and pitch-mark
//! files they point into, the group index and the triangular distance tables.
use vstd::prelude::*;
use crate::common::{DictError, DictResult, le16, le32, get_le16, get_le32, slice_range, to_i8};

verus! {

/// Size of one phone record in the index.
pub const SPHONEDICT_SIZE: usize = 120;

/// Number of phones of a record.
pub const PHONE_NUM: usize = 5;

/// One phone record: which file and mode, where its PCM and pitch marks lie, its phones
/// and their energy/pitch classes, and the cepstra at its start and end (kept as the bit
/// patterns of their IEEE single values).
#[derive(Debug, Clone, Copy, PartialEq, Eq)]
pub struct PhoneDict {
    pub ch_dict_file_id: i8,
    pub ch_phone_mode: i8,
    pub w_pcm_size: u16,
    pub n_pcm_start: u32,
    pub phones: [u8; 5],
    pub energy_pitch: [u8; 5],
    pub w_upm_size: u16,
    pub n_upm_start: u32,
    pub sr_start_cepstrum: [u32; 12],
    pub sr_end_cepstrum: [u32; 12],
}

/// The record at offset `p` of the index holds these fields.
pub open spec fn phonedict_matches(r: PhoneDict, d: Seq<u8>, p: int) -> bool {
    &&& r.ch_dict_file_id as int == crate::common::signed8(d[p] as int)
    &&& r.ch_phone_mode as int == crate::common::signed8(d[p + 1] as int)
    &&& r.w_pcm_size as int == le16(d, p + 2)
    &&& r.n_pcm_start as int == le32(d, p + 4)
    &&& r.phones@ == d.subrange(p + 8, p + 13)
    &&& r.energy_pitch@ == d.subrange(p + 13, p + 18)
    &&& r.w_upm_size as int == le16(d, p + 18)
    &&& r.n_upm_start as int == le32(d, p + 20)
    &&& forall|k: int| 0 <= k < 12 ==> #[trigger] r.sr_start_cepstrum@[k] as int == le32(d, p + 24 + 4 * k)
    &&& forall|k: int| 0 <= k < 12 ==> #[trigger] r.sr_end_cepstrum@[k] as int == le32(d, p + 72 + 4 * k)
}

fn read5(data: &[u8], p: usize) -> (r: [u8; 5])
    requires
        p + 5 <= data@.len(),
    ensures
        r@ == data@.subrange(p as int, p + 5),
{
    let r = [data[p], data[p + 1], data[p + 2], data[p + 3], data[p + 4]];
    proof {
        assert(r@ =~= data@.subrange(p as int, p + 5));
    }
    r
}

fn read12(data: &[u8], p: usize) -> (r: [u32; 12])
    requires
        p + 48 <= data@.len(),
    ensures
        forall|k: int| 0 <= k < 12 ==> #[trigger] r@[k] as int == le32(data@, p + 4 * k),
{
    let mut r = [0u32; 12];
    let mut k: usize = 0;
    while k < 12
        invariant
            p + 48 <= data.len(),
            k <= 12,
            forall|j: int| 0 <= j < k ==> #[trigger] r@[j] as int == le32(data@, p + 4 * j),
        decreases 12 - k,
    {
        r.set(k, get_le32(data, p + 4 * k));
        k = k + 1;
    }
    r
}

/// Reads the phone record at offset `p`.
pub fn parse_phonedict(data: &[u8], p: usize) -> (r: PhoneDict)
    requires
        p + SPHONEDICT_SIZE <= data@.len(),
    ensures
        phonedict_matches(r, data@, p as int),
{
    PhoneDict {
        ch_dict_file_id: to_i8(data[p]),
        ch_phone_mode: to_i8(data[p + 1]),
        w_pcm_size: get_le16(data, p + 2),
        n_pcm_start: get_le32(data, p + 4),
        phones: read5(data, p + 8),
        energy_pitch: read5(data, p + 13),
        w_upm_size: get_le16(data, p + 18),
        n_upm_start: get_le32(data, p + 20),
        sr_start_cepstrum: read12(data, p + 24),
        sr_end_cepstrum: read12(data, p + 72),
    }
}

impl PhoneDict {
    /// Where the record's samples lie in the PCM file: (start, end).
    pub fn pcm_range(&self) -> (r: (usize, usize))
        requires
            self.n_pcm_start + self.w_pcm_size <= usize::MAX,
        ensures
            r == (self.n_pcm_start as usize, (self.n_pcm_start + self.w_pcm_size) as usize),
    {
        (self.n_pcm_start as usize, self.n_pcm_start as usize + self.w_pcm_size as usize)
    }

    /// Where the record's pitch marks lie in the mark file: (start, end).
    pub fn upm_range(&self) -> (r: (usize, usize))
        requires
            self.n_upm_start + self.w_upm_size <= usize::MAX,
        ensures
            r == (self.n_upm_start as usize, (self.n_upm_start + self.w_upm_size) as usize),
    {
        (self.n_upm_start as usize, self.n_upm_start as usize + self.w_upm_size as usize)
    }
}

/// A synthesis unit and its records.
#[derive(Debug, Clone, PartialEq, Eq)]
pub struct SynthUnit {
    pub unit_no: u16,
    pub records: Vec<PhoneDict>,
}

/// The synthesis index: its units in order, and the number of records in all.
#[derive(Debug, Clone, PartialEq, Eq)]
pub struct SynthIdx {
    pub units: Vec<SynthUnit>,
    pub record_count: usize,
}

/// Where unit `i` of the index starts.
pub open spec fn unit_start(d: Seq<u8>, i: int) -> int
    decreases i,
{
    if i <= 0 {
        2
    } else {
        let s = unit_start(d, i - 1);
        s + 4 + 120 * le16(d, s + 2)
    }
}

/// Units `i..n` are well formed (each numbered in turn, with its records whole) and end
/// exactly at the end of the index.
pub open spec fn units_ok(d: Seq<u8>, i: int, n: int) -> bool
    decreases n - i,
{
    if i >= n {
        unit_start(d, i) == d.len()
    } else {
        let s = unit_start(d, i);
        &&& s + 4 <= d.len()
        &&& le16(d, s) == i
        &&& s + 4 + 120 * le16(d, s + 2) <= d.len()
        &&& units_ok(d, i + 1, n)
    }
}

/// The index parses: a unit count, then that many units, with nothing after them.
pub open spec fn idx_ok(d: Seq<u8>) -> bool {
    d.len() >= 2 && units_ok(d, 0, le16(d, 0))
}

/// Units `i..n` fit so far: each header and its records lie within the data.
pub open spec fn units_fit(d: Seq<u8>, i: int) -> bool {
    forall|j: int| 0 <= j < i ==> #[trigger] unit_start(d, j) + 4 + 120 * le16(d, unit_start(d, j) + 2) <= d.len() && le16(d, unit_start(d, j)) == j
}

proof fn lemma_units_ok_split(d: Seq<u8>, i: int, n: int)
    requires
        0 <= i <= n,
        units_fit(d, i),
    ensures
        units_ok(d, 0, n) == units_ok(d, i, n),
    decreases i,
{
    if i > 0 {
        lemma_units_ok_split(d, i - 1, n);
        let s = unit_start(d, i - 1);
        assert(unit_start(d, i) == s + 4 + 120 * le16(d, s + 2));
        assert(units_fit(d, i - 1));
    }
}

/// Parses the synthesis index.
pub fn parse_idx(data: &[u8]) -> (r: DictResult<SynthIdx>)
    ensures
        r is Ok <==> idx_ok(data@),
        r matches Ok(x) ==> 120 * x.record_count + 4 * le16(data@, 0) + 2 == data@.len(),
        r matches Ok(x) ==> x.units@.len() == le16(data@, 0) && forall|i: int|
            0 <= i < x.units@.len() ==> #[trigger] x.units@[i].unit_no == i && x.units@[i].records@.len()
                == le16(data@, unit_start(data@, i) + 2) && forall|j: int|
                0 <= j < x.units@[i].records@.len() ==> phonedict_matches(
                    #[trigger] x.units@[i].records@[j],
                    data@,
                    unit_start(data@, i) + 4 + 120 * j,
                ),
{
    let len = data.len();
    if len < 2 {
        return Err(DictError::new("synth.idx truncated", 0));
    }
    let n = get_le16(data, 0) as usize;
    let mut units: Vec<SynthUnit> = Vec::new();
    let mut record_count: usize = 0;
    let mut p: usize = 2;
    let mut i: usize = 0;
    while i < n
        invariant
            len == data@.len(),
            n == le16(data@, 0),
            i <= n,
            p as int == unit_start(data@, i as int),
            p <= len,
            units_fit(data@, i as int),
            units@.len() == i,
            120 * record_count + 4 * i + 2 == p,
            forall|u: int|
                0 <= u < i ==> #[trigger] units@[u].unit_no == u && units@[u].records@.len() == le16(
                    data@,
                    unit_start(data@, u) + 2,
                ) && forall|j: int|
                    0 <= j < units@[u].records@.len() ==> phonedict_matches(
                        #[trigger] units@[u].records@[j],
                        data@,
                        unit_start(data@, u) + 4 + 120 * j,
                    ),
        decreases n - i,
    {
        if len - p < 4 {
            proof {
                lemma_units_ok_split(data@, i as int, n as int);
            }
            return Err(DictError::new("synth.idx truncated", p));
        }
        let no = get_le16(data, p);
        if no as usize != i {
            proof {
                lemma_units_ok_split(data@, i as int, n as int);
            }
            return Err(DictError::new("unitNo sequence violation", p));
        }
        let cnt = get_le16(data, p + 2) as usize;
        if (len - p - 4) / 120 < cnt {
            proof {
                lemma_units_ok_split(data@, i as int, n as int);
            }
            return Err(DictError::new("synth.idx truncated", p + 4));
        }
        let mut records: Vec<PhoneDict> = Vec::new();
        let mut j: usize = 0;
        while j < cnt
            invariant
                len == data@.len(),
                p + 4 + 120 * cnt <= len,
                j <= cnt,
                records@.len() == j,
                forall|k: int| 0 <= k < j ==> phonedict_matches(#[trigger] records@[k], data@, p + 4 + 120 * k),
            decreases cnt - j,
        {
            records.push(parse_phonedict(data, p + 4 + 120 * j));
            j = j + 1;
        }
        units.push(SynthUnit { unit_no: no, records });
        record_count = record_count + cnt;
        proof {
            assert(unit_start(data@, i + 1) == p + 4 + 120 * cnt);
            assert forall|u: int| 0 <= u < i + 1 implies #[trigger] unit_start(data@, u) + 4 + 120 * le16(
                data@,
                unit_start(data@, u) + 2,
            ) <= data@.len() && le16(data@, unit_start(data@, u)) == u by {
                if u < i {
                    assert(units_fit(data@, i as int));
                }
            }
        }
        p = p + 4 + 120 * cnt;
        i = i + 1;
    }
    proof {
        lemma_units_ok_split(data@, n as int, n as int);
        lemma_units_ok_split(data@, n as int, n as int);
    }
    if p != len {
        proof {
            lemma_units_ok_split(data@, n as int, n as int);
        }
        return Err(DictError::new("synth.idx full consumption failed", p));
    }
    Ok(SynthIdx { units, record_count })
}

impl SynthIdx {
    /// All records, unit by unit.
    pub fn records(&self) -> (r: Vec<PhoneDict>)
        ensures
            r@ == self.units@.map_values(|u: SynthUnit| u.records@).flatten(),
    {
        let mut out: Vec<PhoneDict> = Vec::new();
        let mut i: usize = 0;
        while i < self.units.len()
            invariant
                i <= self.units@.len(),
                out@ == self.units@.subrange(0, i as int).map_values(|u: SynthUnit| u.records@).flatten(),
            decreases self.units@.len() - i,
        {
            let recs = &self.units[i].records;
            let ghost before = out@;
            let mut j: usize = 0;
            while j < recs.len()
                invariant
                    j <= recs@.len(),
                    out@ == before + recs@.subrange(0, j as int),
                decreases recs@.len() - j,
            {
                out.push(recs[j]);
                j = j + 1;
                proof {
                    assert(out@ =~= before + recs@.subrange(0, j as int));
                }
            }
            proof {
                assert(recs@.subrange(0, recs@.len() as int) =~= recs@);
                let s = self.units@.subrange(0, i + 1).map_values(|u: SynthUnit| u.records@);
                assert(s =~= self.units@.subrange(0, i as int).map_values(|u: SynthUnit| u.records@).push(recs@));
                s.lemma_flatten_push(recs@);
                assert(self.units@.subrange(0, i as int).map_values(|u: SynthUnit| u.records@).push(recs@).flatten() == before + recs@) by {
                    self.units@.subrange(0, i as int).map_values(|u: SynthUnit| u.records@).lemma_flatten_push(recs@);
                }
            }
            i = i + 1;
        }
        proof {
            assert(self.units@.subrange(0, self.units@.len() as int) =~= self.units@);
        }
        out
    }
}

/// The PCM file: 8-bit companded samples.
#[derive(Debug, Clone, PartialEq, Eq)]
pub struct PcmFile<'a> {
    pub data: &'a [u8],
}

/// The bytes `[s, s + n)` of a file, if they lie within it.
pub open spec fn file_segment(d: Seq<u8>, s: int, n: int) -> Option<Seq<u8>> {
    if s + n <= d.len() {
        Some(d.subrange(s, s + n))
    } else {
        None
    }
}

fn segment_of<'a>(data: &'a [u8], start: u32, size: u16) -> (r: DictResult<&'a [u8]>)
    ensures
        match file_segment(data@, start as int, size as int) {
            Some(s) => r matches Ok(x) && x@ == s,
            None => r is Err,
        },
{
    let s = start as usize;
    let n = size as usize;
    if s > data.len() || n > data.len() - s {
        return Err(DictError::new("segment out of range", s));
    }
    Ok(slice_range(data, s, s + n))
}

impl<'a> PcmFile<'a> {
    /// Size of the file.
    pub fn byte_len(&self) -> (n: usize)
        ensures
            n == self.data@.len(),
    {
        self.data.len()
    }

    /// The samples of a record; an error where they lie past the end of the file.
    pub fn segment(&self, rec: &PhoneDict) -> (r: DictResult<&'a [u8]>)
        ensures
            match file_segment(self.data@, rec.n_pcm_start as int, rec.w_pcm_size as int) {
                Some(s) => r matches Ok(x) && x@ == s,
                None => r is Err,
            },
    {
        segment_of(self.data, rec.n_pcm_start, rec.w_pcm_size)
    }
}

/// Wraps the PCM file.
pub fn parse_pcm<'a>(data: &'a [u8]) -> (r: DictResult<PcmFile<'a>>)
    ensures
        r matches Ok(f) && f.data@ == data@,
{
    Ok(PcmFile { data })
}

/// The 16-bit sample of an 8-bit mu-law code: the complement of the code gives a 4-bit
/// mantissa and a 3-bit exponent, and the sign bit the sign.
pub open spec fn uraw_sample(n: i8) -> i16 {
    let inv: i32 = !(n as i32);
    let low: i32 = inv & 0xf;
    let shift: u32 = ((inv as u32) >> 4u32) & 7;
    let m: i32 = (low * 8 + 0x84) as i32;
    let s: i16 = (m << shift) as i16;
    if n < 0 {
        (s - 0x84) as i16
    } else {
        (0x84 - s) as i16
    }
}

/// Decodes an 8-bit mu-law code to a 16-bit sample.
pub fn uraw_to_pcm(n: i8) -> (r: i16)
    ensures
        r == uraw_sample(n),
{
    let inv: i32 = !(n as i32);
    let low: i32 = inv & 0xf;
    let shift: u32 = ((inv as u32) >> 4u32) & 7;
    assert(0 <= low <= 15) by (bit_vector)
        requires
            low == inv & 0xf,
    ;
    assert(shift < 8) by (bit_vector)
        requires
            shift == ((inv as u32) >> 4u32) & 7,
    ;
    let m: i32 = low * 8 + 0x84;
    assert(0x84 <= (m << shift) <= 0xfc * 128) by (bit_vector)
        requires
            0x84 <= m <= 0xfc,
            shift < 8,
    ;
    let s: i16 = (m << shift) as i16;
    if n < 0 {
        s - 0x84
    } else {
        0x84 - s
    }
}

/// A pitch mark: its sample offset within the record, and the pitch classes of it and
/// the next mark.
#[derive(Debug, Clone, Copy, PartialEq, Eq)]
pub struct UpmMark {
    pub addr: u16,
    pub cur_pitch: u8,
    pub next_pitch: u8,
}

/// The pitch-mark file: per record, mark distances (and, in one mode, a leading pitch).
#[derive(Debug, Clone, PartialEq, Eq)]
pub struct UpmFile<'a> {
    pub data: &'a [u8],
}

/// The marks a record's mark bytes give: in mode 2 the first byte is the first pitch and
/// the distances start at it, otherwise at the second byte (the first pitch); mark `i`
/// lies at the sum of the distances before it (wrapping at 16 bits) and carries its own
/// and the next pitch.
pub open spec fn marks(seg: Seq<u8>, mode: u8) -> Seq<UpmMark> {
    let start: int = if mode == 2 { 0 } else { 1 };
    if seg.len() < 2 || (mode != 2 && seg.len() < 3) {
        Seq::empty()
    } else {
        Seq::new(
            (seg.len() - 1 - start) as nat,
            |i: int|
                UpmMark {
                    addr: mark_addr(seg, start, i),
                    cur_pitch: seg[start + i],
                    next_pitch: seg[start + i + 1],
                },
        )
    }
}

/// The address of mark `i`: the sum of the `i` distances before it, modulo 2^16.
pub open spec fn mark_addr(seg: Seq<u8>, start: int, i: int) -> u16
    decreases i,
{
    if i <= 0 {
        0
    } else {
        ((mark_addr(seg, start, i - 1) + seg[start + i - 1]) % 0x10000) as u16
    }
}

/// Decodes the pitch marks of a record's mark bytes.
pub fn decode_marks(seg: &[u8], mode: u8) -> (r: Vec<UpmMark>)
    ensures
        r@ == marks(seg@, mode),
{
    let mut out: Vec<UpmMark> = Vec::new();
    if seg.len() < 2 {
        return out;
    }
    let start: usize = if mode == 2 { 0 } else { 1 };
    if mode != 2 && seg.len() < 3 {
        return out;
    }
    let w_pitch = seg[start];
    let ghost m = marks(seg@, mode);
    let mut addr: u16 = 0;
    let mut i: usize = 0;
    loop
        invariant_except_break
            start + i + 1 < seg.len(),
            addr == mark_addr(seg@, start as int, i as int),
            i == 0 ==> w_pitch == seg@[start as int],
        invariant
            start == if mode == 2 { 0usize } else { 1usize },
            seg@.len() >= start + 2,
            m == marks(seg@, mode),
            out@.len() == i,
            forall|k: int| 0 <= k < i ==> #[trigger] out@[k] == m[k],
        ensures
            out@.len() == seg@.len() - 1 - start,
        decreases seg@.len() - i,
    {
        let cur = if i == 0 { w_pitch } else { out[i - 1].next_pitch };
        let d = seg[start + i];
        let next = if start + i + 1 < seg.len() { seg[start + i + 1] } else { 0 };
        proof {
            if i > 0 {
                assert(out@[i - 1] == m[i - 1]);
            }
        }
        out.push(UpmMark { addr, cur_pitch: cur, next_pitch: next });
        i = i + 1;
        if seg.len() - 1 <= start + i {
            break;
        }
        addr = addr.wrapping_add(d as u16);
    }
    proof {
        assert(out@ =~= m);
    }
    out
}

impl<'a> UpmFile<'a> {
    /// Size of the file.
    pub fn byte_len(&self) -> (n: usize)
        ensures
            n == self.data@.len(),
    {
        self.data.len()
    }

    /// The mark bytes of a record; an error where they lie past the end of the file.
    pub fn segment(&self, rec: &PhoneDict) -> (r: DictResult<&'a [u8]>)
        ensures
            match file_segment(self.data@, rec.n_upm_start as int, rec.w_upm_size as int) {
                Some(s) => r matches Ok(x) && x@ == s,
                None => r is Err,
            },
    {
        segment_of(self.data, rec.n_upm_start, rec.w_upm_size)
    }

    /// The running sums of a record's mark bytes.
    pub fn mark_positions(&self, rec: &PhoneDict) -> (r: DictResult<Vec<u32>>)
        ensures
            match file_segment(self.data@, rec.n_upm_start as int, rec.w_upm_size as int) {
                Some(s) => r matches Ok(v) && v@.len() == s.len() && forall|i: int|
                    0 <= i < s.len() ==> #[trigger] v@[i] == prefix_sum(s, i + 1),
                None => r is Err,
            },
    {
        let seg = match self.segment(rec) {
            Ok(s) => s,
            Err(e) => {
                return Err(e);
            },
        };
        let mut pos: u32 = 0;
        let mut out: Vec<u32> = Vec::new();
        let mut i: usize = 0;
        while i < seg.len()
            invariant
                i <= seg@.len() <= 0xffff,
                pos == prefix_sum(seg@, i as int),
                pos <= 255 * i,
                out@.len() == i,
                forall|k: int| 0 <= k < i ==> #[trigger] out@[k] == prefix_sum(seg@, k + 1),
            decreases seg@.len() - i,
        {
            pos = pos + seg[i] as u32;
            out.push(pos);
            i = i + 1;
        }
        Ok(out)
    }

    /// Decodes the marks of a record in the given mode.
    pub fn decode_marks(&self, rec: &PhoneDict, mode: u8) -> (r: DictResult<Vec<UpmMark>>)
        ensures
            match file_segment(self.data@, rec.n_upm_start as int, rec.w_upm_size as int) {
                Some(s) => r matches Ok(v) && v@ == marks(s, mode),
                None => r is Err,
            },
    {
        match self.segment(rec) {
            Ok(seg) => Ok(decode_marks(seg, mode)),
            Err(e) => Err(e),
        }
    }
}

/// The sum of the first `n` bytes.
pub open spec fn prefix_sum(s: Seq<u8>, n: int) -> int
    decreases n,
{
    if n <= 0 {
        0
    } else {
        prefix_sum(s, n - 1) + s[n - 1]
    }
}

/// Wraps the pitch-mark file.
pub fn parse_upm<'a>(data: &'a [u8]) -> (r: DictResult<UpmFile<'a>>)
    ensures
        r matches Ok(f) && f.data@ == data@,
{
    Ok(UpmFile { data })
}

/// A group of phones.
#[derive(Debug, Clone, PartialEq, Eq)]
pub struct SynthGroup {
    pub group_no: u16,
    pub phones: Vec<u16>,
}

/// The group index.
#[derive(Debug, Clone, PartialEq, Eq)]
pub struct SynthGroupIdx {
    pub groups: Vec<SynthGroup>,
}

/// Where group `i` of the group index starts.
pub open spec fn group_start(d: Seq<u8>, i: int) -> int
    decreases i,
{
    if i <= 0 {
        2
    } else {
        let s = group_start(d, i - 1);
        s + 4 + 2 * le16(d, s + 2)
    }
}

/// Groups `i..n` are well formed (each numbered in turn, with its phones whole) and end
/// exactly at the end of the index.
pub open spec fn groups_ok(d: Seq<u8>, i: int, n: int) -> bool
    decreases n - i,
{
    if i >= n {
        group_start(d, i) == d.len()
    } else {
        let s = group_start(d, i);
        &&& s + 4 <= d.len()
        &&& le16(d, s) == i
        &&& s + 4 + 2 * le16(d, s + 2) <= d.len()
        &&& groups_ok(d, i + 1, n)
    }
}

/// The first `i` groups fit.
pub open spec fn groups_fit(d: Seq<u8>, i: int) -> bool {
    forall|j: int| 0 <= j < i ==> #[trigger] group_start(d, j) + 4 + 2 * le16(d, group_start(d, j) + 2) <= d.len() && le16(d, group_start(d, j)) == j
}

proof fn lemma_groups_ok_split(d: Seq<u8>, i: int, n: int)
    requires
        0 <= i <= n,
        groups_fit(d, i),
    ensures
        groups_ok(d, 0, n) == groups_ok(d, i, n),
    decreases i,
{
    if i > 0 {
        lemma_groups_ok_split(d, i - 1, n);
    }
}

/// Parses the group index: a group count, then per group its number (in turn), a phone
/// count and the phones, with nothing after them.
pub fn parse_group_idx(data: &[u8]) -> (r: DictResult<SynthGroupIdx>)
    ensures
        r is Ok <==> data@.len() >= 2 && groups_ok(data@, 0, le16(data@, 0)),
        r matches Ok(x) ==> x.groups@.len() == le16(data@, 0) && forall|i: int|
            0 <= i < x.groups@.len() ==> #[trigger] x.groups@[i].group_no == i && x.groups@[i].phones@.len()
                == le16(data@, group_start(data@, i) + 2) && forall|j: int|
                0 <= j < x.groups@[i].phones@.len() ==> #[trigger] x.groups@[i].phones@[j] as int == le16(
                    data@,
                    group_start(data@, i) + 4 + 2 * j,
                ),
{
    let len = data.len();
    if len < 2 {
        return Err(DictError::new("synth_group.idx truncated", 0));
    }
    let n = get_le16(data, 0) as usize;
    let mut groups: Vec<SynthGroup> = Vec::new();
    let mut p: usize = 2;
    let mut i: usize = 0;
    while i < n
        invariant
            len == data@.len(),
            n == le16(data@, 0),
            i <= n,
            p as int == group_start(data@, i as int),
            p <= len,
            groups_fit(data@, i as int),
            groups@.len() == i,
            forall|u: int|
                0 <= u < i ==> #[trigger] groups@[u].group_no == u && groups@[u].phones@.len() == le16(
                    data@,
                    group_start(data@, u) + 2,
                ) && forall|j: int|
                    0 <= j < groups@[u].phones@.len() ==> #[trigger] groups@[u].phones@[j] as int == le16(
                        data@,
                        group_start(data@, u) + 4 + 2 * j,
                    ),
        decreases n - i,
    {
        if len - p < 4 {
            proof {
                lemma_groups_ok_split(data@, i as int, n as int);
            }
            return Err(DictError::new("synth_group.idx truncated", p));
        }
        let no = get_le16(data, p);
        if no as usize != i {
            proof {
                lemma_groups_ok_split(data@, i as int, n as int);
            }
            return Err(DictError::new("groupNo sequence violation", p));
        }
        let cnt = get_le16(data, p + 2) as usize;
        if (len - p - 4) / 2 < cnt {
            proof {
                lemma_groups_ok_split(data@, i as int, n as int);
            }
            return Err(DictError::new("synth_group.idx truncated", p + 4));
        }
        let mut phones: Vec<u16> = Vec::new();
        let mut j: usize = 0;
        while j < cnt
            invariant
                len == data@.len(),
                p + 4 + 2 * cnt <= len,
                j <= cnt,
                phones@.len() == j,
                forall|k: int| 0 <= k < j ==> #[trigger] phones@[k] as int == le16(data@, p + 4 + 2 * k),
            decreases cnt - j,
        {
            phones.push(get_le16(data, p + 4 + 2 * j));
            j = j + 1;
        }
        groups.push(SynthGroup { group_no: no, phones });
        proof {
            assert(group_start(data@, i + 1) == p + 4 + 2 * cnt);
            assert forall|u: int| 0 <= u < i + 1 implies #[trigger] group_start(data@, u) + 4 + 2 * le16(
                data@,
                group_start(data@, u) + 2,
            ) <= data@.len() && le16(data@, group_start(data@, u)) == u by {
                if u < i {
                    assert(groups_fit(data@, i as int));
                }
            }
        }
        p = p + 4 + 2 * cnt;
        i = i + 1;
    }
    proof {
        lemma_groups_ok_split(data@, n as int, n as int);
    }
    if p != len {
        return Err(DictError::new("synth_group.idx full consumption failed", p));
    }
    Ok(SynthGroupIdx { groups })
}

/// A lower-triangular table of single-precision values (kept as their bit patterns):
/// row `i` has `i + 1` values.
#[derive(Debug, Clone, PartialEq, Eq)]
pub struct TriangularTable {
    pub n: u16,
    pub rows: Vec<Vec<u32>>,
}

/// The number of values in the first `n` rows.
pub open spec fn tri_count(n: int) -> int {
    n * (n + 1) / 2
}

proof fn lemma_tri_count_step(n: int)
    requires
        n >= 0,
    ensures
        tri_count(n + 1) == tri_count(n) + n + 1,
        tri_count(n) >= 0,
{
    assert(n * (n + 1) / 2 + n + 1 == (n + 1) * (n + 2) / 2) by (nonlinear_arith)
        requires
            n >= 0,
    ;
    assert(n * (n + 1) >= 0) by (nonlinear_arith)
        requires
            n >= 0,
    ;
}

impl TriangularTable {
    /// Number of values in the table.
    pub fn total_floats(&self) -> (n: usize)
        requires
            forall|i: int| 0 <= i < self.rows@.len() ==> (#[trigger] self.rows@[i])@.len() == i + 1,
            tri_count(self.rows@.len() as int) <= usize::MAX,
        ensures
            n == tri_count(self.rows@.len() as int),
    {
        let mut n: usize = 0;
        let mut i: usize = 0;
        while i < self.rows.len()
            invariant
                i <= self.rows@.len(),
                forall|k: int| 0 <= k < self.rows@.len() ==> (#[trigger] self.rows@[k])@.len() == k + 1,
                tri_count(self.rows@.len() as int) <= usize::MAX,
                n == tri_count(i as int),
            decreases self.rows@.len() - i,
        {
            proof {
                lemma_tri_count_step(i as int);
                lemma_tri_mono(i + 1, self.rows@.len() as int);
            }
            n = n + self.rows[i].len();
            i = i + 1;
        }
        n
    }

    /// The value at (`row`, `col`), if there is one.
    pub fn at(&self, row: usize, col: usize) -> (r: Option<u32>)
        ensures
            r == if row < self.rows@.len() && col < self.rows@[row as int]@.len() {
                Some(self.rows@[row as int]@[col as int])
            } else {
                None::<u32>
            },
    {
        if row < self.rows.len() && col < self.rows[row].len() {
            Some(self.rows[row][col])
        } else {
            None
        }
    }
}

proof fn lemma_tri_mono(a: int, b: int)
    requires
        0 <= a <= b,
    ensures
        tri_count(a) <= tri_count(b),
    decreases b - a,
{
    if a < b {
        lemma_tri_mono(a, b - 1);
        lemma_tri_count_step(b - 1);
    }
}

/// Parses a triangular table: a row count `n`, then rows of 1, 2, ..., `n` little-endian
/// single-precision values, with nothing after them.
pub fn parse_triangular_table(data: &[u8]) -> (r: DictResult<TriangularTable>)
    ensures
        r is Ok <==> data@.len() >= 2 && data@.len() == 2 + 4 * tri_count(le16(data@, 0)),
        r matches Ok(t) ==> t.n as int == le16(data@, 0) && t.rows@.len() == t.n && (forall|i: int|
            0 <= i < t.rows@.len() ==> (#[trigger] t.rows@[i])@.len() == i + 1) && forall|i: int, j: int|
            0 <= j <= i < t.rows@.len() ==> #[trigger] t.rows@[i]@[j] as int == le32(data@, 2 + 4 * (tri_count(i) + j)),
{
    let len = data.len();
    if len < 2 {
        return Err(DictError::new("triangular table truncated", 0));
    }
    let n = get_le16(data, 0) as usize;
    let mut rows: Vec<Vec<u32>> = Vec::new();
    let mut p: usize = 2;
    let mut i: usize = 0;
    while i < n
        invariant
            len == data@.len(),
            n == le16(data@, 0),
            i <= n,
            p as int == 2 + 4 * tri_count(i as int),
            p <= len,
            rows@.len() == i,
            forall|a: int| 0 <= a < i ==> (#[trigger] rows@[a])@.len() == a + 1,
            forall|a: int, b: int|
                0 <= b <= a < i ==> #[trigger] rows@[a]@[b] as int == le32(data@, 2 + 4 * (tri_count(a) + b)),
        decreases n - i,
    {
        proof {
            lemma_tri_count_step(i as int);
        }
        if (len - p) / 4 < i + 1 {
            proof {
                lemma_tri_mono(i + 1, n as int);
            }
            return Err(DictError::new("triangular table truncated", p));
        }
        let mut row: Vec<u32> = Vec::new();
        let mut j: usize = 0;
        while j <= i
            invariant
                len == data@.len(),
                p + 4 * (i + 1) <= len,
                p as int == 2 + 4 * tri_count(i as int),
                j <= i + 1,
                row@.len() == j,
                forall|b: int| 0 <= b < j ==> #[trigger] row@[b] as int == le32(data@, 2 + 4 * (tri_count(i as int) + b)),
            decreases i + 1 - j,
        {
            row.push(get_le32(data, p + 4 * j));
            j = j + 1;
        }
        rows.push(row);
        p = p + 4 * (i + 1);
        i = i + 1;
    }
    if p != len {
        return Err(DictError::new("triangular table full consumption failed", p));
    }
    Ok(TriangularTable { n: n as u16, rows })
}

} // verus!
