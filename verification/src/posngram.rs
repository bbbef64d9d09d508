//! Part-of-speech n-gram tables: unigram frequencies, and the trigram search tree.
use vstd::prelude::*;
use crate::common::{DictError, DictResult, le32, le64, get_le32, get_le64};
use crate::wordgram::{Aptree, parse_aptree, aptree_ok, aptree_matches};

verus! {

/// Number of part-of-speech tags (`'0'` to `'o'`).
pub const POS_COUNT: usize = 64;

/// Unigram frequency of each tag.
#[derive(Debug, Clone, Copy)]
pub struct PosUniGram {
    pub freqs: [u32; 64],
}

impl PosUniGram {
    /// Frequency of a tag character; 0 outside `'0'..='o'`.
    pub fn freq(&self, tag: u8) -> (r: u32)
        ensures
            r == if 0x30 <= tag <= 0x6F {
                self.freqs@[tag - 0x30]
            } else {
                0
            },
    {
        if 0x30 <= tag && tag <= 0x6F {
            self.freqs[(tag - 0x30) as usize]
        } else {
            0
        }
    }
}

/// Parses the unigram table: exactly `POS_COUNT` little-endian `u32` values.
/// The unigram table read from `d`: frequency `i` is the `i`-th little-endian `u32`.
pub open spec fn uni_matches(u: PosUniGram, d: Seq<u8>) -> bool {
    forall|i: int| 0 <= i < POS_COUNT ==> #[trigger] u.freqs@[i] == le32(d, 4 * i)
}

/// The bigram table read from `d`: its records in file order, and the matrix holding, for
/// each tag pair, the probability of the last record for that pair (else 0).
pub open spec fn bi_matches(b: PosBigram, d: Seq<u8>) -> bool {
    &&& b.records().len() == le32(d, 0)
    &&& forall|i: int| 0 <= i < b.records().len() ==> #[trigger] b.records()[i] == bi_record(d, i)
    &&& b.cells().len() == POS_COUNT * POS_COUNT
    &&& forall|a: int, c: int|
        0 <= a < 64 && 0 <= c < 64 ==> #[trigger] b.cells()[64 * a + c] == bi_cell(d, le32(d, 0), a, c)
}

pub fn parse_uni(data: &[u8]) -> (r: DictResult<PosUniGram>)
    ensures
        r is Ok <==> data@.len() == POS_COUNT * 4,
        r matches Ok(u) ==> uni_matches(u, data@),
{
    if data.len() != POS_COUNT * 4 {
        return Err(DictError::new("POSUniGram.bin size mismatch", 0));
    }
    let mut freqs = [0u32; 64];
    let mut i: usize = 0;
    while i < POS_COUNT
        invariant
            data@.len() == POS_COUNT * 4,
            i <= POS_COUNT,
            freqs@.len() == POS_COUNT,
            forall|t: int| 0 <= t < i ==> #[trigger] freqs@[t] == le32(data@, 4 * t),
        decreases POS_COUNT - i,
    {
        freqs.set(i, get_le32(data, 4 * i));
        i = i + 1;
    }
    Ok(PosUniGram { freqs })
}

/// The trigram search tree.
#[derive(Debug)]
pub struct PosTrigram<'a> {
    pub aptree: Aptree<'a>,
}

impl<'a> PosTrigram<'a> {
    /// The value of `key`, where the search ends at an entry holding exactly `key`: the bit
    /// pattern of its single-precision probability.
    pub fn lookup_bits(&self, key: &[u8]) -> (r: Option<u32>)
        requires
            crate::wordgram::byte_lookup_defined(self.aptree, key@),
        ensures
            match crate::wordgram::search_value(self.aptree.nodes@, self.aptree.n_tree as int, key@, Seq::empty(), false) {
                Some(i) => if crate::wordgram::byte_key(self.aptree.keys@, self.aptree.info@[i as int].key_offset as int)
                    == key@ {
                    r == Some(self.aptree.info@[i as int].value)
                } else {
                    r is None
                },
                None => r is None,
            },
    {
        match self.aptree.search(key) {
            Some(i) => {
                let k = self.aptree.key_at(i);
                if crate::common::bytes_eq(k, key) {
                    Some(self.aptree.info[i].value)
                } else {
                    None
                }
            },
            None => None,
        }
    }
}

/// Parses the trigram tree: byte keys, 12-byte info entries.
pub fn parse_tri<'a>(data: &'a [u8]) -> (r: DictResult<PosTrigram<'a>>)
    ensures
        r is Ok <==> aptree_ok(data@, 12, false),
        r matches Ok(t) ==> aptree_matches(t.aptree, data@, 12, false),
{
    match parse_aptree(data, 12, false) {
        Ok(aptree) => Ok(PosTrigram { aptree }),
        Err(e) => Err(e),
    }
}

/// A vowel letter of the romanization: one syllable.
pub open spec fn is_vowel_letter(c: u8) -> bool {
    c == 0x61 || c == 0x65 || c == 0x6F || c == 0x75 || c == 0x69 || c == 0x5F || c == 0x38
        || c == 0x39
}

/// A glide letter: one syllable, and the next letter is part of it.
pub open spec fn is_glide_letter(c: u8) -> bool {
    c == 0x79 || c == 0x77
}

/// Syllables counted from position `i` on.
pub open spec fn kchar_from(s: Seq<u8>, i: int) -> int
    decreases s.len() + 1 - i,
{
    if i < 0 || i >= s.len() {
        0
    } else if is_vowel_letter(s[i]) {
        1 + kchar_from(s, i + 1)
    } else if is_glide_letter(s[i]) {
        1 + kchar_from(s, i + 2)
    } else {
        kchar_from(s, i + 1)
    }
}

/// Number of syllables of a romanized word: vowel letters, and glides with the letter
/// after them.
pub fn get_kchar_count(s: &[u8]) -> (n: usize)
    ensures
        n == kchar_from(s@, 0),
{
    let len = s.len();
    let mut n: usize = 0;
    let mut i: usize = 0;
    while i < len
        invariant
            len == s@.len(),
            i <= len,
            n <= i,
            n + kchar_from(s@, i as int) == kchar_from(s@, 0),
        decreases len - i,
    {
        let c = s[i];
        if c == 0x61 || c == 0x65 || c == 0x6F || c == 0x75 || c == 0x69 || c == 0x5F || c == 0x38
            || c == 0x39 {
            n = n + 1;
            i = i + 1;
        } else if c == 0x79 || c == 0x77 {
            proof {
                assert(kchar_from(s@, i as int) == 1 + kchar_from(s@, i + 2));
                if len - i < 2 {
                    assert(kchar_from(s@, i + 2) == 0);
                    assert(kchar_from(s@, len as int) == 0);
                }
            }
            n = n + 1;
            i = if len - i >= 2 {
                i + 2
            } else {
                len
            };
        } else {
            i = i + 1;
        }
    }
    n
}

/// Bigram table: the (tag, tag, probability) records of the file, probabilities kept as
/// the bit patterns of their IEEE double values, and the matrix they fill.
#[derive(Debug)]
pub struct PosBigram {
    pairs: Vec<(u8, u8, u64)>,
    matrix: Vec<u64>,
}

/// The file holds a count and exactly that many 10-byte records.
pub open spec fn bi_ok(d: Seq<u8>) -> bool {
    d.len() >= 4 && d.len() == 4 + 10 * le32(d, 0)
}

/// Record `i` of the bigram file.
pub open spec fn bi_record(d: Seq<u8>, i: int) -> (u8, u8, u64) {
    (d[4 + 10 * i], d[5 + 10 * i], le64(d, 6 + 10 * i) as u64)
}

/// The matrix cell (a, b) after the first `n` records: the probability of the last of
/// them for that tag pair, else 0.
pub open spec fn bi_cell(d: Seq<u8>, n: int, a: int, b: int) -> u64
    decreases n,
{
    if n <= 0 {
        0
    } else if bi_record(d, n - 1).0 as int == a && bi_record(d, n - 1).1 as int == b {
        bi_record(d, n - 1).2
    } else {
        bi_cell(d, n - 1, a, b)
    }
}

impl PosBigram {
    /// The records, in file order.
    pub closed spec fn records(&self) -> Seq<(u8, u8, u64)> {
        self.pairs@
    }

    /// The records, in file order.
    pub fn pairs(&self) -> (r: &[(u8, u8, u64)])
        ensures
            r@ == self.records(),
    {
        self.pairs.as_slice()
    }

    /// The matrix, row by row.
    pub closed spec fn cells(&self) -> Seq<u64> {
        self.matrix@
    }

    #[verifier::type_invariant]
    closed spec fn square(&self) -> bool {
        self.matrix@.len() == POS_COUNT * POS_COUNT
    }

    /// Bit pattern of the bigram probability of tag indices (`tag1`, `tag2`); that of 0.0
    /// outside the table.
    pub fn get_bits(&self, tag1: u8, tag2: u8) -> (r: u64)
        ensures
            r == if tag1 < 64 && tag2 < 64 {
                self.cells()[64 * tag1 + tag2]
            } else {
                0
            },
    {
        proof {
            use_type_invariant(self);
        }
        if tag1 < 64 && tag2 < 64 {
            self.matrix[64 * (tag1 as usize) + (tag2 as usize)]
        } else {
            0
        }
    }

    /// Is the bigram probability of tag indices (`tag1`, `tag2`) zero (either sign).
    pub fn is_zero(&self, tag1: u8, tag2: u8) -> (r: bool)
        ensures
            r == (self.get_bits_spec(tag1, tag2) & 0x7fff_ffff_ffff_ffff == 0),
    {
        let b = self.get_bits(tag1, tag2);
        b & 0x7fff_ffff_ffff_ffff == 0
    }

    /// What `get_bits` returns.
    pub open spec fn get_bits_spec(&self, tag1: u8, tag2: u8) -> u64 {
        if tag1 < 64 && tag2 < 64 {
            self.cells()[64 * tag1 + tag2]
        } else {
            0
        }
    }
}

/// Parses the bigram table: a count, then (tag, tag, little-endian double) records.
pub fn parse_bi(data: &[u8]) -> (r: DictResult<PosBigram>)
    ensures
        r is Ok <==> bi_ok(data@),
        r matches Ok(b) ==> bi_matches(b, data@),
{
    let len = data.len();
    if len < 4 {
        return Err(DictError::new("POSBigram.bin truncated", 0));
    }
    let n = get_le32(data, 0) as usize;
    if (len - 4) / 10 < n {
        return Err(DictError::new("POSBigram.bin truncated", len));
    }
    if len - 4 != 10 * n {
        return Err(DictError::new("POSBigram.bin trailing excess bytes", 4 + 10 * n));
    }
    let mut pairs: Vec<(u8, u8, u64)> = Vec::new();
    let mut matrix: Vec<u64> = Vec::new();
    let mut k: usize = 0;
    while k < POS_COUNT * POS_COUNT
        invariant
            k <= POS_COUNT * POS_COUNT,
            matrix@.len() == k,
            forall|j: int| 0 <= j < k ==> matrix@[j] == 0,
        decreases POS_COUNT * POS_COUNT - k,
    {
        matrix.push(0);
        k = k + 1;
    }
    let mut i: usize = 0;
    while i < n
        invariant
            len == data@.len() == 4 + 10 * n,
            n == le32(data@, 0),
            i <= n,
            pairs@.len() == i,
            forall|j: int| 0 <= j < i ==> #[trigger] pairs@[j] == bi_record(data@, j),
            matrix@.len() == POS_COUNT * POS_COUNT,
            forall|a: int, c: int|
                0 <= a < 64 && 0 <= c < 64 ==> #[trigger] matrix@[64 * a + c] == bi_cell(data@, i as int, a, c),
        decreases n - i,
    {
        let p = 4 + 10 * i;
        let t1 = data[p];
        let t2 = data[p + 1];
        let v = get_le64(data, p + 2);
        if t1 < 64 && t2 < 64 {
            matrix.set(64 * (t1 as usize) + (t2 as usize), v);
        }
        pairs.push((t1, t2, v));
        proof {
            assert forall|a: int, c: int| 0 <= a < 64 && 0 <= c < 64 implies #[trigger] matrix@[64 * a + c]
                == bi_cell(data@, i + 1, a, c) by {
                if t1 < 64 && t2 < 64 && (a != t1 || c != t2) {
                    assert(64 * a + c != 64 * t1 + t2) by (nonlinear_arith)
                        requires
                            0 <= a < 64,
                            0 <= c < 64,
                            0 <= t1 < 64,
                            0 <= t2 < 64,
                            a != t1 || c != t2,
                    ;
                }
            }
        }
        i = i + 1;
    }
    Ok(PosBigram { pairs, matrix })
}

/// The three part-of-speech n-gram tables.
#[derive(Debug)]
pub struct PosNGram<'a> {
    pub uni: PosUniGram,
    pub bi: PosBigram,
    pub tri: PosTrigram<'a>,
}

/// Parses the three n-gram files; fails with the first file that fails.
pub fn parse<'a>(uni: &'a [u8], bi: &'a [u8], tri: &'a [u8]) -> (r: DictResult<PosNGram<'a>>)
    ensures
        r is Ok <==> uni@.len() == POS_COUNT * 4 && bi_ok(bi@) && aptree_ok(tri@, 12, false),
        r matches Ok(g) ==> uni_matches(g.uni, uni@) && bi_matches(g.bi, bi@) && aptree_matches(
            g.tri.aptree,
            tri@,
            12,
            false,
        ),
{
    let u = match parse_uni(uni) {
        Ok(u) => u,
        Err(e) => {
            return Err(e);
        },
    };
    let b = match parse_bi(bi) {
        Ok(b) => b,
        Err(e) => {
            return Err(e);
        },
    };
    let t = match parse_tri(tri) {
        Ok(t) => t,
        Err(e) => {
            return Err(e);
        },
    };
    Ok(PosNGram { uni: u, bi: b, tri: t })
}

} // verus!
