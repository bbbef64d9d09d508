//! The hanja-to-Hangul reading table: one little-endian `u16` per UTF-16 code unit.
use vstd::prelude::*;
use crate::common::{DictError, DictResult, le16, get_le16};

verus! {

/// Number of entries of the table: one per 16-bit code unit.
pub const HANJA_TABLE_SIZE: usize = 0x10000;

/// The reading of each code unit (itself when it has none).
#[derive(Debug, Clone, PartialEq, Eq)]
pub struct Hanja2Korea {
    pub table: Vec<u16>,
}

/// Number of positions in `[lo, hi)` whose entry differs from the position.
pub open spec fn count_changed(t: Seq<u16>, lo: int, hi: int) -> int
    decreases hi - lo,
{
    if hi <= lo {
        0
    } else {
        count_changed(t, lo, hi - 1) + if t[hi - 1] as int != hi - 1 {
            1int
        } else {
            0
        }
    }
}

impl Hanja2Korea {
    /// The reading of `cp`.
    pub fn get(&self, cp: u16) -> (r: u16)
        requires
            cp < self.table@.len(),
        ensures
            r == self.table@[cp as int],
    {
        self.table[cp as usize]
    }

    /// Whether `cp` has a reading other than itself.
    pub fn is_korea_hanja(&self, cp: u16) -> (b: bool)
        requires
            cp < self.table@.len(),
        ensures
            b <==> self.table@[cp as int] != cp,
    {
        self.table[cp as usize] != cp
    }

    /// Number of CJK unified ideographs (U+4E00 to U+9FFF) with a reading of their own.
    pub fn non_identity_cjk_count(&self) -> (n: usize)
        requires
            self.table@.len() > 0x9FFF,
        ensures
            n == count_changed(self.table@, 0x4E00, 0xA000),
    {
        let mut n: usize = 0;
        let mut cp: usize = 0x4E00;
        while cp < 0xA000
            invariant
                0x4E00 <= cp <= 0xA000,
                self.table@.len() > 0x9FFF,
                n == count_changed(self.table@, 0x4E00, cp as int),
                n <= cp - 0x4E00,
            decreases 0xA000 - cp,
        {
            if self.table[cp] as usize != cp {
                n = n + 1;
            }
            cp = cp + 1;
        }
        n
    }
}

/// Parses the table: exactly `HANJA_TABLE_SIZE` little-endian `u16` values.
pub fn parse(data: &[u8]) -> (r: DictResult<Hanja2Korea>)
    ensures
        r is Ok <==> data@.len() == 2 * HANJA_TABLE_SIZE,
        r matches Ok(h) ==> h.table@.len() == HANJA_TABLE_SIZE && forall|i: int|
            0 <= i < HANJA_TABLE_SIZE ==> #[trigger] h.table@[i] as int == le16(data@, 2 * i),
{
    if data.len() != 2 * HANJA_TABLE_SIZE {
        return Err(DictError::new("size mismatch: fixed table size expected", 0));
    }
    let mut table: Vec<u16> = Vec::new();
    let mut i: usize = 0;
    while i < HANJA_TABLE_SIZE
        invariant
            data@.len() == 2 * HANJA_TABLE_SIZE,
            i <= HANJA_TABLE_SIZE,
            table@.len() == i,
            forall|t: int| 0 <= t < i ==> #[trigger] table@[t] as int == le16(data@, 2 * t),
        decreases HANJA_TABLE_SIZE - i,
    {
        table.push(get_le16(data, 2 * i));
        i = i + 1;
    }
    Ok(Hanja2Korea { table })
}

} // verus!
