//! Error type and a little-endian byte reader shared by the dictionary parsers.
use vstd::prelude::*;

verus! {

/// Value of two bytes read in little-endian order.
pub open spec fn le16(s: Seq<u8>, i: int) -> int {
    s[i] as int + 256 * (s[i + 1] as int)
}

/// Value of four bytes read in little-endian order.
pub open spec fn le32(s: Seq<u8>, i: int) -> int {
    s[i] as int + 256 * (s[i + 1] as int) + 65536 * (s[i + 2] as int) + 16777216 * (
    s[i + 3] as int)
}

/// Value of eight bytes read in little-endian order.
pub open spec fn le64(s: Seq<u8>, i: int) -> int {
    le32(s, i) + 4294967296 * le32(s, i + 4)
}

/// Two's-complement reading of a 32-bit unsigned value.
pub open spec fn signed32(v: int) -> int {
    if v < 0x8000_0000 {
        v
    } else {
        v - 0x1_0000_0000
    }
}

/// Two's-complement reading of an 8-bit unsigned value.
pub open spec fn signed8(v: int) -> int {
    if v < 0x80 {
        v
    } else {
        v - 0x100
    }
}

/// Two's-complement reading of a 16-bit unsigned value.
pub open spec fn signed16(v: int) -> int {
    if v < 0x8000 {
        v
    } else {
        v - 0x1_0000
    }
}

/// Decodes `s[i..i + 2]` as a little-endian `u16`.
pub fn get_le16(s: &[u8], i: usize) -> (r: u16)
    requires
        i + 2 <= s@.len(),
    ensures
        r as int == le16(s@, i as int),
{
    (s[i] as u16) + (s[i + 1] as u16) * 256
}

/// Decodes `s[i..i + 4]` as a little-endian `u32`.
pub fn get_le32(s: &[u8], i: usize) -> (r: u32)
    requires
        i + 4 <= s@.len(),
    ensures
        r as int == le32(s@, i as int),
{
    (s[i] as u32) + (s[i + 1] as u32) * 256 + (s[i + 2] as u32) * 65536 + (s[i + 3] as u32)
        * 16777216
}

/// Decodes `s[i..i + 8]` as a little-endian `u64`.
pub fn get_le64(s: &[u8], i: usize) -> (r: u64)
    requires
        i + 8 <= s@.len(),
    ensures
        r as int == le64(s@, i as int),
{
    let n = s.len();
    let lo = get_le32(s, i) as u64;
    let hi = get_le32(s, i + 4) as u64;
    lo + hi * 4294967296
}

/// Reinterprets a `u32` as a two's-complement `i32`.
pub fn to_i32(v: u32) -> (r: i32)
    ensures
        r as int == signed32(v as int),
{
    if v < 0x8000_0000 {
        v as i32
    } else {
        ((v as i64) - 0x1_0000_0000i64) as i32
    }
}

/// Reinterprets a `u8` as a two's-complement `i8`.
pub fn to_i8(v: u8) -> (r: i8)
    ensures
        r as int == signed8(v as int),
{
    if v < 0x80 {
        v as i8
    } else {
        ((v as i16) - 0x100i16) as i8
    }
}

/// Reinterprets a `u16` as a two's-complement `i16`.
pub fn to_i16(v: u16) -> (r: i16)
    ensures
        r as int == signed16(v as int),
{
    if v < 0x8000 {
        v as i16
    } else {
        ((v as i32) - 0x1_0000i32) as i16
    }
}

/// A parse error: a message and the byte offset where it was detected.
#[derive(Debug, Clone, PartialEq, Eq)]
pub struct DictError {
    pub msg: String,
    pub offset: usize,
}

impl DictError {
    /// Builds an error from a message and an offset.
    pub fn new(msg: &str, offset: usize) -> (e: DictError)
        ensures
            e.msg@ == msg@,
            e.offset == offset,
    {
        DictError { msg: String::from_str(msg), offset }
    }
}

pub type DictResult<T> = Result<T, DictError>;

/// A cursor over a byte buffer.
#[derive(Debug)]
pub struct Reader<'a> {
    pub buf: &'a [u8],
    pub pos: usize,
}

impl<'a> Reader<'a> {
    /// Starts reading at offset 0.
    pub fn new(buf: &'a [u8]) -> (r: Reader<'a>)
        ensures
            r.buf@ == buf@,
            r.pos == 0,
    {
        Reader { buf, pos: 0 }
    }

    /// True when `n` bytes can be read at the current position.
    pub open spec fn has(&self, n: int) -> bool {
        self.pos + n <= self.buf@.len()
    }

    fn check(&self, n: usize) -> (b: bool)
        ensures
            b == self.has(n as int),
            b ==> self.pos + n <= usize::MAX,
    {
        self.pos <= self.buf.len() && self.buf.len() - self.pos >= n
    }

    /// Reads one byte.
    pub fn u8(&mut self) -> (r: DictResult<u8>)
        ensures
            final(self).buf == old(self).buf,
            old(self).has(1) ==> r == Ok::<u8, DictError>(old(self).buf@[old(self).pos as int])
                && final(self).pos == old(self).pos + 1,
            !old(self).has(1) ==> r is Err && r->Err_0.offset == old(self).pos && final(self).pos
                == old(self).pos,
    {
        if !self.check(1) {
            return Err(DictError::new("u8 EOF", self.pos));
        }
        let b = self.buf[self.pos];
        self.pos = self.pos + 1;
        Ok(b)
    }

    /// Reads two bytes in little-endian order.
    pub fn u16(&mut self) -> (r: DictResult<u16>)
        ensures
            final(self).buf == old(self).buf,
            old(self).has(2) ==> r is Ok && r->Ok_0 as int == le16(
                old(self).buf@,
                old(self).pos as int,
            ) && final(self).pos == old(self).pos + 2,
            !old(self).has(2) ==> r is Err && r->Err_0.offset == old(self).pos && final(self).pos
                == old(self).pos,
    {
        if !self.check(2) {
            return Err(DictError::new("u16 EOF", self.pos));
        }
        let v = get_le16(self.buf, self.pos);
        self.pos = self.pos + 2;
        Ok(v)
    }

    /// Reads four bytes in little-endian order.
    pub fn u32(&mut self) -> (r: DictResult<u32>)
        ensures
            final(self).buf == old(self).buf,
            old(self).has(4) ==> r is Ok && r->Ok_0 as int == le32(
                old(self).buf@,
                old(self).pos as int,
            ) && final(self).pos == old(self).pos + 4,
            !old(self).has(4) ==> r is Err && r->Err_0.offset == old(self).pos && final(self).pos
                == old(self).pos,
    {
        if !self.check(4) {
            return Err(DictError::new("u32 EOF", self.pos));
        }
        let v = get_le32(self.buf, self.pos);
        self.pos = self.pos + 4;
        Ok(v)
    }

    /// Reads the IEEE-754 bit pattern of a little-endian single-precision float (four bytes).
    pub fn f32_bits(&mut self) -> (r: DictResult<u32>)
        ensures
            final(self).buf == old(self).buf,
            old(self).has(4) ==> r is Ok && r->Ok_0 as int == le32(
                old(self).buf@,
                old(self).pos as int,
            ) && final(self).pos == old(self).pos + 4,
            !old(self).has(4) ==> r is Err && r->Err_0.offset == old(self).pos && final(self).pos
                == old(self).pos,
    {
        self.u32()
    }

    /// Reads the IEEE-754 bit pattern of a little-endian double-precision float (eight bytes).
    pub fn f64_bits(&mut self) -> (r: DictResult<u64>)
        ensures
            final(self).buf == old(self).buf,
            old(self).has(8) ==> r is Ok && r->Ok_0 as int == le64(
                old(self).buf@,
                old(self).pos as int,
            ) && final(self).pos == old(self).pos + 8,
            !old(self).has(8) ==> r is Err && r->Err_0.offset == old(self).pos && final(self).pos
                == old(self).pos,
    {
        if !self.check(8) {
            return Err(DictError::new("double EOF", self.pos));
        }
        let v = get_le64(self.buf, self.pos);
        self.pos = self.pos + 8;
        Ok(v)
    }

    /// Reads `n` bytes.
    pub fn bytes(&mut self, n: usize) -> (r: DictResult<&'a [u8]>)
        ensures
            final(self).buf == old(self).buf,
            old(self).has(n as int) ==> r is Ok && r->Ok_0@ == old(self).buf@.subrange(
                old(self).pos as int,
                old(self).pos + n,
            ) && final(self).pos == old(self).pos + n,
            !old(self).has(n as int) ==> r is Err && r->Err_0.offset == old(self).pos
                && final(self).pos == old(self).pos,
    {
        if !self.check(n) {
            return Err(DictError::new("bytes EOF", self.pos));
        }
        let v = slice_range(self.buf, self.pos, self.pos + n);
        self.pos = self.pos + n;
        Ok(v)
    }

    /// Number of bytes left after the current position.
    pub fn remaining(&self) -> (n: usize)
        ensures
            n as int == if self.pos <= self.buf@.len() {
                self.buf@.len() - self.pos
            } else {
                0
            },
    {
        if self.pos <= self.buf.len() {
            self.buf.len() - self.pos
        } else {
            0
        }
    }
}

/// The sub-slice `s[a..b]`.
pub fn slice_range<'b>(s: &'b [u8], a: usize, b: usize) -> (r: &'b [u8])
    requires
        a <= b <= s@.len(),
    ensures
        r@ == s@.subrange(a as int, b as int),
{
    &s[a..b]
}

/// A copy of `s[a..b]` as a vector.
pub fn copy_range(s: &[u8], a: usize, b: usize) -> (r: Vec<u8>)
    requires
        a <= b <= s@.len(),
    ensures
        r@ == s@.subrange(a as int, b as int),
{
    let mut out: Vec<u8> = Vec::new();
    let mut i = a;
    while i < b
        invariant
            a <= i <= b <= s@.len(),
            out@ == s@.subrange(a as int, i as int),
        decreases b - i,
    {
        out.push(s[i]);
        i = i + 1;
        assert(out@ =~= s@.subrange(a as int, i as int));
    }
    out
}

/// Index of the first zero byte in `s[from..]`, relative to `from`.
pub open spec fn first_zero_from(s: Seq<u8>, from: int) -> Option<int> {
    if exists|k: int| from <= k < s.len() && s[k] == 0 {
        Some(
            (choose|k: int|
                from <= k < s.len() && s[k] == 0 && forall|j: int| from <= j < k ==> s[j] != 0)
                - from,
        )
    } else {
        None
    }
}

/// Position of the first zero byte at or after `from`, or `s.len()` when there is none.
pub open spec fn nul_end(s: Seq<u8>, from: int) -> int {
    match first_zero_from(s, from) {
        Some(k) => from + k,
        None => s.len() as int,
    }
}

/// Finds the first zero byte at or after `from`.
pub fn find_zero(s: &[u8], from: usize) -> (r: Option<usize>)
    requires
        from <= s@.len(),
    ensures
        match r {
            Some(k) => from <= k < s@.len() && s@[k as int] == 0 && forall|j: int|
                from <= j < k ==> s@[j] != 0,
            None => forall|j: int| from <= j < s@.len() ==> s@[j] != 0,
        },
        match r {
            Some(k) => first_zero_from(s@, from as int) == Some((k - from) as int) && nul_end(
                s@,
                from as int,
            ) == k,
            None => first_zero_from(s@, from as int) is None && nul_end(s@, from as int)
                == s@.len(),
        },
{
    let mut i = from;
    while i < s.len()
        invariant
            from <= i <= s@.len(),
            forall|j: int| from <= j < i ==> s@[j] != 0,
        decreases s@.len() - i,
    {
        if s[i] == 0 {
            proof {
                let k = choose|k: int|
                    from <= k < s@.len() && s@[k] == 0 && forall|j: int| from <= j < k ==> s@[j] != 0;
                assert(from <= i < s@.len() && s@[i as int] == 0 && forall|j: int|
                    from <= j < i ==> s@[j] != 0);
                if k < i {
                    assert(s@[k] != 0);
                }
                if k > i {
                    assert(s@[i as int] != 0);
                }
            }
            return Some(i);
        }
        i = i + 1;
    }
    None
}

} // verus!

verus! {

/// Whether a zero `u16` (two zero bytes) starts at `from + 2 * m`.
pub open spec fn zero_pair_at(s: Seq<u8>, from: int, m: int) -> bool {
    0 <= m && from + 2 * m + 1 < s.len() && s[from + 2 * m] == 0 && s[from + 2 * m + 1] == 0
}

/// Start of the first aligned pair of zero bytes at or after `from`, stepping by two.
pub open spec fn zero_pair_from(s: Seq<u8>, from: int) -> Option<int> {
    if exists|m: int| zero_pair_at(s, from, m) {
        Some(
            from + 2 * (choose|m: int|
                zero_pair_at(s, from, m) && forall|j: int| 0 <= j < m ==> !zero_pair_at(s, from, j)),
        )
    } else {
        None
    }
}

/// Finds the first aligned zero pair at or after `from`.
pub fn find_zero_pair(s: &[u8], from: usize) -> (r: Option<usize>)
    requires
        from <= s@.len(),
    ensures
        match zero_pair_from(s@, from as int) {
            Some(e) => r == Some(e as usize) && from <= e && e + 1 < s@.len(),
            None => r is None,
        },
{
    let mut end: usize = 0;
    while end < s.len() - from && s.len() - from - end > 1
        invariant
            from <= s@.len(),
            end % 2 == 0,
            from + end <= s@.len(),
            forall|j: int| 0 <= j < end / 2 ==> !zero_pair_at(s@, from as int, j),
        decreases s@.len() - from - end,
    {
        if s[from + end] == 0 && s[from + end + 1] == 0 {
            proof {
                let m = end as int / 2;
                assert(zero_pair_at(s@, from as int, m));
                let c = choose|c: int|
                    zero_pair_at(s@, from as int, c) && forall|j: int|
                        0 <= j < c ==> !zero_pair_at(s@, from as int, j);
                if c < m {
                    assert(!zero_pair_at(s@, from as int, c));
                }
                if c > m {
                    assert(!zero_pair_at(s@, from as int, m));
                }
            }
            return Some(from + end);
        }
        end = end + 2;
    }
    proof {
        assert forall|m: int| !zero_pair_at(s@, from as int, m) by {
            if 0 <= m && m >= end / 2 {
                assert(from + 2 * m + 1 >= s@.len());
            }
        }
    }
    None
}

/// Little-endian `u16` units of a byte sequence (a trailing odd byte is dropped).
pub open spec fn le_units(b: Seq<u8>) -> Seq<u16> {
    Seq::new((b.len() / 2) as nat, |i: int| le16(b, 2 * i) as u16)
}

/// Groups bytes into little-endian `u16` units.
pub fn bytes_to_units(b: &[u8]) -> (r: Vec<u16>)
    ensures
        r@ == le_units(b@),
{
    let mut out: Vec<u16> = Vec::new();
    let n = b.len() / 2;
    let mut i: usize = 0;
    while i < n
        invariant
            n == b@.len() / 2,
            b@.len() == b.len(),
            b.len() <= usize::MAX,
            i <= n,
            out@ == le_units(b@).subrange(0, i as int),
        decreases n - i,
    {
        out.push(get_le16(b, 2 * i));
        i = i + 1;
        assert(out@ =~= le_units(b@).subrange(0, i as int));
    }
    assert(out@ =~= le_units(b@));
    out
}

} // verus!

verus! {

/// Index of the first element of `s` that satisfies `p`.
pub open spec fn first_index<T>(s: Seq<T>, p: spec_fn(T) -> bool) -> Option<int> {
    if exists|i: int| 0 <= i < s.len() && p(s[i]) {
        Some(choose|i: int| 0 <= i < s.len() && p(s[i]) && forall|j: int| 0 <= j < i ==> !p(s[j]))
    } else {
        None
    }
}

/// Establishes `first_index` from a witness that no earlier element qualifies.
pub proof fn lemma_first_index<T>(s: Seq<T>, p: spec_fn(T) -> bool, i: int)
    requires
        0 <= i < s.len(),
        p(s[i]),
        forall|j: int| 0 <= j < i ==> !p(s[j]),
    ensures
        first_index(s, p) == Some(i),
{
    let c = choose|c: int| 0 <= c < s.len() && p(s[c]) && forall|j: int| 0 <= j < c ==> !p(s[j]);
    assert(0 <= c < s.len() && p(s[c]) && forall|j: int| 0 <= j < c ==> !p(s[j]));
    if c < i {
        assert(!p(s[c]));
    }
    if c > i {
        assert(!p(s[i]));
    }
}

/// An index found by `first_index` lies past every element known not to qualify.
pub proof fn lemma_first_index_past<T>(s: Seq<T>, p: spec_fn(T) -> bool, k: int)
    requires
        0 <= k <= s.len(),
        forall|j: int| 0 <= j < k ==> !p(#[trigger] s[j]),
    ensures
        first_index(s, p) matches Some(i) ==> k <= i < s.len() && p(s[i]),
{
    if exists|i: int| 0 <= i < s.len() && p(s[i]) {
        let w = choose|i: int| 0 <= i < s.len() && p(s[i]);
        lemma_min_witness(s, p, w);
        let i = first_index(s, p)->0;
        assert(0 <= i < s.len() && p(s[i]));
        if i < k {
            assert(!p(s[i]));
        }
    }
}

/// Some element qualifies first: one at or before `i` with none before it.
pub proof fn lemma_min_witness<T>(s: Seq<T>, p: spec_fn(T) -> bool, i: int)
    requires
        0 <= i < s.len(),
        p(s[i]),
    ensures
        exists|m: int| 0 <= m <= i && p(s[m]) && forall|j: int| 0 <= j < m ==> !p(s[j]),
    decreases i,
{
    if exists|j: int| 0 <= j < i && p(s[j]) {
        let j = choose|j: int| 0 <= j < i && p(s[j]);
        lemma_min_witness(s, p, j);
    } else {
        assert(forall|j: int| 0 <= j < i ==> !p(s[j]));
    }
}

/// `first_index` is `None` when no element qualifies.
pub proof fn lemma_first_index_none<T>(s: Seq<T>, p: spec_fn(T) -> bool)
    requires
        forall|j: int| 0 <= j < s.len() ==> !p(s[j]),
    ensures
        first_index(s, p) is None,
{
}

/// Java-style string hash over bytes taken as unsigned: `h = h * 31 + c` modulo 2^32.
pub open spec fn hash31(s: Seq<u8>) -> int
    decreases s.len(),
{
    if s.len() == 0 {
        0
    } else {
        (hash31(s.drop_last()) * 31 + s.last() as int) % 0x1_0000_0000
    }
}

/// A byte taken as a signed `char` and widened to a 32-bit unsigned value.
pub open spec fn sext(c: u8) -> int {
    if c < 128 {
        c as int
    } else {
        c as int + 0xFFFF_FF00
    }
}

/// The same hash over bytes taken as signed `char`s.
pub open spec fn hash31_signed(s: Seq<u8>) -> int
    decreases s.len(),
{
    if s.len() == 0 {
        0
    } else {
        (hash31_signed(s.drop_last()) * 31 + sext(s.last())) % 0x1_0000_0000
    }
}

/// Computes `hash31` (unsigned bytes) or `hash31_signed`.
pub fn hash31_exec(key: &[u8], signed: bool) -> (h: u32)
    ensures
        h as int == if signed {
            hash31_signed(key@)
        } else {
            hash31(key@)
        },
{
    let mut h: u32 = 0;
    let mut i: usize = 0;
    while i < key.len()
        invariant
            i <= key@.len(),
            h as int == if signed {
                hash31_signed(key@.subrange(0, i as int))
            } else {
                hash31(key@.subrange(0, i as int))
            },
        decreases key@.len() - i,
    {
        let c = key[i];
        let cv: u64 = if signed && c >= 128 {
            (c as u64) + 0xFFFF_FF00
        } else {
            c as u64
        };
        let nh = ((h as u64) * 31 + cv) % 0x1_0000_0000;
        proof {
            let pre = key@.subrange(0, i as int);
            let nxt = key@.subrange(0, i + 1);
            assert(nxt.drop_last() =~= pre);
            assert(nxt.last() == c);
        }
        h = nh as u32;
        i = i + 1;
    }
    assert(key@.subrange(0, key@.len() as int) =~= key@);
    h
}

/// Byte-wise equality.
pub fn bytes_eq(a: &[u8], b: &[u8]) -> (r: bool)
    ensures
        r == (a@ == b@),
{
    if a.len() != b.len() {
        return false;
    }
    let mut i: usize = 0;
    while i < a.len()
        invariant
            a@.len() == b@.len(),
            i <= a@.len(),
            forall|t: int| 0 <= t < i ==> a@[t] == b@[t],
        decreases a@.len() - i,
    {
        if a[i] != b[i] {
            return false;
        }
        i = i + 1;
    }
    assert(a@ =~= b@);
    true
}

/// `p` is a prefix of `a`.
pub open spec fn has_prefix(a: Seq<u8>, p: Seq<u8>) -> bool {
    p.len() <= a.len() && a.subrange(0, p.len() as int) == p
}

/// Does `a` start with `p`.
pub fn starts_with_bytes(a: &[u8], p: &[u8]) -> (r: bool)
    ensures
        r == has_prefix(a@, p@),
{
    if p.len() > a.len() {
        return false;
    }
    let mut i: usize = 0;
    while i < p.len()
        invariant
            p@.len() <= a@.len(),
            i <= p@.len(),
            forall|j: int| 0 <= j < i ==> a@[j] == p@[j],
        decreases p@.len() - i,
    {
        if a[i] != p[i] {
            proof {
                assert(a@.subrange(0, p@.len() as int)[i as int] != p@[i as int]);
            }
            return false;
        }
        i = i + 1;
    }
    proof {
        assert(a@.subrange(0, p@.len() as int) =~= p@);
    }
    true
}

} // verus!
