//! The split-point dictionaries of the morphological analyser: `ToSplit` (names of one
//! to twelve characters, each with a part-of-speech code) and `IrregulePred` (irregular
//! predicate stems of one to five characters with up to three condition codes).
use vstd::prelude::*;
use crate::common::{DictError, DictResult, le32, get_le32};
use crate::text::string_push;
use crate::wdic::{find_from, find_byte, lemma_find_from};

verus! {

pub const TO_SPLIT_SECTIONS: usize = 12;

pub const IRR_PRED_SECTIONS: usize = 5;

/// Size of the name field of a `ToSplit` slot (the slot has one more byte: the code).
pub const TO_SPLIT_NAME_CAP: usize = 15;

/// Size of the stem field of an `IrregulePred` record.
pub const IRR_NAME_CAP: usize = 5;

/// A printable ASCII character other than space.
pub open spec fn is_graphic(b: u8) -> bool {
    0x21 <= b <= 0x7E
}

/// Bytes taken as characters.
pub open spec fn ascii_chars(s: Seq<u8>) -> Seq<char> {
    s.map_values(|b: u8| b as char)
}

/// Builds a string from the bytes `s[a..b]`, each taken as a character.
fn ascii_string(s: &[u8], a: usize, b: usize) -> (r: String)
    requires
        a <= b <= s@.len(),
    ensures
        r@ == ascii_chars(s@.subrange(a as int, b as int)),
{
    let mut out = String::new();
    let mut i = a;
    while i < b
        invariant
            a <= i <= b <= s@.len(),
            out@ == ascii_chars(s@.subrange(a as int, i as int)),
        decreases b - i,
    {
        string_push(&mut out, s[i] as char);
        i = i + 1;
        proof {
            assert(out@ =~= ascii_chars(s@.subrange(a as int, i as int)));
        }
    }
    out
}

/// A `ToSplit` name with its part-of-speech code.
#[derive(Debug, Clone, PartialEq, Eq)]
pub struct ToSplitEntry {
    pub name: String,
    pub pos: u8,
}

/// The `ToSplit` dictionary: section `i` holds the names of length `i + 1`.
#[derive(Debug, Clone, PartialEq, Eq)]
pub struct ToSplitDic {
    pub sections: Vec<Vec<ToSplitEntry>>,
}

/// An irregular predicate stem and its condition codes (`0xFF` ends the list early).
#[derive(Debug, Clone, PartialEq, Eq)]
pub struct IrrPredEntry {
    pub stem: String,
    pub cond: [u8; 3],
}

/// The `IrregulePred` dictionary: section `i` holds the stems of length `i + 1`.
#[derive(Debug, Clone, PartialEq, Eq)]
pub struct IrregulePredDic {
    pub sections: Vec<Vec<IrrPredEntry>>,
}

/// Sum of the lengths of the sequences.
pub open spec fn len_sum<T>(s: Seq<Vec<T>>) -> int
    decreases s.len(),
{
    if s.len() == 0 {
        0
    } else {
        len_sum(s.drop_last()) + s.last()@.len()
    }
}

proof fn lemma_len_sum_prefix<T>(s: Seq<Vec<T>>, i: int)
    requires
        0 <= i < s.len(),
    ensures
        len_sum(s.subrange(0, i + 1)) == len_sum(s.subrange(0, i)) + s[i]@.len(),
        len_sum(s.subrange(0, i + 1)) <= len_sum(s),
    decreases s.len(),
{
    assert(s.subrange(0, i + 1).drop_last() =~= s.subrange(0, i));
    if i + 1 < s.len() {
        lemma_len_sum_prefix(s.drop_last(), i);
        assert(s.drop_last().subrange(0, i + 1) =~= s.subrange(0, i + 1));
    } else {
        assert(s.subrange(0, i + 1) =~= s);
    }
}

fn total_of<T>(sections: &Vec<Vec<T>>) -> (n: usize)
    requires
        len_sum(sections@) <= usize::MAX,
    ensures
        n == len_sum(sections@),
{
    let mut n: usize = 0;
    let mut i: usize = 0;
    while i < sections.len()
        invariant
            i <= sections@.len(),
            len_sum(sections@) <= usize::MAX,
            n == len_sum(sections@.subrange(0, i as int)),
        decreases sections@.len() - i,
    {
        proof {
            lemma_len_sum_prefix(sections@, i as int);
        }
        n = n + sections[i].len();
        i = i + 1;
    }
    proof {
        assert(sections@.subrange(0, i as int) =~= sections@);
    }
    n
}

impl ToSplitDic {
    /// Number of entries over all sections.
    pub fn total_entries(&self) -> (n: usize)
        requires
            len_sum(self.sections@) <= usize::MAX,
        ensures
            n == len_sum(self.sections@),
    {
        total_of(&self.sections)
    }

    /// Section `i`, empty when there is none.
    pub fn section(&self, i: usize) -> (r: &[ToSplitEntry])
        ensures
            i < self.sections@.len() ==> r@ == self.sections@[i as int]@,
            i >= self.sections@.len() ==> r@.len() == 0,
    {
        if i < self.sections.len() {
            self.sections[i].as_slice()
        } else {
            &[]
        }
    }
}

impl IrrPredEntry {
    /// The condition codes before the first `0xFF`.
    pub fn conditions(&self) -> (r: &[u8])
        ensures
            r@ == self.cond@.subrange(0, find_from(self.cond@, 0, 0xFF)),
    {
        let c = self.cond.as_slice();
        let e = find_byte(c, 0, 0xFF);
        &c[0..e]
    }
}

impl IrregulePredDic {
    /// Number of entries over all sections.
    pub fn total_entries(&self) -> (n: usize)
        requires
            len_sum(self.sections@) <= usize::MAX,
        ensures
            n == len_sum(self.sections@),
    {
        total_of(&self.sections)
    }

    /// Section `i`, empty when there is none.
    pub fn section(&self, i: usize) -> (r: &[IrrPredEntry])
        ensures
            i < self.sections@.len() ==> r@ == self.sections@[i as int]@,
            i >= self.sections@.len() ==> r@.len() == 0,
    {
        if i < self.sections.len() {
            self.sections[i].as_slice()
        } else {
            &[]
        }
    }
}

/// The 16-byte `ToSplit` slot at `p` holds a name of length `len`: `len` printable
/// characters, a NUL, `0xCD` padding up to byte 15, then the code.
pub open spec fn ts_slot_ok(d: Seq<u8>, p: int, len: int) -> bool {
    &&& 1 <= len < TO_SPLIT_NAME_CAP
    &&& forall|j: int| 0 <= j < len ==> is_graphic(#[trigger] d[p + j])
    &&& d[p + len] == 0
    &&& forall|j: int| len < j < TO_SPLIT_NAME_CAP ==> #[trigger] d[p + j] == 0xCD
}

/// The sections of `ToSplit` from section `si` on, read from `off`: a `u32` count and that
/// many 16-byte slots each; the data must end with the last section.
pub open spec fn ts_from(d: Seq<u8>, off: int, si: int) -> Option<Seq<Seq<(Seq<char>, u8)>>>
    decreases TO_SPLIT_SECTIONS - si,
{
    if si >= TO_SPLIT_SECTIONS {
        if off == d.len() {
            Some(Seq::empty())
        } else {
            None
        }
    } else if off < 0 || off + 4 > d.len() {
        None
    } else {
        let n = le32(d, off);
        let body = off + 4;
        if body + 16 * n > d.len() {
            None
        } else if !(forall|k: int| 0 <= k < n ==> #[trigger] ts_slot_ok(d, body + 16 * k, si + 1)) {
            None
        } else {
            match ts_from(d, body + 16 * n, si + 1) {
                Some(rest) => Some(
                    seq![
                        Seq::new(
                            n as nat,
                            |k: int|
                                (
                                    ascii_chars(d.subrange(body + 16 * k, body + 16 * k + si + 1)),
                                    d[body + 16 * k + 15],
                                ),
                        ),
                    ] + rest,
                ),
                None => None,
            }
        }
    }
}

/// The sections as (name, code) pairs.
pub open spec fn ts_view(s: Seq<Vec<ToSplitEntry>>) -> Seq<Seq<(Seq<char>, u8)>> {
    s.map_values(|v: Vec<ToSplitEntry>| v@.map_values(|e: ToSplitEntry| (e.name@, e.pos)))
}

/// Checks one slot.
fn ts_slot(d: &[u8], p: usize, len: usize) -> (r: bool)
    requires
        p + 16 <= d@.len(),
        1 <= len <= 12,
    ensures
        r == ts_slot_ok(d@, p as int, len as int),
{
    let dlen = d.len();
    let mut j: usize = 0;
    while j < 15
        invariant
            dlen == d@.len(),
            p + 16 <= d@.len(),
            1 <= len <= 12,
            j <= 15,
            forall|t: int| 0 <= t < j && t < len ==> is_graphic(#[trigger] d@[p + t]),
            j > len ==> d@[p + len] == 0,
            forall|t: int| len < t < j ==> #[trigger] d@[p + t] == 0xCD,
        decreases 15 - j,
    {
        let b = d[p + j];
        if j < len {
            if !(0x21 <= b && b <= 0x7E) {
                return false;
            }
        } else if j == len {
            if b != 0 {
                return false;
            }
        } else if b != 0xCD {
            return false;
        }
        j = j + 1;
    }
    true
}

/// Parses `ToSplit`.
pub fn parse_to_split(data: &[u8]) -> (r: DictResult<ToSplitDic>)
    ensures
        r is Ok <==> ts_from(data@, 0, 0) is Some,
        r matches Ok(t) ==> ts_view(t.sections@) == ts_from(data@, 0, 0)->0,
{
    let ghost d = data@;
    let len = data.len();
    let mut sections: Vec<Vec<ToSplitEntry>> = Vec::new();
    let mut off: usize = 0;
    let mut si: usize = 0;
    while si < TO_SPLIT_SECTIONS
        invariant
            d == data@,
            len == d.len(),
            off <= len,
            si <= TO_SPLIT_SECTIONS,
            sections@.len() == si,
            ts_from(d, 0, 0) == match ts_from(d, off as int, si as int) {
                Some(rest) => Some(ts_view(sections@) + rest),
                None => None::<Seq<Seq<(Seq<char>, u8)>>>,
            },
        decreases TO_SPLIT_SECTIONS - si,
    {
        if len - off < 4 {
            return Err(DictError::new("ToSplit section count read failed", off));
        }
        let n = get_le32(data, off) as usize;
        let body = off + 4;
        if (len - body) / 16 < n {
            return Err(DictError::new("ToSplit entry beyond EOF", body));
        }
        let mut entries: Vec<ToSplitEntry> = Vec::new();
        let mut k: usize = 0;
        while k < n
            invariant
                d == data@,
                len == d.len(),
                body + 16 * n <= len,
                si < TO_SPLIT_SECTIONS,
                off + 4 <= len,
                body == off + 4,
                n == le32(d, off as int),
                sections@.len() == si,
                ts_from(d, 0, 0) == match ts_from(d, off as int, si as int) {
                    Some(rest) => Some(ts_view(sections@) + rest),
                    None => None::<Seq<Seq<(Seq<char>, u8)>>>,
                },
                k <= n,
                entries@.len() == k,
                forall|t: int| 0 <= t < k ==> #[trigger] ts_slot_ok(d, body + 16 * t, si + 1),
                forall|t: int|
                    0 <= t < k ==> (#[trigger] entries@[t]).name@ == ascii_chars(
                        d.subrange(body + 16 * t, body + 16 * t + si + 1),
                    ) && entries@[t].pos == d[body + 16 * t + 15],
            decreases n - k,
        {
            let p = body + 16 * k;
            if !ts_slot(data, p, si + 1) {
                proof {
                    assert(!ts_slot_ok(d, body + 16 * k, si + 1));
                }
                return Err(DictError::new("ToSplit entry is malformed", p));
            }
            let name = ascii_string(data, p, p + si + 1);
            entries.push(ToSplitEntry { name, pos: data[p + 15] });
            k = k + 1;
        }
        let ghost old_sections = sections@;
        let ghost sec = Seq::new(
            n as nat,
            |k: int|
                (
                    ascii_chars(d.subrange(body + 16 * k, body + 16 * k + si + 1)),
                    d[body + 16 * k + 15],
                ),
        );
        proof {
            assert(entries@.map_values(|e: ToSplitEntry| (e.name@, e.pos)) =~= sec);
        }
        sections.push(entries);
        proof {
            assert(ts_view(sections@) =~= ts_view(old_sections).push(sec));
            match ts_from(d, body + 16 * n, si + 1) {
                Some(rest) => {
                    assert(ts_view(old_sections) + (seq![sec] + rest) =~= ts_view(sections@) + rest);
                },
                None => {},
            }
        }
        off = body + 16 * n;
        si = si + 1;
    }
    if off != len {
        return Err(DictError::new("ToSplit: bytes trailing after parse", off));
    }
    proof {
        assert(ts_view(sections@) + Seq::empty() =~= ts_view(sections@));
    }
    Ok(ToSplitDic { sections })
}

/// The 8-byte `IrregulePred` record at `p` holds a stem of length `len`: `len` printable
/// characters followed by a NUL unless the stem fills the field.
pub open spec fn ir_rec_ok(d: Seq<u8>, p: int, len: int) -> bool {
    &&& 1 <= len <= IRR_NAME_CAP
    &&& forall|j: int| 0 <= j < len ==> is_graphic(#[trigger] d[p + j])
    &&& len < IRR_NAME_CAP ==> d[p + len] == 0
}

/// The sections of `IrregulePred` from section `si` on, read from `off`.
pub open spec fn ir_from(d: Seq<u8>, off: int, si: int) -> Option<Seq<Seq<(Seq<char>, Seq<u8>)>>>
    decreases IRR_PRED_SECTIONS - si,
{
    if si >= IRR_PRED_SECTIONS {
        if off == d.len() {
            Some(Seq::empty())
        } else {
            None
        }
    } else if off < 0 || off + 4 > d.len() {
        None
    } else {
        let n = le32(d, off);
        let body = off + 4;
        if body + 8 * n > d.len() {
            None
        } else if !(forall|k: int| 0 <= k < n ==> #[trigger] ir_rec_ok(d, body + 8 * k, si + 1)) {
            None
        } else {
            match ir_from(d, body + 8 * n, si + 1) {
                Some(rest) => Some(
                    seq![
                        Seq::new(
                            n as nat,
                            |k: int|
                                (
                                    ascii_chars(d.subrange(body + 8 * k, body + 8 * k + si + 1)),
                                    d.subrange(body + 8 * k + 5, body + 8 * k + 8),
                                ),
                        ),
                    ] + rest,
                ),
                None => None,
            }
        }
    }
}

/// The sections as (stem, conditions) pairs.
pub open spec fn ir_view(s: Seq<Vec<IrrPredEntry>>) -> Seq<Seq<(Seq<char>, Seq<u8>)>> {
    s.map_values(|v: Vec<IrrPredEntry>| v@.map_values(|e: IrrPredEntry| (e.stem@, e.cond@)))
}

fn ir_rec(d: &[u8], p: usize, len: usize) -> (r: bool)
    requires
        p + 8 <= d@.len(),
        1 <= len <= 5,
    ensures
        r == ir_rec_ok(d@, p as int, len as int),
{
    let dlen = d.len();
    let mut j: usize = 0;
    while j < len
        invariant
            dlen == d@.len(),
            p + 8 <= d@.len(),
            1 <= len <= 5,
            j <= len,
            forall|t: int| 0 <= t < j ==> is_graphic(#[trigger] d@[p + t]),
        decreases len - j,
    {
        let b = d[p + j];
        if !(0x21 <= b && b <= 0x7E) {
            return false;
        }
        j = j + 1;
    }
    len == 5 || d[p + len] == 0
}

/// Parses `IrregulePred`.
pub fn parse_irregule_pred(data: &[u8]) -> (r: DictResult<IrregulePredDic>)
    ensures
        r is Ok <==> ir_from(data@, 0, 0) is Some,
        r matches Ok(t) ==> ir_view(t.sections@) == ir_from(data@, 0, 0)->0,
{
    let ghost d = data@;
    let len = data.len();
    let mut sections: Vec<Vec<IrrPredEntry>> = Vec::new();
    let mut off: usize = 0;
    let mut si: usize = 0;
    while si < IRR_PRED_SECTIONS
        invariant
            d == data@,
            len == d.len(),
            off <= len,
            si <= IRR_PRED_SECTIONS,
            sections@.len() == si,
            ir_from(d, 0, 0) == match ir_from(d, off as int, si as int) {
                Some(rest) => Some(ir_view(sections@) + rest),
                None => None::<Seq<Seq<(Seq<char>, Seq<u8>)>>>,
            },
        decreases IRR_PRED_SECTIONS - si,
    {
        if len - off < 4 {
            return Err(DictError::new("IrregulePred section count read failed", off));
        }
        let n = get_le32(data, off) as usize;
        let body = off + 4;
        if (len - body) / 8 < n {
            return Err(DictError::new("IrregulePred entry beyond EOF", body));
        }
        let mut entries: Vec<IrrPredEntry> = Vec::new();
        let mut k: usize = 0;
        while k < n
            invariant
                d == data@,
                len == d.len(),
                body + 8 * n <= len,
                si < IRR_PRED_SECTIONS,
                off + 4 <= len,
                body == off + 4,
                n == le32(d, off as int),
                sections@.len() == si,
                ir_from(d, 0, 0) == match ir_from(d, off as int, si as int) {
                    Some(rest) => Some(ir_view(sections@) + rest),
                    None => None::<Seq<Seq<(Seq<char>, Seq<u8>)>>>,
                },
                k <= n,
                entries@.len() == k,
                forall|t: int| 0 <= t < k ==> #[trigger] ir_rec_ok(d, body + 8 * t, si + 1),
                forall|t: int|
                    0 <= t < k ==> (#[trigger] entries@[t]).stem@ == ascii_chars(
                        d.subrange(body + 8 * t, body + 8 * t + si + 1),
                    ) && entries@[t].cond@ == d.subrange(body + 8 * t + 5, body + 8 * t + 8),
            decreases n - k,
        {
            let p = body + 8 * k;
            if !ir_rec(data, p, si + 1) {
                proof {
                    assert(!ir_rec_ok(d, body + 8 * k, si + 1));
                }
                return Err(DictError::new("IrregulePred entry is malformed", p));
            }
            let stem = ascii_string(data, p, p + si + 1);
            let cond = [data[p + 5], data[p + 6], data[p + 7]];
            proof {
                assert(cond@ =~= d.subrange(p + 5, p + 8));
            }
            entries.push(IrrPredEntry { stem, cond });
            k = k + 1;
        }
        let ghost old_sections = sections@;
        let ghost sec = Seq::new(
            n as nat,
            |k: int|
                (
                    ascii_chars(d.subrange(body + 8 * k, body + 8 * k + si + 1)),
                    d.subrange(body + 8 * k + 5, body + 8 * k + 8),
                ),
        );
        proof {
            assert(entries@.map_values(|e: IrrPredEntry| (e.stem@, e.cond@)) =~= sec);
        }
        sections.push(entries);
        proof {
            assert(ir_view(sections@) =~= ir_view(old_sections).push(sec));
            match ir_from(d, body + 8 * n, si + 1) {
                Some(rest) => {
                    assert(ir_view(old_sections) + (seq![sec] + rest) =~= ir_view(sections@) + rest);
                },
                None => {},
            }
        }
        off = body + 8 * n;
        si = si + 1;
    }
    if off != len {
        return Err(DictError::new("IrregulePred: bytes trailing after parse", off));
    }
    proof {
        assert(ir_view(sections@) + Seq::empty() =~= ir_view(sections@));
    }
    Ok(IrregulePredDic { sections })
}

/// Parses both dictionaries.
pub fn parse(tosplit: &[u8], irregule_pred: &[u8]) -> (r: DictResult<(ToSplitDic, IrregulePredDic)>)
    ensures
        r is Ok <==> ts_from(tosplit@, 0, 0) is Some && ir_from(irregule_pred@, 0, 0) is Some,
        r matches Ok(p) ==> ts_view(p.0.sections@) == ts_from(tosplit@, 0, 0)->0 && ir_view(
            p.1.sections@,
        ) == ir_from(irregule_pred@, 0, 0)->0,
{
    let t = match parse_to_split(tosplit) {
        Ok(t) => t,
        Err(e) => {
            return Err(e);
        },
    };
    let i = match parse_irregule_pred(irregule_pred) {
        Ok(i) => i,
        Err(e) => {
            return Err(e);
        },
    };
    Ok((t, i))
}

} // verus!
