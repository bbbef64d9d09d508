//! Pronunciation rules: a `u32` count, then 20-byte rules, each a 12-byte condition
//! (NUL-terminated columns, `0xCC` padding) and an 8-byte action.
use vstd::prelude::*;
use crate::common::{DictError, DictResult, le32, get_le32};
use crate::wdic::{find_from, find_byte, lemma_find_from};

verus! {

/// One rule.
#[derive(Debug, Clone, Copy, PartialEq, Eq)]
pub struct PronRule {
    pub cond: [u8; 12],
    pub apply: [u8; 8],
}

/// Every byte of the condition from `p` on is padding.
pub open spec fn all_padding(c: Seq<u8>, p: int) -> bool {
    forall|j: int| p <= j < c.len() ==> #[trigger] c[j] == 0xCC
}

/// The condition columns from `pos` on: each runs to the next NUL (or the end), and the
/// columns stop where only padding is left.
pub open spec fn cond_seqs_from(c: Seq<u8>, pos: int) -> Seq<Seq<u8>>
    decreases c.len() - pos,
{
    if pos < 0 || pos >= c.len() {
        Seq::empty()
    } else {
        let z = find_from(c, pos, 0);
        let next = if z < c.len() {
            z + 1
        } else {
            c.len() as int
        };
        proof {
            lemma_find_from(c, pos, 0);
        }
        let piece = c.subrange(pos, if z < c.len() {
            z
        } else {
            c.len() as int
        });
        if next < c.len() && all_padding(c, next) {
            seq![piece]
        } else {
            seq![piece] + cond_seqs_from(c, next)
        }
    }
}

impl PronRule {
    /// The condition columns.
    pub fn cond_sequences(&self) -> (r: Vec<&[u8]>)
        ensures
            r@.len() == cond_seqs_from(self.cond@, 0).len(),
            forall|i: int| 0 <= i < r@.len() ==> (#[trigger] r@[i])@ == cond_seqs_from(self.cond@, 0)[i],
    {
        let c = self.cond.as_slice();
        let ghost cs = self.cond@;
        let mut seqs: Vec<&[u8]> = Vec::new();
        let ghost mut done: Seq<Seq<u8>> = Seq::empty();
        let mut pos: usize = 0;
        while pos < 12
            invariant_except_break
                cond_seqs_from(cs, 0) == done + cond_seqs_from(cs, pos as int),
            invariant
                c@ == cs,
                cs.len() == 12,
                pos <= 12,
                seqs@.len() == done.len(),
                forall|i: int| 0 <= i < done.len() ==> (#[trigger] seqs@[i])@ == done[i],
            ensures
                cond_seqs_from(cs, 0) == done,
            decreases 12 - pos,
        {
            let z = find_byte(c, pos, 0);
            let (end, next) = if z < 12 {
                (z, z + 1)
            } else {
                (12, 12)
            };
            let piece = &c[pos..end];
            proof {
                lemma_find_from(cs, pos as int, 0);
                assert(piece@ == cs.subrange(pos as int, end as int));
            }
            let ghost old_done = done;
            seqs.push(piece);
            proof {
                done = done.push(piece@);
            }
            let mut all_cc = next < 12;
            let mut j = next;
            while j < 12
                invariant
                    c@ == cs,
                    cs.len() == 12,
                    next <= j <= 12,
                    all_cc ==> next < 12,
                    all_cc ==> forall|t: int| next <= t < j ==> #[trigger] cs[t] == 0xCC,
                    !all_cc ==> (next >= 12 || !all_padding(cs, next as int)),
                decreases 12 - j,
            {
                if c[j] != 0xCC {
                    all_cc = false;
                }
                j = j + 1;
            }
            proof {
                if all_cc {
                    assert(all_padding(cs, next as int));
                }
                if all_cc {
                    assert(cond_seqs_from(cs, pos as int) == seq![piece@]);
                    assert(old_done + seq![piece@] =~= done);
                } else {
                    assert(cond_seqs_from(cs, pos as int) == seq![piece@] + cond_seqs_from(cs, next as int));
                    assert(old_done + (seq![piece@] + cond_seqs_from(cs, next as int)) =~= done + cond_seqs_from(cs, next as int));
                }
            }
            if all_cc {
                break;
            }
            pos = next;
        }
        proof {
            assert(done + Seq::<Seq<u8>>::empty() =~= done);
        }
        seqs
    }

    /// The action bytes as four pairs.
    pub fn apply_pairs(&self) -> (r: [(u8, u8); 4])
        ensures
            forall|i: int| 0 <= i < 4 ==> #[trigger] r@[i] == (self.apply@[2 * i], self.apply@[2 * i + 1]),
    {
        let a = &self.apply;
        [(a[0], a[1]), (a[2], a[3]), (a[4], a[5]), (a[6], a[7])]
    }

    /// The first action pair.
    pub fn apply_source(&self) -> (r: (u8, u8))
        ensures
            r == (self.apply@[0], self.apply@[1]),
    {
        (self.apply[0], self.apply[1])
    }

    /// The action bytes after the first pair.
    pub fn apply_rest(&self) -> (r: &[u8])
        ensures
            r@ == self.apply@.subrange(2, 8),
    {
        let a = self.apply.as_slice();
        &a[2..8]
    }
}

/// The rule file.
#[derive(Debug, Clone, PartialEq, Eq)]
pub struct PronRuleDict {
    pub count: u32,
    pub rules: Vec<PronRule>,
}

/// The condition of rule `i` holds a NUL.
pub open spec fn cond_has_nul(d: Seq<u8>, i: int) -> bool {
    exists|j: int| 0 <= j < 12 && #[trigger] d[4 + 20 * i + j] == 0
}

/// The data is a count and exactly that many rules, each condition holding a NUL.
pub open spec fn rules_ok(d: Seq<u8>) -> bool {
    &&& d.len() >= 4
    &&& 4 + 20 * le32(d, 0) == d.len()
    &&& forall|i: int| 0 <= i < le32(d, 0) ==> #[trigger] cond_has_nul(d, i)
}

/// Parses the rule file.
pub fn parse(data: &[u8]) -> (r: DictResult<PronRuleDict>)
    ensures
        r is Ok <==> rules_ok(data@),
        r matches Ok(p) ==> p.count == le32(data@, 0) && p.rules@.len() == p.count && forall|i: int|
            0 <= i < p.count ==> (#[trigger] p.rules@[i]).cond@ == data@.subrange(
                4 + 20 * i,
                4 + 20 * i + 12,
            ) && p.rules@[i].apply@ == data@.subrange(4 + 20 * i + 12, 4 + 20 * i + 20),
{
    let ghost d = data@;
    let len = data.len();
    if len < 4 {
        return Err(DictError::new("u32 EOF", 0));
    }
    let count = get_le32(data, 0);
    if 4u64 + 20u64 * (count as u64) != len as u64 {
        return Err(DictError::new("size mismatch between header count and data", 0));
    }
    let n = count as usize;
    let mut rules: Vec<PronRule> = Vec::new();
    let mut i: usize = 0;
    while i < n
        invariant
            d == data@,
            len == d.len(),
            n == le32(d, 0),
            4 + 20 * n == len,
            i <= n,
            rules@.len() == i,
            forall|t: int| 0 <= t < i ==> #[trigger] cond_has_nul(d, t),
            forall|t: int|
                0 <= t < i ==> (#[trigger] rules@[t]).cond@ == d.subrange(4 + 20 * t, 4 + 20 * t + 12)
                    && rules@[t].apply@ == d.subrange(4 + 20 * t + 12, 4 + 20 * t + 20),
        decreases n - i,
    {
        let b = 4 + 20 * i;
        let cond = [
            data[b],
            data[b + 1],
            data[b + 2],
            data[b + 3],
            data[b + 4],
            data[b + 5],
            data[b + 6],
            data[b + 7],
            data[b + 8],
            data[b + 9],
            data[b + 10],
            data[b + 11],
        ];
        let apply = [
            data[b + 12],
            data[b + 13],
            data[b + 14],
            data[b + 15],
            data[b + 16],
            data[b + 17],
            data[b + 18],
            data[b + 19],
        ];
        proof {
            assert(cond@ =~= d.subrange(b as int, b + 12));
            assert(apply@ =~= d.subrange(b + 12, b + 20));
        }
        let z = find_byte(cond.as_slice(), 0, 0);
        if z >= 12 {
            proof {
                lemma_find_from(cond@, 0, 0);
                assert forall|j: int| 0 <= j < 12 implies #[trigger] d[4 + 20 * i + j] != 0 by {
                    lemma_find_absent(cond@, 0, 0, j);
                    assert(cond@[j] == d[b + j]);
                }
                assert(!cond_has_nul(d, i as int));
            }
            return Err(DictError::new("rule condition has no NUL terminator", b));
        }
        proof {
            lemma_find_from(cond@, 0, 0);
            assert(d[4 + 20 * i + z] == 0);
            assert(cond_has_nul(d, i as int));
        }
        rules.push(PronRule { cond, apply });
        i = i + 1;
    }
    Ok(PronRuleDict { count, rules })
}

/// When the search from `from` finds nothing, no element from `from` on matches.
proof fn lemma_find_absent(s: Seq<u8>, from: int, x: u8, j: int)
    requires
        0 <= from <= j < s.len(),
        find_from(s, from, x) >= s.len(),
    ensures
        s[j] != x,
    decreases j - from,
{
    if from < j {
        lemma_find_absent(s, from + 1, x, j);
    }
}

} // verus!
