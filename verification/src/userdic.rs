//! The user dictionary: phrases (UTF-16) and the text read in their place, found by
//! prefix through a PATRICIA-style tree.
use vstd::prelude::*;
use crate::common::{le16, signed32, to_i32};
use crate::pronsec::{RecordValue, SectionDict, parse_user, section_matches, section_ok, user_layout};
use crate::wordgram::{bit_set_w, test_bit_w};

verus! {

/// An error of the analyser's dictionaries, with its message.
#[derive(Debug, Clone, PartialEq, Eq)]
pub struct KmaError(pub String);

pub type KmaResult<T> = Result<T, KmaError>;

fn kma_error(msg: &str) -> (e: KmaError)
    ensures
        e.0@ == msg@,
{
    KmaError(String::from_str(msg))
}

/// The UTF-16 string at unit `i` of a pool, up to a zero unit or the last whole unit.
pub open spec fn pool_u16_from(b: Seq<u8>, i: int) -> Seq<u16>
    decreases b.len() - i,
{
    if i < 0 || i + 1 >= b.len() || le16(b, i) == 0 {
        Seq::empty()
    } else {
        seq![le16(b, i) as u16] + pool_u16_from(b, i + 2)
    }
}

/// The UTF-16 string at unit offset `off` of a pool; `None` where the offset lies past
/// its end.
pub open spec fn pool_u16(pool: Seq<u8>, off: int) -> Option<Seq<u16>> {
    if off < 0 || 2 * off > pool.len() {
        None
    } else {
        Some(pool_u16_from(pool, 2 * off))
    }
}

/// Reads the UTF-16 string at unit offset `off` of a pool.
pub fn pool_u16_str(pool: &[u8], off: usize) -> (r: Option<Vec<u16>>)
    ensures
        r matches Some(v) ==> pool_u16(pool@, off as int) == Some(v@),
        r is None ==> pool_u16(pool@, off as int) is None,
{
    if off > pool.len() / 2 || 2 * off > pool.len() {
        return None;
    }
    let start = 2 * off;
    let n = pool.len();
    let mut out: Vec<u16> = Vec::new();
    let mut i: usize = start;
    while n - i > 1
        invariant_except_break
            start <= i,
            (i - start) % 2 == 0,
            out@ + pool_u16_from(pool@, i as int) == pool_u16_from(pool@, start as int),
        invariant
            i <= n,
            n == pool@.len(),
        ensures
            out@ == pool_u16_from(pool@, start as int),
        decreases n - i,
    {
        let u: u16 = (pool[i] as u16) + (pool[i + 1] as u16) * 256;
        if u == 0 {
            proof {
                assert(out@ =~= out@ + Seq::<u16>::empty());
            }
            break;
        }
        let ghost before = out@;
        out.push(u);
        proof {
            assert(out@ + pool_u16_from(pool@, i + 2) =~= before + pool_u16_from(pool@, i as int));
        }
        i = i + 2;
    }
    proof {
        if i + 1 >= n {
            assert(out@ =~= out@ + Seq::<u16>::empty());
        }
    }
    Some(out)
}

/// `two` is a prefix of `one`.
pub open spec fn is_prefix_w(one: Seq<u16>, two: Seq<u16>) -> bool {
    two.len() <= one.len() && one.subrange(0, two.len() as int) == two
}

/// Compares `two` with the start of `one`: 0 when `two` is a prefix of `one`, 1 when `one`
/// is shorter, else one more than the length of their common prefix.
pub fn wide_compare_left(one: &[u16], two: &[u16]) -> (r: i32)
    requires
        two@.len() < i32::MAX,
    ensures
        (r == 0) == is_prefix_w(one@, two@),
        one@.len() < two@.len() ==> r == 1,
{
    if one.len() < two.len() {
        return 1;
    }
    let mut i: usize = 0;
    while i < two.len() && one[i] == two[i]
        invariant
            two@.len() <= one@.len(),
            i <= two@.len(),
            forall|j: int| 0 <= j < i ==> one@[j] == two@[j],
        decreases two@.len() - i,
    {
        i = i + 1;
    }
    if i == two.len() {
        proof {
            assert(one@.subrange(0, two@.len() as int) =~= two@);
        }
        0
    } else {
        proof {
            assert(one@.subrange(0, two@.len() as int)[i as int] != two@[i as int]);
        }
        (i + 1) as i32
    }
}

/// The walk from node `cur` of a tree of (bit or leaf value, left, right) nodes, taking
/// the right child where the key's bit is set, for at most `fuel` nodes: the value of the
/// leaf reached (a node without children), if one is reached at a valid index.
pub open spec fn user_walk(tree: Seq<(u32, i32, i32)>, key: Seq<u16>, cur: int, fuel: nat) -> Option<u32>
    decreases fuel,
{
    if fuel == 0 || cur < 0 || cur >= tree.len() {
        None
    } else {
        let n = tree[cur];
        if n.1 == -1 && n.2 == -1 {
            Some(n.0)
        } else {
            user_walk(tree, key, if bit_set_w(key, n.0) { n.2 as int } else { n.1 as int }, (fuel - 1) as nat)
        }
    }
}

/// The walk from the root (the last node) reaches a leaf.
pub open spec fn user_search_ends(tree: Seq<(u32, i32, i32)>, key: Seq<u16>) -> bool {
    exists|f: nat| #[trigger] user_walk(tree, key, tree.len() - 1, f) is Some
}

/// The leaf value the walk from the root reaches.
pub open spec fn user_search(tree: Seq<(u32, i32, i32)>, key: Seq<u16>) -> u32 {
    user_walk(tree, key, tree.len() - 1, choose|f: nat| #[trigger] user_walk(tree, key, tree.len() - 1, f) is Some)->0
}

proof fn lemma_user_walk_fuel(tree: Seq<(u32, i32, i32)>, key: Seq<u16>, cur: int, f: nat, g: nat)
    requires
        user_walk(tree, key, cur, f) is Some,
        f <= g,
    ensures
        user_walk(tree, key, cur, g) == user_walk(tree, key, cur, f),
    decreases f,
{
    if f > 0 && 0 <= cur < tree.len() {
        let n = tree[cur];
        if !(n.1 == -1 && n.2 == -1) {
            let next = if bit_set_w(key, n.0) { n.2 as int } else { n.1 as int };
            lemma_user_walk_fuel(tree, key, next, (f - 1) as nat, (g - 1) as nat);
        }
    }
}

/// Follows the tree from the root to a leaf and returns the leaf's value.
pub fn aptree_search(tree: &[(u32, i32, i32)], key: &[u16]) -> (r: Option<usize>)
    requires
        tree@.len() > 0,
        user_search_ends(tree@, key@),
    ensures
        r == Some(user_search(tree@, key@) as usize),
{
    let ghost f0: nat = choose|f: nat| #[trigger] user_walk(tree@, key@, tree@.len() - 1, f) is Some;
    let ghost res = user_walk(tree@, key@, tree@.len() - 1, f0);
    let mut node = tree.len() - 1;
    let ghost mut fuel: nat = f0;
    loop
        invariant
            user_walk(tree@, key@, node as int, fuel) == res,
            res is Some,
            res == user_walk(tree@, key@, tree@.len() - 1, f0),
            f0 == choose|f: nat| #[trigger] user_walk(tree@, key@, tree@.len() - 1, f) is Some,
        decreases fuel,
    {
        let (value, left, right) = tree[node];
        if left == -1 && right == -1 {
            return Some(value as usize);
        }
        let next = if test_bit_w(key, value) { right } else { left };
        proof {
            assert(tree@[node as int] == (value, left, right));
            assert(user_walk(tree@, key@, node as int, fuel) == user_walk(tree@, key@, next as int, (fuel - 1) as nat));
            fuel = (fuel - 1) as nat;
            assert(next >= 0);
        }
        node = next as usize;
    }
}

/// The user dictionary: (phrase, reading) entries and the search tree over the phrases.
#[derive(Debug, Clone)]
pub struct UserDic {
    entries: Vec<(Vec<u16>, Vec<u16>)>,
    tree: Vec<(u32, i32, i32)>,
}

impl UserDic {
    /// The (phrase, reading) entries.
    pub closed spec fn entries(&self) -> Seq<(Seq<u16>, Seq<u16>)> {
        self.entries@.map_values(|e: (Vec<u16>, Vec<u16>)| (e.0@, e.1@))
    }

    /// The search tree's (bit or entry index, left, right) nodes.
    pub closed spec fn tree(&self) -> Seq<(u32, i32, i32)> {
        self.tree@
    }

    /// The dictionary with no entries.
    pub fn empty() -> (r: UserDic)
        ensures
            r.entries().len() == 0,
            r.tree().len() == 0,
    {
        UserDic { entries: Vec::new(), tree: Vec::new() }
    }

    /// Number of entries.
    pub fn len(&self) -> (n: usize)
        ensures
            n == self.entries().len(),
    {
        self.entries.len()
    }

    /// Has no entries.
    pub fn is_empty(&self) -> (b: bool)
        ensures
            b == (self.entries().len() == 0),
    {
        self.entries.len() == 0
    }

    /// The phrase and reading of entry `idx`.
    pub fn entry(&self, idx: usize) -> (r: (&[u16], &[u16]))
        requires
            idx < self.entries().len(),
        ensures
            (r.0@, r.1@) == self.entries()[idx as int],
    {
        let e = &self.entries[idx];
        (e.0.as_slice(), e.1.as_slice())
    }

    /// The index of the entry whose phrase the search for `key` reaches, where that phrase
    /// starts `key`; `None` for an empty dictionary or where it does not.
    pub fn phrase_lookup(&self, key: &[u16]) -> (r: Option<usize>)
        requires
            self.entries().len() > 0 && self.tree().len() > 0 ==> user_search_ends(self.tree(), key@)
                && user_search(self.tree(), key@) < self.entries().len()
                && self.entries()[user_search(self.tree(), key@) as int].0.len() < i32::MAX,
        ensures
            self.entries().len() == 0 || self.tree().len() == 0 ==> r is None,
            r matches Some(i) ==> i < self.entries().len() && is_prefix_w(key@, self.entries()[i as int].0),
            self.entries().len() > 0 && self.tree().len() > 0 ==> ({
                let i = user_search(self.tree(), key@);
                if is_prefix_w(key@, self.entries()[i as int].0) {
                    r == Some(i as usize)
                } else {
                    r is None
                }
            }),
    {
        if self.entries.len() == 0 || self.tree.len() == 0 {
            return None;
        }
        let idx = match aptree_search(self.tree.as_slice(), key) {
            Some(i) => i,
            None => {
                return None;
            },
        };
        let src = self.entries[idx].0.as_slice();
        proof {
            assert(self.entries()[idx as int].0 == src@);
        }
        if wide_compare_left(key, src) == 0 {
            Some(idx)
        } else {
            None
        }
    }
}

/// The entries a section file gives: for each of the first (record count) tree nodes,
/// the phrase at its key reference and the reading at its left reference.
pub open spec fn user_entries_ok(sd: SectionDict) -> bool {
    forall|i: int|
        0 <= i < sd.records@.len() ==> #[trigger] pool_u16(sd.key_pool@, sd.tree@[i].value as int) is Some
            && pool_u16(sd.value_pool@, sd.tree@[i].left as int) is Some
}

/// The tree a section file gives: its nodes past the first (record count) ones, then one
/// node per record (key reference, pool reference or -1, next).
pub open spec fn user_tree(sd: SectionDict) -> Seq<(u32, i32, i32)> {
    let n = sd.records@.len() as int;
    sd.tree@.subrange(n, sd.tree@.len() as int).map_values(|t: crate::pronsec::TreeNode| (t.value, t.left, t.right))
        + sd.records@.map_values(|r: crate::pronsec::Record| (r.key_ref, record_left(r.value), r.next))
}

/// The left link a record contributes: its pool reference, else -1.
pub open spec fn record_left(v: RecordValue) -> i32 {
    match v {
        RecordValue::PoolRef(p) => signed32(p as int) as i32,
        _ => -1i32,
    }
}

/// What building the user dictionary from section `sd` gives: success exactly when the
/// tree holds a node for each record and each of those nodes' references lies in its
/// pool; then the entries and tree that section gives.
pub open spec fn user_built(sd: SectionDict, r: KmaResult<UserDic>) -> bool {
    &&& r is Ok <==> sd.tree@.len() >= sd.records@.len() && user_entries_ok(sd)
    &&& r matches Ok(u) ==> u.tree() == user_tree(sd) && u.entries().len() == sd.records@.len() && forall|i: int|
        0 <= i < sd.records@.len() ==> #[trigger] u.entries()[i] == (
            pool_u16(sd.key_pool@, sd.tree@[i].value as int)->0,
            pool_u16(sd.value_pool@, sd.tree@[i].left as int)->0,
        )
}

impl UserDic {
    /// Loads the user dictionary from the bytes of its section file.
    pub fn load_bytes(data: &[u8]) -> (r: KmaResult<UserDic>)
        ensures
            !section_ok(data@, user_layout()) ==> r is Err,
            section_ok(data@, user_layout()) ==> exists|sd: SectionDict|
                #[trigger] section_matches(sd, data@, user_layout()) && user_built(sd, r),
    {
        match parse_user(data) {
            Ok(sd) => {
                let r = Self::from_section(&sd);
                proof {
                    assert(section_matches(sd, data@, user_layout()) && user_built(sd, r));
                }
                r
            },
            Err(e) => {
                let mut m = String::from_str("user.bin: ");
                m.append(e.msg.as_str());
                Err(KmaError(m))
            },
        }
    }

    /// Builds the user dictionary from a parsed section file.
    pub fn from_section(sd: &SectionDict) -> (r: KmaResult<UserDic>)
        ensures
            user_built(*sd, r),
    {
        let n_rec = sd.records.len();
        let n_tree = sd.tree.len();
        if n_tree < n_rec {
            return Err(kma_error("user.bin: fewer tree nodes than records"));
        }
        let mut entries: Vec<(Vec<u16>, Vec<u16>)> = Vec::new();
        let mut i: usize = 0;
        while i < n_rec
            invariant
                n_rec == sd.records@.len() <= sd.tree@.len(),
                i <= n_rec,
                entries@.len() == i,
                forall|j: int| 0 <= j < i ==> #[trigger] pool_u16(sd.key_pool@, sd.tree@[j].value as int) is Some
                    && pool_u16(sd.value_pool@, sd.tree@[j].left as int) is Some,
                forall|j: int| 0 <= j < i ==> (#[trigger] entries@[j]).0@ == pool_u16(sd.key_pool@, sd.tree@[j].value as int)->0
                    && entries@[j].1@ == pool_u16(sd.value_pool@, sd.tree@[j].left as int)->0,
            decreases n_rec - i,
        {
            let n = sd.tree[i];
            let src = match pool_u16_str(sd.key_pool.as_slice(), n.value as usize) {
                Some(s) => s,
                None => {
                    return Err(kma_error("user.bin: record key reference is outside the pool"));
                },
            };
            if n.left < 0 {
                return Err(kma_error("user.bin: record value reference is outside the pool"));
            }
            let tgt = match pool_u16_str(sd.value_pool.as_slice(), n.left as usize) {
                Some(s) => s,
                None => {
                    return Err(kma_error("user.bin: record value reference is outside the pool"));
                },
            };
            entries.push((src, tgt));
            i = i + 1;
        }
        let mut tree: Vec<(u32, i32, i32)> = Vec::new();
        let mut k: usize = n_rec;
        while k < n_tree
            invariant
                n_rec == sd.records@.len() <= n_tree == sd.tree@.len(),
                n_rec <= k <= n_tree,
                tree@ == sd.tree@.subrange(n_rec as int, k as int).map_values(
                    |t: crate::pronsec::TreeNode| (t.value, t.left, t.right),
                ),
            decreases n_tree - k,
        {
            let t = sd.tree[k];
            tree.push((t.value, t.left, t.right));
            k = k + 1;
            proof {
                assert(tree@ =~= sd.tree@.subrange(n_rec as int, k as int).map_values(
                    |t: crate::pronsec::TreeNode| (t.value, t.left, t.right),
                ));
            }
        }
        let ghost head = tree@;
        let mut j: usize = 0;
        while j < n_rec
            invariant
                n_rec == sd.records@.len(),
                j <= n_rec,
                tree@ == head + sd.records@.subrange(0, j as int).map_values(
                    |r: crate::pronsec::Record| (r.key_ref, record_left(r.value), r.next),
                ),
            decreases n_rec - j,
        {
            let r = sd.records[j];
            let left: i32 = match r.value {
                RecordValue::PoolRef(v) => to_i32(v),
                _ => -1,
            };
            tree.push((r.key_ref, left, r.next));
            j = j + 1;
            proof {
                assert(tree@ =~= head + sd.records@.subrange(0, j as int).map_values(
                    |r: crate::pronsec::Record| (r.key_ref, record_left(r.value), r.next),
                ));
            }
        }
        proof {
            assert(sd.records@.subrange(0, n_rec as int) =~= sd.records@);
            assert(tree@ =~= user_tree(*sd));
        }
        if tree.len() != n_tree {
            return Err(kma_error("user.bin: tree node count mismatch"));
        }
        let u = UserDic { entries, tree };
        proof {
            assert forall|i: int| 0 <= i < sd.records@.len() implies #[trigger] u.entries()[i] == (
                pool_u16(sd.key_pool@, sd.tree@[i].value as int)->0,
                pool_u16(sd.value_pool@, sd.tree@[i].left as int)->0,
            ) by {
                assert(u.entries@[i].0@ == pool_u16(sd.key_pool@, sd.tree@[i].value as int)->0);
            }
        }
        Ok(u)
    }
}

} // verus!
