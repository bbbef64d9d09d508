//! Break-index rule file and break-probability hash dictionary.
use vstd::prelude::*;
use std::collections::BTreeMap;
use crate::common::{DictError, DictResult, le16, le32, signed8, signed16, get_le16, get_le32, to_i8, to_i16, hash31, hash31_exec, nul_end, find_zero, copy_range, first_index, lemma_first_index, lemma_first_index_none, lemma_first_index_past, bytes_eq};

verus! {

pub const SRULEMORPH_SIZE: usize = 96;

pub const BIPROB_BUCKETS: usize = 16127;

#[derive(Debug, Clone, Copy, PartialEq, Eq)]
pub struct RuleMorph {
    pub ch_root_pos_tag: i8,
    pub b_root_not_flag: u8,
    pub ch_end_pos_tag: i8,
    pub b_end_not_flag: u8,
    pub sw_string: [u16; 32],
    pub b_string_not_flag: u8,
    pub b_attrib_exist: u8,
    pub w_first_attrib_idx: i16,
    pub b_first_not_flag: u8,
    pub ch_first_cmp_str_idx: i8,
    pub w_second_attrib_idx: i16,
    pub b_second_not_flag: u8,
    pub ch_second_cmp_str_idx: i8,
    pub b_str_pos: u8,
    pub b_start_flag: u8,
    pub b_str_len: u8,
    pub b_over_flag: u8,
    pub b_bi_idx: u8,
    pub b_pos_not_flag: u8,
    pub ch_pos_array: [u8; 12],
}

#[derive(Debug, Clone, PartialEq, Eq)]
pub struct AttribRecord {
    pub items: Vec<Vec<u16>>,
}

#[derive(Debug, Clone, PartialEq, Eq)]
pub struct RuleRecord {
    pub morphs: Vec<RuleMorph>,
}

#[derive(Debug, Clone, PartialEq, Eq)]
pub struct BIRuleFile {
    pub w_rule_num: u16,
    pub w_attrib_num: u16,
    pub w_last: u16,
    pub w_begin: u16,
    pub attributes: Vec<AttribRecord>,
    pub rules: Vec<RuleRecord>,
}

/// The units of a `u16` string stored at `p`, `l` units long.
pub open spec fn units_at(d: Seq<u8>, p: int, l: int) -> Seq<u16> {
    Seq::new(l as nat, |i: int| le16(d, p + 2 * i) as u16)
}

/// The prefix of `s` before its first zero.
pub open spec fn until_zero(s: Seq<u16>) -> Seq<u16> {
    if exists|k: int| 0 <= k < s.len() && s[k] == 0 {
        s.subrange(0, choose|k: int| 0 <= k < s.len() && s[k] == 0 && forall|j: int| 0 <= j < k ==> s[j] != 0)
    } else {
        s
    }
}

/// A signed byte read from `b`.
pub open spec fn i8_from(v: i8, b: u8) -> bool {
    v as int == signed8(b as int)
}

/// A signed little-endian `u16` read at `p`.
pub open spec fn i16_from(v: i16, d: Seq<u8>, p: int) -> bool {
    v as int == signed16(le16(d, p))
}

/// A rule morph as laid out in 96 bytes at `p`.
pub open spec fn rule_morph_at(m: RuleMorph, d: Seq<u8>, p: int) -> bool {
    &&& i8_from(m.ch_root_pos_tag, d[p])
    &&& m.b_root_not_flag == d[p + 1]
    &&& i8_from(m.ch_end_pos_tag, d[p + 2])
    &&& m.b_end_not_flag == d[p + 3]
    &&& m.sw_string@ == units_at(d, p + 4, 32)
    &&& m.b_string_not_flag == d[p + 68]
    &&& m.b_attrib_exist == d[p + 69]
    &&& i16_from(m.w_first_attrib_idx, d, p + 70)
    &&& m.b_first_not_flag == d[p + 72]
    &&& i8_from(m.ch_first_cmp_str_idx, d[p + 73])
    &&& i16_from(m.w_second_attrib_idx, d, p + 74)
    &&& m.b_second_not_flag == d[p + 76]
    &&& i8_from(m.ch_second_cmp_str_idx, d[p + 77])
    &&& m.b_str_pos == d[p + 78]
    &&& m.b_start_flag == d[p + 79]
    &&& m.b_str_len == d[p + 80]
    &&& m.b_over_flag == d[p + 81]
    &&& m.b_bi_idx == d[p + 82]
    &&& m.b_pos_not_flag == d[p + 83]
    &&& m.ch_pos_array@ == d.subrange(p + 84, p + 96)
}

/// `n` length-prefixed `u16` strings starting at `p`: the strings and the end offset.
pub open spec fn spec_items(d: Seq<u8>, p: int, n: int) -> Option<(Seq<Seq<u16>>, int)>
    decreases n,
{
    if n <= 0 {
        Some((Seq::empty(), p))
    } else if p + 1 > d.len() {
        None
    } else {
        let l = d[p] as int;
        if p + 1 + 2 * l > d.len() {
            None
        } else {
            match spec_items(d, p + 1 + 2 * l, n - 1) {
                Some((rest, q)) => Some((seq![units_at(d, p + 1, l)] + rest, q)),
                None => None,
            }
        }
    }
}

/// `n` attribute records starting at `p`, each a `u32` item count followed by its items.
pub open spec fn spec_attribs(d: Seq<u8>, p: int, n: int) -> Option<(Seq<Seq<Seq<u16>>>, int)>
    decreases n,
{
    if n <= 0 {
        Some((Seq::empty(), p))
    } else if p + 4 > d.len() {
        None
    } else {
        match spec_items(d, p + 4, le32(d, p)) {
            Some((items, q)) => match spec_attribs(d, q, n - 1) {
                Some((rest, e)) => Some((seq![items] + rest, e)),
                None => None,
            },
            None => None,
        }
    }
}

/// `n` rule records starting at `p`: for each, where its morphs start and how many there are.
pub open spec fn spec_rules(d: Seq<u8>, p: int, n: int) -> Option<(Seq<(int, int)>, int)>
    decreases n,
{
    if n <= 0 {
        Some((Seq::empty(), p))
    } else if p + 4 > d.len() {
        None
    } else {
        let c = le32(d, p);
        if c == 0 || c > 16 || p + 4 + 96 * c > d.len() {
            None
        } else {
            match spec_rules(d, p + 4 + 96 * c, n - 1) {
                Some((rest, e)) => Some((seq![(p + 4, c)] + rest, e)),
                None => None,
            }
        }
    }
}

pub open spec fn attrib_view(a: AttribRecord) -> Seq<Seq<u16>> {
    a.items@.map_values(|v: Vec<u16>| v@)
}

/// The whole rule file: 8 bytes of padding, four `u16` counts, the attributes, the rules,
/// and nothing after them.
pub open spec fn rule_file_ok(d: Seq<u8>) -> bool {
    d.len() >= 16 && match spec_attribs(d, 16, le16(d, 10)) {
        Some((attrs, p)) => match spec_rules(d, p, le16(d, 8)) {
            Some((rules, q)) => q == d.len(),
            None => false,
        },
        None => false,
    }
}

pub open spec fn parsed_attribs(d: Seq<u8>) -> Seq<Seq<Seq<u16>>> {
    match spec_attribs(d, 16, le16(d, 10)) {
        Some((attrs, p)) => attrs,
        None => Seq::empty(),
    }
}

pub open spec fn parsed_rules(d: Seq<u8>) -> Seq<(int, int)> {
    match spec_attribs(d, 16, le16(d, 10)) {
        Some((attrs, p)) => match spec_rules(d, p, le16(d, 8)) {
            Some((rules, q)) => rules,
            None => Seq::empty(),
        },
        None => Seq::empty(),
    }
}

pub open spec fn rule_file_matches(f: BIRuleFile, d: Seq<u8>) -> bool {
    let attrs = parsed_attribs(d);
    let rules = parsed_rules(d);
    &&& f.w_rule_num as int == le16(d, 8)
    &&& f.w_attrib_num as int == le16(d, 10)
    &&& f.w_last as int == le16(d, 12)
    &&& f.w_begin as int == le16(d, 14)
    &&& f.attributes@.len() == attrs.len()
    &&& forall|i: int| 0 <= i < attrs.len() ==> attrib_view(#[trigger] f.attributes@[i]) == attrs[i]
    &&& f.rules@.len() == rules.len()
    &&& forall|i: int|
        0 <= i < rules.len() ==> (#[trigger] f.rules@[i]).morphs@.len() == rules[i].1
            && forall|k: int|
            0 <= k < rules[i].1 ==> rule_morph_at(
                #[trigger] f.rules@[i].morphs@[k],
                d,
                rules[i].0 + 96 * k,
            )
}

fn read_units(d: &[u8], p: usize, l: usize) -> (r: Vec<u16>)
    requires
        p + 2 * l <= d@.len(),
    ensures
        r@ == units_at(d@, p as int, l as int),
{
    let dlen = d.len();
    let mut out: Vec<u16> = Vec::new();
    let mut i: usize = 0;
    while i < l
        invariant
            dlen == d@.len(),
            p + 2 * l <= d@.len(),
            i <= l,
            out@ == units_at(d@, p as int, i as int),
        decreases l - i,
    {
        out.push(get_le16(d, p + 2 * i));
        i = i + 1;
        assert(out@ =~= units_at(d@, p as int, i as int));
    }
    out
}

pub open spec fn rule_morph_at_pos(m: RuleMorph, d: Seq<u8>, p: usize) -> bool {
    rule_morph_at(m, d, p as int)
}

fn read_string32(d: &[u8], p: usize) -> (a: [u16; 32])
    requires
        p + 64 <= d@.len(),
    ensures
        a@ == units_at(d@, p as int, 32),
{
    let dlen = d.len();
    let mut a = [0u16; 32];
    let mut i: usize = 0;
    while i < 32
        invariant
            dlen == d@.len(),
            p + 64 <= d@.len(),
            i <= 32,
            forall|k: int| 0 <= k < i ==> a@[k] == le16(d@, p + 2 * k) as u16,
        decreases 32 - i,
    {
        a[i] = get_le16(d, p + 2 * i);
        i = i + 1;
    }
    assert(a@ =~= units_at(d@, p as int, 32));
    a
}

fn read_bytes12(d: &[u8], p: usize) -> (a: [u8; 12])
    requires
        p + 12 <= d@.len(),
    ensures
        a@ == d@.subrange(p as int, p + 12),
{
    let dlen = d.len();
    let mut a = [0u8; 12];
    let mut i: usize = 0;
    while i < 12
        invariant
            dlen == d@.len(),
            p + 12 <= d@.len(),
            i <= 12,
            forall|k: int| 0 <= k < i ==> a@[k] == d@[p + k],
        decreases 12 - i,
    {
        a[i] = d[p + i];
        i = i + 1;
    }
    assert(a@ =~= d@.subrange(p as int, p + 12));
    a
}

fn parse_rule_morph(d: &[u8], p: usize) -> (m: RuleMorph)
    requires
        p + 96 <= d@.len(),
    ensures
        rule_morph_at_pos(m, d@, p),
{
    let dlen = d.len();
    let sw_string = read_string32(d, p + 4);
    let ch_pos_array = read_bytes12(d, p + 84);
    let m = RuleMorph {
        ch_root_pos_tag: to_i8(d[p]),
        b_root_not_flag: d[p + 1],
        ch_end_pos_tag: to_i8(d[p + 2]),
        b_end_not_flag: d[p + 3],
        sw_string,
        b_string_not_flag: d[p + 68],
        b_attrib_exist: d[p + 69],
        w_first_attrib_idx: to_i16(get_le16(d, p + 70)),
        b_first_not_flag: d[p + 72],
        ch_first_cmp_str_idx: to_i8(d[p + 73]),
        w_second_attrib_idx: to_i16(get_le16(d, p + 74)),
        b_second_not_flag: d[p + 76],
        ch_second_cmp_str_idx: to_i8(d[p + 77]),
        b_str_pos: d[p + 78],
        b_start_flag: d[p + 79],
        b_str_len: d[p + 80],
        b_over_flag: d[p + 81],
        b_bi_idx: d[p + 82],
        b_pos_not_flag: d[p + 83],
        ch_pos_array,
    };
    m
}

fn parse_items(d: &[u8], p0: usize, n: u32) -> (r: DictResult<(Vec<Vec<u16>>, usize)>)
    requires
        p0 <= d@.len(),
    ensures
        match spec_items(d@, p0 as int, n as int) {
            Some((items, q)) => r is Ok && r->Ok_0.0@.map_values(|v: Vec<u16>| v@) == items
                && r->Ok_0.1 == q,
            None => r is Err,
        },
        r matches Ok((_, q)) ==> q <= d@.len(),
{
    let dlen = d.len();
    let mut items: Vec<Vec<u16>> = Vec::new();
    let mut p = p0;
    let mut k: u32 = 0;
    while k < n
        invariant
            dlen == d@.len(),
            p <= d@.len(),
            k <= n,
            spec_items(d@, p0 as int, n as int) == match spec_items(d@, p as int, (n - k) as int) {
                Some((rest, q)) => Some((items@.map_values(|v: Vec<u16>| v@) + rest, q)),
                None => None,
            },
        decreases n - k,
    {
        if p >= d.len() {
            return Err(DictError::new("u8 EOF", p));
        }
        let l = d[p] as usize;
        if d.len() - p - 1 < 2 * l {
            return Err(DictError::new("u16 EOF", p + 1));
        }
        let s = read_units(d, p + 1, l);
        let ghost old_items = items@.map_values(|v: Vec<u16>| v@);
        items.push(s);
        proof {
            assert(items@.map_values(|v: Vec<u16>| v@) =~= old_items.push(units_at(d@, p + 1, l as int)));
            let tail = spec_items(d@, p + 1 + 2 * l, (n - k - 1) as int);
            match tail {
                Some((rest, q)) => {
                    assert(old_items + (seq![units_at(d@, p + 1, l as int)] + rest) =~= old_items.push(units_at(d@, p + 1, l as int)) + rest);
                },
                None => {},
            }
        }
        p = p + 1 + 2 * l;
        k = k + 1;
    }
    proof {
        assert(items@.map_values(|v: Vec<u16>| v@) + Seq::<Seq<u16>>::empty() =~= items@.map_values(|v: Vec<u16>| v@));
    }
    Ok((items, p))
}

fn parse_attribs(d: &[u8], p0: usize, n: u16) -> (r: DictResult<(Vec<AttribRecord>, usize)>)
    requires
        p0 <= d@.len(),
    ensures
        match spec_attribs(d@, p0 as int, n as int) {
            Some((attrs, q)) => r is Ok && r->Ok_0.0@.map_values(|a: AttribRecord| attrib_view(a)) == attrs
                && r->Ok_0.1 == q,
            None => r is Err,
        },
        r matches Ok((_, q)) ==> q <= d@.len(),
{
    let dlen = d.len();
    let mut attrs: Vec<AttribRecord> = Vec::new();
    let mut p = p0;
    let mut k: u16 = 0;
    while k < n
        invariant
            dlen == d@.len(),
            p <= d@.len(),
            k <= n,
            spec_attribs(d@, p0 as int, n as int) == match spec_attribs(d@, p as int, (n - k) as int) {
                Some((rest, q)) => Some((attrs@.map_values(|a: AttribRecord| attrib_view(a)) + rest, q)),
                None => None,
            },
        decreases n - k,
    {
        if d.len() - p < 4 {
            return Err(DictError::new("u32 EOF", p));
        }
        let c = get_le32(d, p);
        let (items, q) = parse_items(d, p + 4, c)?;
        let ghost old_attrs = attrs@.map_values(|a: AttribRecord| attrib_view(a));
        let a = AttribRecord { items };
        attrs.push(a);
        proof {
            assert(attrs@.map_values(|a: AttribRecord| attrib_view(a)) =~= old_attrs.push(attrib_view(a)));
            let tail = spec_attribs(d@, q as int, (n - k - 1) as int);
            match tail {
                Some((rest, e)) => {
                    assert(old_attrs + (seq![attrib_view(a)] + rest) =~= old_attrs.push(attrib_view(a)) + rest);
                },
                None => {},
            }
        }
        p = q;
        k = k + 1;
    }
    proof {
        assert(attrs@.map_values(|a: AttribRecord| attrib_view(a)) + Seq::<Seq<Seq<u16>>>::empty() =~= attrs@.map_values(|a: AttribRecord| attrib_view(a)));
    }
    Ok((attrs, p))
}

pub open spec fn rules_view_ok(rs: Seq<RuleRecord>, spec: Seq<(int, int)>, d: Seq<u8>) -> bool {
    &&& rs.len() == spec.len()
    &&& forall|i: int|
        0 <= i < spec.len() ==> (#[trigger] rs[i]).morphs@.len() == spec[i].1 && forall|k: int|
            0 <= k < spec[i].1 ==> rule_morph_at(#[trigger] rs[i].morphs@[k], d, spec[i].0 + 96 * k)
}

fn parse_rules(d: &[u8], p0: usize, n: u16) -> (r: DictResult<(Vec<RuleRecord>, usize)>)
    requires
        p0 <= d@.len(),
    ensures
        match spec_rules(d@, p0 as int, n as int) {
            Some((rs, q)) => r is Ok && rules_view_ok(r->Ok_0.0@, rs, d@) && r->Ok_0.1 == q,
            None => r is Err,
        },
{
    let dlen = d.len();
    let mut rules: Vec<RuleRecord> = Vec::new();
    let ghost mut done: Seq<(int, int)> = Seq::empty();
    let mut p = p0;
    let mut k: u16 = 0;
    while k < n
        invariant
            dlen == d@.len(),
            p <= d@.len(),
            k <= n,
            rules_view_ok(rules@, done, d@),
            spec_rules(d@, p0 as int, n as int) == match spec_rules(d@, p as int, (n - k) as int) {
                Some((rest, q)) => Some((done + rest, q)),
                None => None,
            },
        decreases n - k,
    {
        if d.len() - p < 4 {
            return Err(DictError::new("u32 EOF", p));
        }
        let c = get_le32(d, p);
        if c == 0 || c > 16 {
            return Err(DictError::new("abnormal rule morph count", p));
        }
        let cu = c as usize;
        if d.len() - p - 4 < 96 * cu {
            return Err(DictError::new("rule morph EOF", p + 4));
        }
        let mut morphs: Vec<RuleMorph> = Vec::new();
        let mut j: usize = 0;
        while j < cu
            invariant
                dlen == d@.len(),
            dlen == d@.len(),
                p + 4 + 96 * cu <= d@.len(),
                j <= cu,
                morphs@.len() == j,
                forall|t: int| 0 <= t < j ==> rule_morph_at(#[trigger] morphs@[t], d@, p + 4 + 96 * t),
            decreases cu - j,
        {
            let m = parse_rule_morph(d, p + 4 + 96 * j);
            morphs.push(m);
            j = j + 1;
        }
        let rec = RuleRecord { morphs };
        let ghost old_done = done;
        let ghost old_rules = rules@;
        rules.push(rec);
        proof {
            done = done.push((p + 4, c as int));
            assert forall|i: int| 0 <= i < done.len() implies (#[trigger] rules@[i]).morphs@.len() == done[i].1 && forall|t: int|
                0 <= t < done[i].1 ==> rule_morph_at(#[trigger] rules@[i].morphs@[t], d@, done[i].0 + 96 * t) by {
                if i < old_done.len() {
                    assert(rules@[i] == old_rules[i]);
                }
            }
            let tail = spec_rules(d@, p + 4 + 96 * c, (n - k - 1) as int);
            match tail {
                Some((rest, e)) => {
                    assert(old_done + (seq![(p + 4, c as int)] + rest) =~= done + rest);
                },
                None => {},
            }
        }
        p = p + 4 + 96 * cu;
        k = k + 1;
    }
    proof {
        assert(done + Seq::<(int, int)>::empty() =~= done);
    }
    Ok((rules, p))
}

/// Parses the break-index rule dictionary.
pub fn parse_rule(data: &[u8]) -> (r: DictResult<BIRuleFile>)
    ensures
        r is Ok <==> rule_file_ok(data@),
        r matches Ok(f) ==> rule_file_matches(f, data@),
{
    if data.len() < 16 {
        return Err(DictError::new("header EOF", data.len()));
    }
    let w_rule_num = get_le16(data, 8);
    let w_attrib_num = get_le16(data, 10);
    let w_last = get_le16(data, 12);
    let w_begin = get_le16(data, 14);
    let (attributes, p) = parse_attribs(data, 16, w_attrib_num)?;
    let (rules, q) = parse_rules(data, p, w_rule_num)?;
    if q != data.len() {
        return Err(DictError::new("rule file not fully consumed", q));
    }
    let f = BIRuleFile { w_rule_num, w_attrib_num, w_last, w_begin, attributes, rules };
    proof {
        let attrs = parsed_attribs(data@);
        assert forall|i: int| 0 <= i < attrs.len() implies attrib_view(#[trigger] f.attributes@[i]) == attrs[i] by {
            assert(f.attributes@.map_values(|a: AttribRecord| attrib_view(a))[i] == attrs[i]);
        }
    }
    Ok(f)
}


/// The characters of a rule morph's string up to its first zero.
pub open spec fn string_prefix(s: Seq<u16>) -> Seq<u16> {
    until_zero(s)
}

impl RuleMorph {
    /// The morph's string without its zero padding.
    pub fn string(&self) -> (r: Vec<u16>)
        ensures
            r@ == until_zero(self.sw_string@),
    {
        let mut out: Vec<u16> = Vec::new();
        let mut i: usize = 0;
        while i < 32 && self.sw_string[i] != 0
            invariant
                i <= 32,
                self.sw_string@.len() == 32,
                out@ == self.sw_string@.subrange(0, i as int),
                forall|j: int| 0 <= j < i ==> self.sw_string@[j] != 0,
            decreases 32 - i,
        {
            out.push(self.sw_string[i]);
            i = i + 1;
            assert(out@ =~= self.sw_string@.subrange(0, i as int));
        }
        proof {
            let s = self.sw_string@;
            if i < 32 {
                let k = choose|k: int| 0 <= k < s.len() && s[k] == 0 && forall|j: int| 0 <= j < k ==> s[j] != 0;
                assert(s[i as int] == 0);
                if k < i {
                    assert(s[k] != 0);
                }
                if k > i {
                    assert(s[i as int] != 0);
                }
            } else {
                assert(out@ =~= s);
            }
        }
        out
    }
}

/// Sum of the lengths of nested sequences.
pub open spec fn total_len<T>(s: Seq<Seq<T>>) -> int
    decreases s.len(),
{
    if s.len() == 0 {
        0
    } else {
        total_len(s.drop_last()) + s.last().len()
    }
}

impl BIRuleFile {
    /// Total number of attribute items.
    pub fn attrib_item_count(&self) -> (n: usize)
        requires
            total_len(self.attributes@.map_values(|a: AttribRecord| a.items@)) <= usize::MAX,
        ensures
            n == total_len(self.attributes@.map_values(|a: AttribRecord| a.items@)),
    {
        let ghost all = self.attributes@.map_values(|a: AttribRecord| a.items@);
        let mut n: usize = 0;
        let mut i: usize = 0;
        while i < self.attributes.len()
            invariant
                i <= self.attributes@.len(),
                all == self.attributes@.map_values(|a: AttribRecord| a.items@),
                total_len(all) <= usize::MAX,
                n == total_len(all.subrange(0, i as int)),
            decreases self.attributes@.len() - i,
        {
            proof {
                assert(all.subrange(0, i + 1).drop_last() =~= all.subrange(0, i as int));
                lemma_total_len_prefix(all, i + 1);
            }
            n = n + self.attributes[i].items.len();
            i = i + 1;
        }
        assert(all.subrange(0, i as int) =~= all);
        n
    }

    /// Total number of rule morphs.
    pub fn morph_count(&self) -> (n: usize)
        requires
            total_len(self.rules@.map_values(|r: RuleRecord| r.morphs@)) <= usize::MAX,
        ensures
            n == total_len(self.rules@.map_values(|r: RuleRecord| r.morphs@)),
    {
        let ghost all = self.rules@.map_values(|r: RuleRecord| r.morphs@);
        let mut n: usize = 0;
        let mut i: usize = 0;
        while i < self.rules.len()
            invariant
                i <= self.rules@.len(),
                all == self.rules@.map_values(|r: RuleRecord| r.morphs@),
                total_len(all) <= usize::MAX,
                n == total_len(all.subrange(0, i as int)),
            decreases self.rules@.len() - i,
        {
            proof {
                assert(all.subrange(0, i + 1).drop_last() =~= all.subrange(0, i as int));
                lemma_total_len_prefix(all, i + 1);
            }
            n = n + self.rules[i].morphs.len();
            i = i + 1;
        }
        assert(all.subrange(0, i as int) =~= all);
        n
    }
}

/// The break indexes of all rule morphs, rule after rule.
pub open spec fn bi_indices(rules: Seq<RuleRecord>) -> Seq<u8>
    decreases rules.len(),
{
    if rules.len() == 0 {
        Seq::empty()
    } else {
        bi_indices(rules.drop_last()) + rules.last().morphs@.map_values(|m: RuleMorph| m.b_bi_idx)
    }
}

/// How many times each value occurs in `s` (the values that occur).
pub open spec fn histogram(s: Seq<u8>) -> Map<u8, nat>
    decreases s.len(),
{
    if s.len() == 0 {
        Map::empty()
    } else {
        let m = histogram(s.drop_last());
        let k = s.last();
        m.insert(
            k,
            if m.contains_key(k) {
                m[k] + 1
            } else {
                1
            },
        )
    }
}

proof fn lemma_histogram_bound(s: Seq<u8>)
    ensures
        forall|k: u8| #[trigger] histogram(s).contains_key(k) ==> histogram(s)[k] <= s.len(),
    decreases s.len(),
{
    if s.len() > 0 {
        let p = s.drop_last();
        lemma_histogram_bound(p);
        assert forall|k: u8| #[trigger] histogram(s).contains_key(k) implies histogram(s)[k] <= s.len() by {
            let m = histogram(p);
            let c: nat = if m.contains_key(s.last()) { m[s.last()] + 1 } else { 1 };
            assert(histogram(s) == m.insert(s.last(), c));
            if k != s.last() {
                assert(m.contains_key(k));
                assert(histogram(s)[k] == m[k]);
            } else {
                assert(histogram(s)[k] == c);
            }
        }
    }
}

impl BIRuleFile {
    /// How many rule morphs carry each break index (the indexes that occur).
    pub fn bi_idx_histogram(&self) -> (r: BTreeMap<u8, usize>)
        requires
            bi_indices(self.rules@).len() <= usize::MAX,
        ensures
            forall|k: u8| r@.contains_key(k) <==> histogram(bi_indices(self.rules@)).contains_key(k),
            forall|k: u8| #[trigger] r@.contains_key(k) ==> r@[k] == histogram(bi_indices(self.rules@))[k],
    {
        let ghost all = bi_indices(self.rules@);
        let mut m: BTreeMap<u8, usize> = BTreeMap::new();
        let mut i: usize = 0;
        proof {
            assert(self.rules@.subrange(0, 0) =~= Seq::<RuleRecord>::empty());
            assert(bi_indices(self.rules@.subrange(0, 0)) =~= Seq::<u8>::empty());
        }
        while i < self.rules.len()
            invariant
                i <= self.rules@.len(),
                all == bi_indices(self.rules@),
                all.len() <= usize::MAX,
                bi_indices(self.rules@.subrange(0, i as int)).len() <= all.len(),
                forall|k: u8| m@.contains_key(k) <==> histogram(bi_indices(self.rules@.subrange(0, i as int))).contains_key(k),
                forall|k: u8| #[trigger] m@.contains_key(k) ==> m@[k] == histogram(bi_indices(self.rules@.subrange(0, i as int)))[k],
            decreases self.rules@.len() - i,
        {
            let ghost before = bi_indices(self.rules@.subrange(0, i as int));
            let ghost row = self.rules@[i as int].morphs@.map_values(|x: RuleMorph| x.b_bi_idx);
            proof {
                assert(self.rules@.subrange(0, i + 1).drop_last() =~= self.rules@.subrange(0, i as int));
                assert(bi_indices(self.rules@.subrange(0, i + 1)) == before + row);
                lemma_bi_indices_prefix(self.rules@, i + 1);
            }
            let morphs = &self.rules[i].morphs;
            let mut j: usize = 0;
            while j < morphs.len()
                invariant
                    j <= morphs@.len(),
                    row == morphs@.map_values(|x: RuleMorph| x.b_bi_idx),
                    (before + row).len() <= usize::MAX,
                    forall|k: u8| m@.contains_key(k) <==> histogram(before + row.subrange(0, j as int)).contains_key(k),
                    forall|k: u8| #[trigger] m@.contains_key(k) ==> m@[k] == histogram(before + row.subrange(0, j as int))[k],
                decreases morphs@.len() - j,
            {
                let ghost seen = before + row.subrange(0, j as int);
                let ghost next = before + row.subrange(0, j + 1);
                let k = morphs[j].b_bi_idx;
                proof {
                    assert(next.drop_last() =~= seen);
                    assert(next.last() == k);
                    lemma_histogram_bound(seen);
                    assert(seen.len() < (before + row).len());
                }
                let c: usize = match m.get(&k) {
                    Some(v) => *v + 1,
                    None => 1,
                };
                m.insert(k, c);
                j = j + 1;
                proof {
                    assert(histogram(next) == histogram(seen).insert(k, c as nat));
                }
            }
            proof {
                assert(row.subrange(0, j as int) =~= row);
            }
            i = i + 1;
        }
        proof {
            assert(self.rules@.subrange(0, i as int) =~= self.rules@);
        }
        m
    }
}

proof fn lemma_bi_indices_prefix(rules: Seq<RuleRecord>, k: int)
    requires
        0 <= k <= rules.len(),
    ensures
        bi_indices(rules.subrange(0, k)).len() <= bi_indices(rules).len(),
    decreases rules.len() - k,
{
    if k < rules.len() {
        lemma_bi_indices_prefix(rules, k + 1);
        assert(rules.subrange(0, k + 1).drop_last() =~= rules.subrange(0, k));
    } else {
        assert(rules.subrange(0, k) =~= rules);
    }
}

/// A prefix never holds more than the whole.
pub proof fn lemma_total_len_prefix<T>(s: Seq<Seq<T>>, k: int)
    requires
        0 <= k <= s.len(),
    ensures
        total_len(s.subrange(0, k)) <= total_len(s),
    decreases s.len() - k,
{
    if k < s.len() {
        lemma_total_len_prefix(s, k + 1);
        assert(s.subrange(0, k + 1).drop_last() =~= s.subrange(0, k));
    } else {
        assert(s.subrange(0, k) =~= s);
    }
}

#[derive(Debug, Clone, PartialEq, Eq)]
pub struct BIProbHashBin {
    pub buckets: Vec<u32>,
}

/// Number of non-zero entries in `s[..k]`.
pub open spec fn count_nonzero(s: Seq<u32>, k: int) -> int
    decreases k,
{
    if k <= 0 {
        0
    } else {
        count_nonzero(s, k - 1) + if s[k - 1] != 0 {
            1int
        } else {
            0
        }
    }
}

/// Largest entry of `s[..k]` (0 when empty).
pub open spec fn max_of(s: Seq<u32>, k: int) -> int
    decreases k,
{
    if k <= 0 {
        0
    } else if s[k - 1] as int > max_of(s, k - 1) {
        s[k - 1] as int
    } else {
        max_of(s, k - 1)
    }
}

impl BIProbHashBin {
    /// Number of used buckets.
    pub fn non_zero_count(&self) -> (n: usize)
        ensures
            n == count_nonzero(self.buckets@, self.buckets@.len() as int),
    {
        let mut n: usize = 0;
        let mut i: usize = 0;
        while i < self.buckets.len()
            invariant
                i <= self.buckets@.len(),
                n == count_nonzero(self.buckets@, i as int),
                n <= i,
            decreases self.buckets@.len() - i,
        {
            if self.buckets[i] != 0 {
                n = n + 1;
            }
            i = i + 1;
        }
        n
    }

    /// The largest bucket value (0 when there are none).
    pub fn max_offset(&self) -> (m: u32)
        ensures
            m as int == max_of(self.buckets@, self.buckets@.len() as int),
    {
        let mut m: u32 = 0;
        let mut i: usize = 0;
        while i < self.buckets.len()
            invariant
                i <= self.buckets@.len(),
                m as int == max_of(self.buckets@, i as int),
            decreases self.buckets@.len() - i,
        {
            if self.buckets[i] > m {
                m = self.buckets[i];
            }
            i = i + 1;
        }
        m
    }
}

/// `n` little-endian `u32` words starting at `p`.
pub open spec fn words_at(d: Seq<u8>, p: int, n: int) -> Seq<u32> {
    Seq::new(n as nat, |i: int| le32(d, p + 4 * i) as u32)
}

/// Reads `n` little-endian `u32` words starting at `p`.
pub fn read_words(d: &[u8], p: usize, n: usize) -> (r: Vec<u32>)
    requires
        p + 4 * n <= d@.len(),
    ensures
        r@ == words_at(d@, p as int, n as int),
{
    let dlen = d.len();
    let mut out: Vec<u32> = Vec::new();
    let mut i: usize = 0;
    while i < n
        invariant
            dlen == d@.len(),
            p + 4 * n <= d@.len(),
            i <= n,
            out@ == words_at(d@, p as int, i as int),
        decreases n - i,
    {
        out.push(get_le32(d, p + 4 * i));
        i = i + 1;
        assert(out@ =~= words_at(d@, p as int, i as int));
    }
    out
}

/// Parses the break-probability hash bin: exactly `BIPROB_BUCKETS` words.
pub fn parse_prob_bin(data: &[u8]) -> (r: DictResult<BIProbHashBin>)
    ensures
        r is Ok <==> data@.len() == BIPROB_BUCKETS * 4,
        r matches Ok(b) ==> b.buckets@ == words_at(data@, 0, BIPROB_BUCKETS as int),
{
    if data.len() != BIPROB_BUCKETS * 4 {
        return Err(DictError::new("BIProb_hash.bin size mismatch", 0));
    }
    Ok(BIProbHashBin { buckets: read_words(data, 0, BIPROB_BUCKETS) })
}

/// Bucket index of a key: `hash31` of its bytes, modulo `BIPROB_BUCKETS`.
pub fn hash_value(key: &[u8]) -> (h: u32)
    ensures
        h as int == hash31(key@) % (BIPROB_BUCKETS as int),
{
    hash31_exec(key, false) % 16127
}

#[derive(Debug, Clone, PartialEq, Eq)]
pub struct ProbRecord {
    pub bucket: usize,
    pub offset: usize,
    pub keys: Vec<Vec<u8>>,
    /// IEEE-754 bit patterns of the single-precision probabilities.
    pub values: Vec<u32>,
}

#[derive(Debug, Clone, PartialEq, Eq)]
pub struct BIProbDic {
    pub records: Vec<ProbRecord>,
    pub key_count: usize,
}

pub open spec fn pr_count(d: Seq<u8>, p: int) -> int {
    d[p] as int
}

pub open spec fn pr_blen(d: Seq<u8>, p: int) -> int {
    d[p + 1] as int
}

pub open spec fn pr_buf(d: Seq<u8>, p: int) -> int {
    p + 2 + pr_count(d, p)
}

pub open spec fn pr_end(d: Seq<u8>, p: int) -> int {
    p + 2 + 5 * pr_count(d, p) + pr_blen(d, p)
}

/// The record at `p` lies inside the data.
pub open spec fn pr_fits(d: Seq<u8>, p: int) -> bool {
    0 <= p && p + 2 <= d.len() && pr_end(d, p) <= d.len()
}

/// The `j`-th key of the record at `p`: from its offset in the string buffer up to a zero
/// or the end of the buffer.
pub open spec fn pr_key(d: Seq<u8>, p: int, j: int) -> Seq<u8> {
    let buf = d.subrange(pr_buf(d, p), pr_buf(d, p) + pr_blen(d, p));
    let ko = d[p + 2 + j] as int;
    buf.subrange(ko, nul_end(buf, ko))
}

pub open spec fn pr_value(d: Seq<u8>, p: int, j: int) -> u32 {
    le32(d, pr_buf(d, p) + pr_blen(d, p) + 4 * j) as u32
}

/// The record at `p` is well formed and all of its keys hash to `bucket`.
pub open spec fn pr_ok(d: Seq<u8>, p: int, bucket: int) -> bool {
    &&& pr_fits(d, p)
    &&& forall|j: int| 0 <= j < pr_count(d, p) ==> (#[trigger] d[p + 2 + j]) < pr_blen(d, p)
    &&& forall|j: int|
        0 <= j < pr_count(d, p) ==> hash31(#[trigger] pr_key(d, p, j)) % (BIPROB_BUCKETS as int)
            == bucket
}

/// Record starts obtained by walking from `p` to the end of the data.
pub open spec fn pr_chain(d: Seq<u8>, p: int) -> Option<Seq<int>>
    decreases d.len() - p,
{
    if p < 0 || p > d.len() {
        None
    } else if p == d.len() {
        Some(Seq::empty())
    } else if !pr_fits(d, p) {
        None
    } else {
        match pr_chain(d, pr_end(d, p)) {
            Some(rest) => Some(seq![p] + rest),
            None => None,
        }
    }
}

/// The dictionary parses when its records tile the data, every used bucket points at a
/// distinct record start, every record start is pointed at by a bucket, and that record's
/// keys hash to the bucket.
pub open spec fn prob_dic_ok(d: Seq<u8>, b: Seq<u32>) -> bool {
    match pr_chain(d, 0) {
        Some(starts) => {
            &&& forall|i: int| 0 <= i < b.len() && b[i] != 0 ==> starts.contains(b[i] - 1)
            &&& forall|i: int, j: int|
                0 <= i < b.len() && 0 <= j < b.len() && b[i] != 0 && b[i] == b[j] ==> i == j
            &&& forall|k: int|
                #![trigger starts[k]]
                0 <= k < starts.len() ==> exists|i: int|
                    #![trigger b[i]]
                    0 <= i < b.len() && b[i] == starts[k] + 1 && pr_ok(d, starts[k], i)
        },
        None => false,
    }
}

pub open spec fn prob_record_at(r: ProbRecord, d: Seq<u8>, b: Seq<u32>, p: int) -> bool {
    &&& r.offset == p
    &&& 0 <= r.bucket < b.len()
    &&& b[r.bucket as int] == p + 1
    &&& r.keys@.len() == pr_count(d, p)
    &&& forall|j: int| 0 <= j < pr_count(d, p) ==> (#[trigger] r.keys@[j])@ == pr_key(d, p, j)
    &&& r.values@ == Seq::new(pr_count(d, p) as nat, |j: int| pr_value(d, p, j))
}

pub open spec fn prob_dic_matches(x: BIProbDic, d: Seq<u8>, b: Seq<u32>) -> bool {
    let starts = pr_chain(d, 0)->0;
    &&& x.records@.len() == starts.len()
    &&& forall|k: int| 0 <= k < starts.len() ==> prob_record_at(#[trigger] x.records@[k], d, b, starts[k])
    &&& x.key_count == total_len(x.records@.map_values(|r: ProbRecord| r.keys@))
}

proof fn lemma_chain_step(d: Seq<u8>, p: int)
    requires
        0 <= p < d.len(),
        pr_fits(d, p),
    ensures
        pr_chain(d, p) == match pr_chain(d, pr_end(d, p)) {
            Some(rest) => Some(seq![p] + rest),
            None => None::<Seq<int>>,
        },
{
}

/// Reads the record at `p` (already known to fit) and checks its keys against `bucket`.
fn parse_prob_record(d: &[u8], p: usize, bucket: usize) -> (r: Option<ProbRecord>)
    requires
        pr_fits(d@, p as int),
    ensures
        r is Some <==> pr_ok(d@, p as int, bucket as int),
        r matches Some(rec) ==> rec.offset == p && rec.bucket == bucket && rec.keys@.len() == pr_count(
            d@,
            p as int,
        ) && (forall|j: int|
            0 <= j < pr_count(d@, p as int) ==> (#[trigger] rec.keys@[j])@ == pr_key(d@, p as int, j))
            && rec.values@ == Seq::new(pr_count(d@, p as int) as nat, |j: int| pr_value(d@, p as int, j)),
{
    let dlen = d.len();
    let c = d[p] as usize;
    let blen = d[p + 1] as usize;
    let bs = p + 2 + c;
    let buf = copy_range(d, bs, bs + blen);
    let mut keys: Vec<Vec<u8>> = Vec::new();
    let mut j: usize = 0;
    while j < c
        invariant
            dlen == d@.len(),
            pr_fits(d@, p as int),
            c == pr_count(d@, p as int),
            blen == pr_blen(d@, p as int),
            bs == pr_buf(d@, p as int),
            buf@ == d@.subrange(bs as int, bs + blen),
            j <= c,
            keys@.len() == j,
            forall|t: int| 0 <= t < j ==> (#[trigger] d@[p + 2 + t]) < blen,
            forall|t: int| 0 <= t < j ==> (#[trigger] keys@[t])@ == pr_key(d@, p as int, t),
            forall|t: int| 0 <= t < j ==> hash31(#[trigger] pr_key(d@, p as int, t)) % (BIPROB_BUCKETS as int) == bucket,
        decreases c - j,
    {
        let ko = d[p + 2 + j] as usize;
        if ko >= blen {
            return None;
        }
        let end = match find_zero(buf.as_slice(), ko) {
            Some(e) => e,
            None => blen,
        };
        let k = copy_range(buf.as_slice(), ko, end);
        assert(k@ == pr_key(d@, p as int, j as int));
        if hash_value(k.as_slice()) as usize != bucket {
            return None;
        }
        keys.push(k);
        j = j + 1;
    }
    let mut values: Vec<u32> = Vec::new();
    let vs = bs + blen;
    let mut j: usize = 0;
    while j < c
        invariant
            dlen == d@.len(),
            pr_fits(d@, p as int),
            c == pr_count(d@, p as int),
            blen == pr_blen(d@, p as int),
            vs == pr_buf(d@, p as int) + pr_blen(d@, p as int),
            vs + 4 * c <= d@.len(),
            j <= c,
            values@ == Seq::new(j as nat, |t: int| pr_value(d@, p as int, t)),
        decreases c - j,
    {
        values.push(get_le32(d, vs + 4 * j));
        j = j + 1;
        assert(values@ =~= Seq::new(j as nat, |t: int| pr_value(d@, p as int, t)));
    }
    Some(ProbRecord { bucket, offset: p, keys, values })
}

/// Parses the break-probability dictionary against its hash bin.
pub fn parse_prob_dic(data: &[u8], buckets: &[u32]) -> (r: DictResult<BIProbDic>)
    ensures
        r is Ok <==> prob_dic_ok(data@, buckets@),
        r matches Ok(x) ==> prob_dic_matches(x, data@, buckets@),
{
    let ghost d = data@;
    let ghost b = buckets@;
    let dlen = data.len();
    // owner[o] is one more than the bucket whose record starts at offset o.
    let mut owner: Vec<usize> = Vec::new();
    let mut i: usize = 0;
    while i < dlen
        invariant
            i <= dlen,
            owner@.len() == i,
            forall|o: int| 0 <= o < i ==> owner@[o] == 0,
        decreases dlen - i,
    {
        owner.push(0);
        i = i + 1;
    }
    let mut i: usize = 0;
    while i < buckets.len()
        invariant
            d == data@,
            b == buckets@,
            dlen == d.len(),
            i <= b.len(),
            owner@.len() == dlen,
            forall|o: int| 0 <= o < dlen && owner@[o] != 0 ==> owner@[o] <= i && b[owner@[o] - 1] == o + 1,
            forall|k: int| 0 <= k < i && b[k] != 0 ==> b[k] - 1 < dlen && owner@[b[k] - 1] == k + 1,
            forall|k: int, t: int| 0 <= k < i && 0 <= t < i && b[k] != 0 && b[k] == b[t] ==> k == t,
        decreases b.len() - i,
    {
        let v = buckets[i];
        if v != 0 {
            let o = (v - 1) as usize;
            if o >= dlen {
                proof {
                    if prob_dic_ok(d, b) {
                        lemma_chain_bounds(d, 0);
                        assert(pr_chain(d, 0)->0.contains(b[i as int] - 1));
                    }
                }
                return Err(DictError::new("bucket offset beyond the dictionary", o));
            }
            if owner[o] != 0 {
                proof {
                    assert(b[owner@[o as int] - 1] == b[i as int]);
                }
                return Err(DictError::new("two buckets point at one record", o));
            }
            owner.set(o, i + 1);
        }
        i = i + 1;
    }
    let mut records: Vec<ProbRecord> = Vec::new();
    let ghost mut starts: Seq<int> = Seq::empty();
    let mut seen: Vec<bool> = Vec::new();
    let mut i: usize = 0;
    while i < dlen
        invariant
            i <= dlen,
            seen@.len() == i,
            forall|o: int| 0 <= o < i ==> !seen@[o],
        decreases dlen - i,
    {
        seen.push(false);
        i = i + 1;
    }
    let mut pos: usize = 0;
    let mut key_count: usize = 0;
    while pos < dlen
        invariant
            d == data@,
            b == buckets@,
            dlen == d.len(),
            pos <= dlen,
            owner@.len() == dlen,
            seen@.len() == dlen,
            forall|o: int| 0 <= o < dlen && owner@[o] != 0 ==> owner@[o] <= b.len() && b[owner@[o] - 1] == o + 1,
            forall|k: int| 0 <= k < b.len() && b[k] != 0 ==> b[k] - 1 < dlen && owner@[b[k] - 1] == k + 1,
            forall|k: int, t: int| 0 <= k < b.len() && 0 <= t < b.len() && b[k] != 0 && b[k] == b[t] ==> k == t,
            pr_chain(d, 0) == match pr_chain(d, pos as int) {
                Some(rest) => Some(starts + rest),
                None => None::<Seq<int>>,
            },
            forall|o: int| 0 <= o < dlen ==> (seen@[o] <==> starts.contains(o)),
            forall|k: int| 0 <= k < starts.len() ==> 0 <= #[trigger] starts[k] < pos,
            records@.len() == starts.len(),
            forall|k: int| 0 <= k < starts.len() ==> prob_record_at(#[trigger] records@[k], d, b, starts[k]),
            forall|k: int|
                #![trigger starts[k]]
                0 <= k < starts.len() ==> exists|t: int|
                    #![trigger b[t]]
                    0 <= t < b.len() && b[t] == starts[k] + 1 && pr_ok(d, starts[k], t),
            key_count == total_len(records@.map_values(|r: ProbRecord| r.keys@)),
            key_count <= pos,
        decreases dlen - pos,
    {
        if dlen - pos < 2 {
            return Err(DictError::new("record header EOF", pos));
        }
        let c = data[pos] as usize;
        let blen = data[pos + 1] as usize;
        if dlen - pos - 2 < 5 * c + blen {
            return Err(DictError::new("record EOF", pos));
        }
        let w = owner[pos];
        if w == 0 {
            proof {
                lemma_chain_step(d, pos as int);
                if prob_dic_ok(d, b) {
                    let whole = pr_chain(d, 0)->0;
                    let rest = pr_chain(d, pr_end(d, pos as int))->0;
                    assert(whole == starts + (seq![pos as int] + rest));
                    assert(whole[starts.len() as int] == pos);
                    let t = choose|t: int| 0 <= t < b.len() && b[t] == whole[starts.len() as int] + 1 && pr_ok(d, whole[starts.len() as int], t);
                    assert(owner@[pos as int] == t + 1);
                }
            }
            return Err(DictError::new("records not contiguous", pos));
        }
        let bucket = w - 1;
        let rec = match parse_prob_record(data, pos, bucket) {
            Some(r) => r,
            None => {
                proof {
                    lemma_chain_step(d, pos as int);
                    if prob_dic_ok(d, b) {
                        let whole = pr_chain(d, 0)->0;
                        let rest = pr_chain(d, pr_end(d, pos as int))->0;
                        assert(whole == starts + (seq![pos as int] + rest));
                        assert(whole[starts.len() as int] == pos);
                        let t = choose|t: int| 0 <= t < b.len() && b[t] == whole[starts.len() as int] + 1 && pr_ok(d, whole[starts.len() as int], t);
                        assert(t == bucket);
                    }
                }
                return Err(DictError::new("record keys do not hash to their bucket", pos));
            },
        };
        proof {
            lemma_chain_step(d, pos as int);
            lemma_total_len_push(records@.map_values(|r: ProbRecord| r.keys@), rec.keys@);
        }
        let ghost old_records = records@;
        let ghost old_starts = starts;
        let nk = rec.keys.len();
        records.push(rec);
        seen.set(pos, true);
        proof {
            starts = starts.push(pos as int);
            assert(records@.map_values(|r: ProbRecord| r.keys@) =~= old_records.map_values(|r: ProbRecord| r.keys@).push(rec.keys@));
            match pr_chain(d, pr_end(d, pos as int)) {
                Some(rest) => {
                    assert(old_starts + (seq![pos as int] + rest) =~= starts + rest);
                },
                None => {},
            }
            assert forall|o: int| 0 <= o < dlen implies (seen@[o] <==> starts.contains(o)) by {
                if o == pos {
                    assert(starts[starts.len() - 1] == o);
                } else {
                    if starts.contains(o) {
                        let k = choose|k: int| 0 <= k < starts.len() && starts[k] == o;
                        assert(old_starts.contains(o)) by {
                            assert(k < old_starts.len());
                            assert(old_starts[k] == o);
                        }
                    }
                    if old_starts.contains(o) {
                        let k = choose|k: int| 0 <= k < old_starts.len() && old_starts[k] == o;
                        assert(starts[k] == o);
                    }
                }
            }
            assert forall|k: int| 0 <= k < starts.len() implies prob_record_at(#[trigger] records@[k], d, b, starts[k]) by {
                if k < old_starts.len() {
                    assert(records@[k] == old_records[k]);
                }
            }
            assert(pr_ok(d, pos as int, bucket as int));
        }
        key_count = key_count + nk;
        pos = pos + 2 + 5 * c + blen;
    }
    proof {
        assert(pr_chain(d, dlen as int) == Some(Seq::<int>::empty()));
        assert(starts + Seq::<int>::empty() =~= starts);
    }
    let mut i: usize = 0;
    while i < buckets.len()
        invariant
            d == data@,
            b == buckets@,
            dlen == d.len(),
            i <= b.len(),
            seen@.len() == dlen,
            pr_chain(d, 0) == Some(starts),
            forall|o: int| 0 <= o < dlen ==> (seen@[o] <==> starts.contains(o)),
            forall|k: int| 0 <= k < b.len() && b[k] != 0 ==> b[k] - 1 < dlen,
            forall|k: int| 0 <= k < i && b[k] != 0 ==> starts.contains(b[k] - 1),
        decreases b.len() - i,
    {
        let v = buckets[i];
        if v != 0 && !seen[(v - 1) as usize] {
            return Err(DictError::new("bucket points at no record", (v - 1) as usize));
        }
        i = i + 1;
    }
    Ok(BIProbDic { records, key_count })
}

proof fn lemma_total_len_push<T>(s: Seq<Seq<T>>, x: Seq<T>)
    ensures
        total_len(s.push(x)) == total_len(s) + x.len(),
{
    assert(s.push(x).drop_last() =~= s);
}

/// Every start in a chain walked from `p` lies in `[p, d.len())`.
proof fn lemma_chain_bounds(d: Seq<u8>, p: int)
    requires
        pr_chain(d, p) is Some,
    ensures
        forall|k: int| 0 <= k < pr_chain(d, p)->0.len() ==> p <= #[trigger] pr_chain(d, p)->0[k] < d.len(),
    decreases d.len() - p,
{
    if p < d.len() {
        lemma_chain_bounds(d, pr_end(d, p));
    }
}

/// The value paired with the first key equal to `key`, keys and values taken pairwise.
pub open spec fn record_value(r: ProbRecord, key: Seq<u8>) -> Option<u32> {
    match first_index(r.keys@, |k: Vec<u8>| k@ == key) {
        Some(j) => if j < r.values@.len() {
            Some(r.values@[j])
        } else {
            None::<u32>
        },
        None => None::<u32>,
    }
}

/// The bucket a key falls in.
pub open spec fn key_bucket(key: Seq<u8>) -> int {
    hash31(key) % (BIPROB_BUCKETS as int)
}

/// What a lookup of `key` gives: the first record of the key's bucket decides.
pub open spec fn dic_lookup(recs: Seq<ProbRecord>, key: Seq<u8>) -> Option<u32> {
    match first_index(recs, |x: ProbRecord| x.bucket as int == key_bucket(key)) {
        Some(i) => record_value(recs[i], key),
        None => None::<u32>,
    }
}

fn record_lookup(rec: &ProbRecord, key: &[u8]) -> (r: Option<u32>)
    ensures
        r == record_value(*rec, key@),
{
    let ghost pk = |k: Vec<u8>| k@ == key@;
    let mut j: usize = 0;
    while j < rec.keys.len() && j < rec.values.len()
        invariant
            j <= rec.keys@.len(),
            pk == (|k: Vec<u8>| k@ == key@),
            forall|t: int| 0 <= t < j ==> !pk(#[trigger] rec.keys@[t]),
        decreases rec.keys@.len() - j,
    {
        let kj = &rec.keys[j];
        let eq = bytes_eq(kj.as_slice(), key);
        if eq {
            proof {
                assert(kj@ == key@);
                assert(pk(rec.keys@[j as int]));
                lemma_first_index(rec.keys@, pk, j as int);
            }
            return Some(rec.values[j]);
        }
        j = j + 1;
    }
    proof {
        lemma_first_index_past(rec.keys@, pk, j as int);
        if j == rec.keys@.len() {
            lemma_first_index_none(rec.keys@, pk);
        }
    }
    None
}

impl BIProbDic {
    /// Index of the first record in bucket `b`.
    fn find_bucket(&self, b: usize) -> (r: Option<usize>)
        ensures
            r matches Some(i) ==> i < self.records@.len() && first_index(self.records@, |x: ProbRecord| x.bucket == b) == Some(i as int),
            r is None ==> first_index(self.records@, |x: ProbRecord| x.bucket == b) is None,
    {
        let ghost pb = |x: ProbRecord| x.bucket == b;
        let mut i: usize = 0;
        while i < self.records.len()
            invariant
                i <= self.records@.len(),
                pb == (|x: ProbRecord| x.bucket == b),
                forall|t: int| 0 <= t < i ==> !pb(#[trigger] self.records@[t]),
            decreases self.records@.len() - i,
        {
            if self.records[i].bucket == b {
                proof {
                    assert(pb(self.records@[i as int]));
                    lemma_first_index(self.records@, pb, i as int);
                }
                return Some(i);
            }
            i = i + 1;
        }
        proof {
            lemma_first_index_none(self.records@, pb);
        }
        None
    }

    /// The value stored for `key`: the first record with the key's bucket decides.
    pub fn lookup(&self, key: &[u8]) -> (r: Option<u32>)
        ensures
            r == dic_lookup(self.records@, key@),
    {
        let b = hash_value(key) as usize;
        proof {
            let p1 = |x: ProbRecord| x.bucket == b;
            let p2 = |x: ProbRecord| x.bucket as int == key_bucket(key@);
            assert(p1 == p2);
        }
        match self.find_bucket(b) {
            Some(i) => record_lookup(&self.records[i], key),
            None => None,
        }
    }
}

proof fn lemma_chain_increasing(d: Seq<u8>, p: int)
    requires
        pr_chain(d, p) is Some,
    ensures
        forall|a: int, c: int|
            0 <= a < c < pr_chain(d, p)->0.len() ==> pr_chain(d, p)->0[a] < pr_chain(d, p)->0[c],
    decreases d.len() - p,
{
    if p < d.len() {
        let q = pr_end(d, p);
        lemma_chain_increasing(d, q);
        lemma_chain_bounds(d, q);
        let rest = pr_chain(d, q)->0;
        let ch = pr_chain(d, p)->0;
        assert(ch == seq![p] + rest);
        assert forall|a: int, c: int| 0 <= a < c < ch.len() implies ch[a] < ch[c] by {
            assert(ch[c] == rest[c - 1]);
            if a > 0 {
                assert(ch[a] == rest[a - 1]);
            }
        }
    }
}

/// Law: every record of a parsed break-probability dictionary sits at the offset its
/// bucket points to, has one value per key, and holds only keys that hash to its bucket;
/// the records come in offset order, and no two share a bucket.
pub proof fn law_prob_dic_records(x: BIProbDic, d: Seq<u8>, b: Seq<u32>)
    requires
        prob_dic_ok(d, b),
        prob_dic_matches(x, d, b),
    ensures
        forall|k: int|
            0 <= k < x.records@.len() ==> {
                &&& 0 <= (#[trigger] x.records@[k]).bucket < b.len()
                &&& b[x.records@[k].bucket as int] == x.records@[k].offset + 1
                &&& x.records@[k].keys@.len() == x.records@[k].values@.len()
                &&& forall|j: int|
                    0 <= j < x.records@[k].keys@.len() ==> key_bucket((#[trigger] x.records@[k].keys@[j])@)
                        == x.records@[k].bucket
            },
        forall|a: int, c: int|
            0 <= a < c < x.records@.len() ==> (#[trigger] x.records@[a]).offset < (#[trigger] x.records@[c]).offset
                && x.records@[a].bucket != x.records@[c].bucket,
{
    let starts = pr_chain(d, 0)->0;
    lemma_chain_increasing(d, 0);
    assert forall|k: int| 0 <= k < x.records@.len() implies {
        &&& 0 <= (#[trigger] x.records@[k]).bucket < b.len()
        &&& b[x.records@[k].bucket as int] == x.records@[k].offset + 1
        &&& x.records@[k].keys@.len() == x.records@[k].values@.len()
        &&& forall|j: int|
            0 <= j < x.records@[k].keys@.len() ==> key_bucket((#[trigger] x.records@[k].keys@[j])@)
                == x.records@[k].bucket
    } by {
        let r = x.records@[k];
        assert(prob_record_at(r, d, b, starts[k]));
        let i = choose|i: int| 0 <= i < b.len() && b[i] == starts[k] + 1 && pr_ok(d, starts[k], i);
        assert(b[i] == b[r.bucket as int] && b[i] != 0);
        assert(i == r.bucket);
        assert forall|j: int| 0 <= j < r.keys@.len() implies key_bucket((#[trigger] r.keys@[j])@) == r.bucket by {
            assert(r.keys@[j]@ == pr_key(d, starts[k], j));
        }
    }
    assert forall|a: int, c: int| 0 <= a < c < x.records@.len() implies (#[trigger] x.records@[a]).offset < (
    #[trigger] x.records@[c]).offset && x.records@[a].bucket != x.records@[c].bucket by {
        assert(prob_record_at(x.records@[a], d, b, starts[a]));
        assert(prob_record_at(x.records@[c], d, b, starts[c]));
    }
}

/// Law: where no two records share a bucket, a lookup finds the key's value in the record
/// of the key's bucket (the value beside the first equal key), and finds nothing where no
/// record has that bucket.
pub proof fn law_prob_lookup(recs: Seq<ProbRecord>, key: Seq<u8>)
    requires
        forall|a: int, c: int|
            0 <= a < c < recs.len() ==> (#[trigger] recs[a]).bucket != (#[trigger] recs[c]).bucket,
    ensures
        forall|i: int|
            0 <= i < recs.len() && (#[trigger] recs[i]).bucket == key_bucket(key) ==> dic_lookup(recs, key)
                == record_value(recs[i], key),
        (forall|i: int| 0 <= i < recs.len() ==> (#[trigger] recs[i]).bucket != key_bucket(key)) ==> dic_lookup(
            recs,
            key,
        ) is None,
{
    let p = |x: ProbRecord| x.bucket as int == key_bucket(key);
    assert forall|i: int|
        0 <= i < recs.len() && (#[trigger] recs[i]).bucket == key_bucket(key) implies dic_lookup(recs, key)
        == record_value(recs[i], key) by {
        assert forall|j: int| 0 <= j < i implies !p(recs[j]) by {
            assert(recs[j].bucket != recs[i].bucket);
        }
        lemma_first_index(recs, p, i);
    }
    if forall|i: int| 0 <= i < recs.len() ==> (#[trigger] recs[i]).bucket != key_bucket(key) {
        assert forall|j: int| 0 <= j < recs.len() implies !p(recs[j]) by {
            assert(recs[j].bucket != key_bucket(key));
        }
        lemma_first_index_none(recs, p);
    }
}

/// Bytes taken by a list of items: a length byte and two bytes per unit each.
pub open spec fn items_size(s: Seq<Seq<u16>>) -> int
    decreases s.len(),
{
    if s.len() == 0 {
        0
    } else {
        1 + 2 * s[0].len() + items_size(s.drop_first())
    }
}

/// Bytes taken by a list of attribute records: an item count and the items each.
pub open spec fn attribs_size(s: Seq<Seq<Seq<u16>>>) -> int
    decreases s.len(),
{
    if s.len() == 0 {
        0
    } else {
        4 + items_size(s[0]) + attribs_size(s.drop_first())
    }
}

/// Bytes taken by rule records with these morph counts: a count and 96 bytes per morph each.
pub open spec fn rules_size(c: Seq<int>) -> int
    decreases c.len(),
{
    if c.len() == 0 {
        0
    } else {
        4 + 96 * c[0] + rules_size(c.drop_first())
    }
}

proof fn lemma_items_size(d: Seq<u8>, p: int, n: int)
    requires
        n >= 0,
        spec_items(d, p, n) is Some,
    ensures
        spec_items(d, p, n).unwrap().0.len() == n,
        spec_items(d, p, n).unwrap().1 == p + items_size(spec_items(d, p, n).unwrap().0),
    decreases n,
{
    if n > 0 {
        let l = d[p] as int;
        lemma_items_size(d, p + 1 + 2 * l, n - 1);
        let rest = spec_items(d, p + 1 + 2 * l, n - 1).unwrap().0;
        let all = seq![units_at(d, p + 1, l)] + rest;
        assert(all.drop_first() =~= rest);
        assert(all[0].len() == l);
    }
}

proof fn lemma_attribs_size(d: Seq<u8>, p: int, n: int)
    requires
        n >= 0,
        spec_attribs(d, p, n) is Some,
    ensures
        spec_attribs(d, p, n).unwrap().0.len() == n,
        spec_attribs(d, p, n).unwrap().1 == p + attribs_size(spec_attribs(d, p, n).unwrap().0),
    decreases n,
{
    if n > 0 {
        lemma_items_size(d, p + 4, le32(d, p));
        let (items, q) = spec_items(d, p + 4, le32(d, p))->0;
        lemma_attribs_size(d, q, n - 1);
        let rest = spec_attribs(d, q, n - 1).unwrap().0;
        assert((seq![items] + rest).drop_first() =~= rest);
    }
}

proof fn lemma_rules_size(d: Seq<u8>, p: int, n: int)
    requires
        n >= 0,
        spec_rules(d, p, n) is Some,
    ensures
        spec_rules(d, p, n).unwrap().0.len() == n,
        forall|i: int|
            0 <= i < n ==> 1 <= (#[trigger] spec_rules(d, p, n).unwrap().0[i]).1 <= 16,
        spec_rules(d, p, n).unwrap().1 == p + rules_size(spec_rules(d, p, n).unwrap().0.map_values(|r: (int, int)| r.1)),
    decreases n,
{
    if n > 0 {
        let c = le32(d, p);
        lemma_rules_size(d, p + 4 + 96 * c, n - 1);
        let rest = spec_rules(d, p + 4 + 96 * c, n - 1).unwrap().0;
        let all = seq![(p + 4, c)] + rest;
        assert(all.map_values(|r: (int, int)| r.1).drop_first() =~= rest.map_values(|r: (int, int)| r.1));
        assert forall|i: int| 0 <= i < n implies 1 <= (#[trigger] all[i]).1 <= 16 by {
            if i > 0 {
                assert(all[i] == rest[i - 1]);
            }
        }
    }
}

/// Law: a parsed rule file has as many rules and attribute records as its header says,
/// every rule has 1 to 16 morphs, and the file is exactly the 16-byte header, the
/// attribute records and the rule records.
pub proof fn law_rule_file_size(f: BIRuleFile, d: Seq<u8>)
    requires
        rule_file_ok(d),
        rule_file_matches(f, d),
    ensures
        f.rules@.len() == f.w_rule_num,
        f.attributes@.len() == f.w_attrib_num,
        forall|i: int| 0 <= i < f.rules@.len() ==> 1 <= (#[trigger] f.rules@[i]).morphs@.len() <= 16,
        d.len() == 16 + attribs_size(f.attributes@.map_values(|a: AttribRecord| attrib_view(a))) + rules_size(
            f.rules@.map_values(|r: RuleRecord| r.morphs@.len() as int),
        ),
{
    lemma_attribs_size(d, 16, le16(d, 10));
    let (attrs, p) = spec_attribs(d, 16, le16(d, 10))->0;
    lemma_rules_size(d, p, le16(d, 8));
    let (rules, q) = spec_rules(d, p, le16(d, 8))->0;
    assert(f.attributes@.map_values(|a: AttribRecord| attrib_view(a)) =~= attrs);
    assert forall|i: int| 0 <= i < f.rules@.len() implies 1 <= (#[trigger] f.rules@[i]).morphs@.len() <= 16 by {
        assert(1 <= rules[i].1 <= 16);
    }
    assert(f.rules@.map_values(|r: RuleRecord| r.morphs@.len() as int) =~= rules.map_values(|r: (int, int)| r.1));
}

proof fn lemma_chain_tiles(d: Seq<u8>, p: int)
    requires
        pr_chain(d, p) is Some,
    ensures
        pr_chain(d, p)->0.len() == 0 <==> p == d.len(),
        pr_chain(d, p)->0.len() > 0 ==> pr_chain(d, p)->0[0] == p && pr_end(d, pr_chain(d, p)->0.last()) == d.len(),
        forall|k: int|
            0 <= k < pr_chain(d, p)->0.len() - 1 ==> #[trigger] pr_chain(d, p)->0[k + 1] == pr_end(
                d,
                pr_chain(d, p)->0[k],
            ),
    decreases d.len() - p,
{
    if p < d.len() {
        let q = pr_end(d, p);
        lemma_chain_tiles(d, q);
        let rest = pr_chain(d, q)->0;
        let ch = pr_chain(d, p)->0;
        assert(ch == seq![p] + rest);
        assert forall|k: int| 0 <= k < ch.len() - 1 implies #[trigger] ch[k + 1] == pr_end(d, ch[k]) by {
            assert(ch[k + 1] == rest[k]);
            if k > 0 {
                assert(ch[k] == rest[k - 1]);
                assert(rest[(k - 1) + 1] == pr_end(d, rest[k - 1]));
            } else {
                assert(ch[0] == p);
                assert(rest[0] == q);
            }
        }
        if rest.len() > 0 {
            assert(ch.last() == rest.last());
        }
    }
}

/// Law: the records of a parsed break-probability dictionary tile its data: the first
/// starts at 0, each ends where the next starts, the last ends where the data ends, and
/// there are none exactly when the data is empty; every used bucket is the bucket of
/// some record.
pub proof fn law_prob_dic_tiles(x: BIProbDic, d: Seq<u8>, b: Seq<u32>)
    requires
        prob_dic_ok(d, b),
        prob_dic_matches(x, d, b),
    ensures
        x.records@.len() == 0 <==> d.len() == 0,
        x.records@.len() > 0 ==> x.records@[0].offset == 0 && pr_end(d, x.records@.last().offset as int) == d.len(),
        forall|k: int|
            0 <= k < x.records@.len() - 1 ==> (#[trigger] x.records@[k + 1]).offset == pr_end(
                d,
                x.records@[k].offset as int,
            ),
        forall|h: int|
            0 <= h < b.len() && b[h] != 0 ==> exists|k: int|
                0 <= k < x.records@.len() && (#[trigger] x.records@[k]).bucket == h,
{
    let starts = pr_chain(d, 0)->0;
    lemma_chain_tiles(d, 0);
    if x.records@.len() > 0 {
        assert(prob_record_at(x.records@[0], d, b, starts[0]));
        let l = x.records@.len() - 1;
        assert(prob_record_at(x.records@[l], d, b, starts[l]));
        assert(x.records@.last() == x.records@[l]);
    }
    assert forall|k: int| 0 <= k < x.records@.len() - 1 implies (#[trigger] x.records@[k + 1]).offset == pr_end(
        d,
        x.records@[k].offset as int,
    ) by {
        assert(prob_record_at(x.records@[k], d, b, starts[k]));
        assert(prob_record_at(x.records@[k + 1], d, b, starts[k + 1]));
    }
    assert forall|h: int| 0 <= h < b.len() && b[h] != 0 implies exists|k: int|
        0 <= k < x.records@.len() && (#[trigger] x.records@[k]).bucket == h by {
        assert(starts.contains(b[h] - 1));
        let k = choose|k: int| 0 <= k < starts.len() && starts[k] == b[h] - 1;
        assert(prob_record_at(x.records@[k], d, b, starts[k]));
        assert(b[x.records@[k].bucket as int] == b[h]);
    }
}

} // verus!
