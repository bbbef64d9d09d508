//! The analyser's dictionaries, loaded together from a data map: the morpheme
//! dictionary, the n-gram tables, the split and irregular-predicate lists, the
//! pronunciation tables, the user dictionary, the hanja readings and the English
//! dictionaries.
use vstd::prelude::*;
use vstd::utf8::encode_utf8;
use crate::blob::DataMap;
use crate::birule::words_at;
use crate::common::DictError;
use crate::hanja::HANJA_TABLE_SIZE;
use crate::kmorph::{KMORPH_HASH_BUCKETS, SKeyItem, dict_wf, kmorph_ok};
use crate::posngram::{POS_COUNT, bi_matches, bi_ok, uni_matches};
use crate::tosplit::{ir_from, ir_view, ts_from, ts_view};
use crate::wordgram::{aptree_matches, aptree_ok, byte_key, byte_lookup_defined, pattern_view, search_value, units_le,
    u16_slice_bytes, wide_key, wide_lookup_defined, wordtri_ok, WordPattern};
use crate::common::{has_prefix, starts_with_bytes};
use crate::pronsec::{section_matches, section_ok, prepron_layout, strpron_layout};
use crate::common::le_units;
use crate::english::{EnglishPyogiSet, parse_hash_bin, parse_hash_dic, parse_pron_table};
use crate::hanja::Hanja2Korea;
use crate::kmorph::{KmorphDict, kmorph_matches};
use crate::posngram::PosNGram;
use crate::pronsec::{PoolUnit, RecordValue, SectionDict, spec_key_bytes};
use crate::tosplit::{IrregulePredDic, ToSplitDic};
use crate::userdic::{KmaError, KmaResult, UserDic};
use crate::wordgram::{CharGram, NameGram, WordTriGram};

verus! {

/// Where each key of a section's records leads: (key bytes, record index) in record
/// order, for the records that have a key.
pub open spec fn key_index(s: SectionDict, n: int) -> Seq<(Seq<u8>, int)>
    decreases n,
{
    if n <= 0 {
        Seq::empty()
    } else {
        match spec_key_bytes(s, n - 1) {
            Some(k) => key_index(s, n - 1).push((k, n - 1)),
            None => key_index(s, n - 1),
        }
    }
}

/// A key index as (key, record index) pairs.
pub open spec fn index_view(m: Seq<(Vec<u8>, usize)>) -> Seq<(Seq<u8>, int)> {
    m.map_values(|e: (Vec<u8>, usize)| (e.0@, e.1 as int))
}

/// The record index of the last entry of `m` with key `k`.
pub open spec fn last_index(m: Seq<(Seq<u8>, int)>, k: Seq<u8>) -> Option<int>
    decreases m.len(),
{
    if m.len() == 0 {
        None
    } else if m.last().0 == k {
        Some(m.last().1)
    } else {
        last_index(m.drop_last(), k)
    }
}

proof fn lemma_key_index_range(s: SectionDict, n: int)
    ensures
        forall|j: int| 0 <= j < key_index(s, n).len() ==> 0 <= #[trigger] key_index(s, n)[j].1 < n,
    decreases n,
{
    if n > 0 {
        lemma_key_index_range(s, n - 1);
        let p = key_index(s, n - 1);
        assert forall|j: int| 0 <= j < key_index(s, n).len() implies 0 <= #[trigger] key_index(s, n)[j].1 < n by {
            if j < p.len() {
                assert(key_index(s, n)[j] == p[j]);
            }
        }
    }
}

proof fn lemma_last_index_range(m: Seq<(Seq<u8>, int)>, k: Seq<u8>, n: int)
    requires
        forall|j: int| 0 <= j < m.len() ==> 0 <= #[trigger] m[j].1 < n,
    ensures
        last_index(m, k) matches Some(i) ==> 0 <= i < n,
    decreases m.len(),
{
    if m.len() > 0 {
        assert(m.last() == m[m.len() - 1]);
        lemma_last_index_range(m.drop_last(), k, n);
    }
}

proof fn lemma_opt_last_in_range(s: SectionDict, k: Seq<u8>)
    ensures
        last_index(key_index(s, s.records@.len() as int), k) matches Some(i) ==> 0 <= i < s.records@.len(),
{
    lemma_key_index_range(s, s.records@.len() as int);
    lemma_last_index_range(key_index(s, s.records@.len() as int), k, s.records@.len() as int);
}

fn build_key_index(sec: &SectionDict) -> (r: Vec<(Vec<u8>, usize)>)
    ensures
        index_view(r@) == key_index(*sec, sec.records@.len() as int),
{
    let n = sec.records.len();
    let mut m: Vec<(Vec<u8>, usize)> = Vec::new();
    let mut i: usize = 0;
    while i < n
        invariant
            n == sec.records@.len(),
            i <= n,
            index_view(m@) == key_index(*sec, i as int),
        decreases n - i,
    {
        let ghost before = index_view(m@);
        match sec.key_bytes(i) {
            Some(k) => {
                m.push((crate::common::copy_range(k, 0, k.len()), i));
                proof {
                    assert(k@.subrange(0, k@.len() as int) =~= k@);
                    assert(index_view(m@) =~= before.push((k@, i as int)));
                }
            },
            None => {},
        }
        i = i + 1;
    }
    m
}

fn find_last(m: &Vec<(Vec<u8>, usize)>, k: &[u8]) -> (r: Option<usize>)
    ensures
        match last_index(index_view(m@), k@) {
            Some(i) => r == Some(i as usize),
            None => r is None,
        },
{
    let ghost v = index_view(m@);
    let mut j: usize = m.len();
    proof {
        assert(v.subrange(0, v.len() as int) =~= v);
    }
    while j > 0
        invariant
            j <= m@.len(),
            v == index_view(m@),
            last_index(v, k@) == last_index(v.subrange(0, j as int), k@),
        decreases j,
    {
        let ghost sub = v.subrange(0, j as int);
        proof {
            assert(sub.drop_last() =~= v.subrange(0, j - 1));
            assert(sub.last() == v[j - 1]);
        }
        if crate::common::bytes_eq(m[j - 1].0.as_slice(), k) {
            return Some(m[j - 1].1);
        }
        j = j - 1;
    }
    proof {
        assert(v.subrange(0, 0) =~= Seq::<(Seq<u8>, int)>::empty());
    }
    None
}

/// The English dictionaries: pronunciations of English words spelled letter by letter,
/// English phoneme symbols, the pronunciation dictionary, and the key indexes of the
/// first two.
#[derive(Debug)]
pub struct EngDicts {
    pub unienglishpron: Option<SectionDict>,
    pub engsym: Option<SectionDict>,
    pub english: Option<EnglishPyogiSet>,
    pub unienglishpron_map: Vec<(Vec<u8>, usize)>,
    pub engsym_map: Vec<(Vec<u8>, usize)>,
}

/// The key index of an optional section.
pub open spec fn opt_key_index(s: Option<SectionDict>) -> Seq<(Seq<u8>, int)> {
    match s {
        Some(d) => key_index(d, d.records@.len() as int),
        None => Seq::empty(),
    }
}

/// The key indexes are those of the sections.
pub open spec fn eng_wf(e: EngDicts) -> bool {
    &&& index_view(e.unienglishpron_map@) == opt_key_index(e.unienglishpron)
    &&& index_view(e.engsym_map@) == opt_key_index(e.engsym)
}

impl EngDicts {
    /// No English dictionaries.
    pub fn empty() -> (r: EngDicts)
        ensures
            r.unienglishpron is None && r.engsym is None && r.english is None,
            eng_wf(r),
    {
        let r = EngDicts {
            unienglishpron: None,
            engsym: None,
            english: None,
            unienglishpron_map: Vec::new(),
            engsym_map: Vec::new(),
        };
        proof {
            assert(index_view(r.unienglishpron_map@) =~= Seq::<(Seq<u8>, int)>::empty());
            assert(index_view(r.engsym_map@) =~= Seq::<(Seq<u8>, int)>::empty());
        }
        r
    }

    /// The dictionaries with the key indexes of the two sections built.
    pub fn from_parts(
        unienglishpron: Option<SectionDict>,
        engsym: Option<SectionDict>,
        english: Option<EnglishPyogiSet>,
    ) -> (r: EngDicts)
        ensures
            r.unienglishpron == unienglishpron && r.engsym == engsym && r.english == english,
            eng_wf(r),
    {
        let um = match &unienglishpron {
            Some(d) => build_key_index(d),
            None => {
                let v: Vec<(Vec<u8>, usize)> = Vec::new();
                proof {
                    assert(index_view(v@) =~= Seq::<(Seq<u8>, int)>::empty());
                }
                v
            },
        };
        let em = match &engsym {
            Some(d) => build_key_index(d),
            None => {
                let v: Vec<(Vec<u8>, usize)> = Vec::new();
                proof {
                    assert(index_view(v@) =~= Seq::<(Seq<u8>, int)>::empty());
                }
                v
            },
        };
        EngDicts { unienglishpron, engsym, english, unienglishpron_map: um, engsym_map: em }
    }

    /// The letter-by-letter pronunciation of an English word, as text.
    pub fn unienglishpron_lookup(&self, key: &[u8]) -> (r: Option<String>)
        requires
            eng_wf(*self),
        ensures
            self.unienglishpron is None ==> r is None,
            self.unienglishpron is Some ==> match last_index(opt_key_index(self.unienglishpron), key@) {
                None => r is None,
                Some(i) => match crate::pronsec::spec_value_bytes(self.unienglishpron->0, i) {
                    Some(b) => r is Some && r->0@ == crate::pronsec::pool_text(b, self.unienglishpron->0.value_unit),
                    None => r is None,
                },
            },
    {
        let d = match &self.unienglishpron {
            Some(d) => d,
            None => {
                return None;
            },
        };
        let i = match find_last(&self.unienglishpron_map, key) {
            Some(i) => i,
            None => {
                return None;
            },
        };
        proof {
            lemma_opt_last_in_range(*d, key@);
            assert(*d == self.unienglishpron->0);
            assert(index_view(self.unienglishpron_map@) == opt_key_index(self.unienglishpron));
            let j = last_index(opt_key_index(self.unienglishpron), key@)->0;
            assert(0 <= j < d.records.len());
            assert(j as usize == i);
        }
        d.value_string(i)
    }

    /// The code of an English phoneme symbol.
    pub fn engsym_code(&self, key: &[u8]) -> (r: Option<u8>)
        requires
            eng_wf(*self),
        ensures
            self.engsym is None ==> r is None,
            self.engsym is Some ==> match last_index(opt_key_index(self.engsym), key@) {
                None => r is None,
                Some(i) => r == if 0 <= i < self.engsym->0.records@.len() {
                    match self.engsym->0.records@[i].value {
                        RecordValue::Code(c) => Some(c),
                        _ => None,
                    }
                } else {
                    None::<u8>
                },
            },
    {
        let d = match &self.engsym {
            Some(d) => d,
            None => {
                return None;
            },
        };
        let i = match find_last(&self.engsym_map, key) {
            Some(i) => i,
            None => {
                return None;
            },
        };
        proof {
            lemma_opt_last_in_range(*d, key@);
            assert(*d == self.engsym->0);
            assert(index_view(self.engsym_map@) == opt_key_index(self.engsym));
            let j = last_index(opt_key_index(self.engsym), key@)->0;
            assert(0 <= j < d.records.len());
            assert(j as usize == i);
        }
        d.code(i)
    }

    /// The pronunciation of an English word from the pronunciation dictionary.
    pub fn english_lookup(&self, word: &[u8]) -> (r: Option<Vec<u8>>)
        requires
            self.english matches Some(s) ==> s.spec_lookup(word@) is Some,
        ensures
            match self.english {
                None => r is None,
                Some(s) => match s.spec_lookup(word@)->0 {
                    Some(p) => r matches Some(v) && v@ == p,
                    None => r is None,
                },
            },
    {
        match &self.english {
            Some(s) => match s.lookup(word) {
                Some(p) => Some(crate::common::copy_range(p, 0, p.len())),
                None => None,
            },
            None => None,
        }
    }

    /// All three dictionaries are there.
    pub fn is_loaded(&self) -> (b: bool)
        ensures
            b == (self.unienglishpron is Some && self.engsym is Some && self.english is Some),
    {
        self.unienglishpron.is_some() && self.engsym.is_some() && self.english.is_some()
    }
}

/// The name a file has in the data map.
pub open spec fn file_key(prefix: Seq<char>, rel: Seq<char>) -> Seq<char> {
    prefix + rel
}

/// The data stored under `prefix` followed by `rel`, if the map holds that name.
pub open spec fn file_of(files: DataMap, prefix: Seq<char>, rel: Seq<char>) -> Option<Seq<u8>> {
    if files@.dom().contains(prefix + rel) {
        Some(files@[prefix + rel])
    } else {
        None
    }
}

fn get_file<'a>(files: &'a DataMap, prefix: &str, rel: &str) -> (r: Option<&'a Vec<u8>>)
    ensures
        r matches Some(v) ==> files@.dom().contains(prefix@ + rel@) && v@ == files@[prefix@ + rel@],
        r is None ==> !files@.dom().contains(prefix@ + rel@),
        match file_of(*files, prefix@, rel@) {
            Some(b) => r matches Some(v) && v@ == b,
            None => r is None,
        },
{
    let mut k = String::from_str(prefix);
    k.append(rel);
    files.get(k.as_str())
}

/// The pronunciation offsets of the block at `p` of a hashed dictionary file.
pub open spec fn block_offsets(hd: Seq<u8>, p: int) -> Seq<u32> {
    crate::birule::words_at(hd, crate::english::hd_tail(hd, p), crate::english::hd_cnt(hd, p))
}

/// Every pronunciation offset of every block of the hashed dictionary file `hd` names an
/// entry of `entries`.
pub open spec fn hd_offsets_known(hd: Seq<u8>, entries: Seq<(u32, u8)>) -> bool {
    let starts = crate::english::hd_chain(hd, 0)->0;
    forall|k: int, j: int|
        0 <= k < starts.len() && 0 <= j < block_offsets(hd, starts[k]).len() ==> crate::english::off_known(
            entries,
            #[trigger] block_offsets(hd, starts[k])[j],
        )
}

/// The (offset, length) entries of a pronunciation table file.
pub open spec fn pt_entries(d: Seq<u8>) -> Seq<(u32, u8)> {
    crate::english::pt_chain(d, 0)->0.map_values(|p: int| (p as u32, d[p]))
}

/// All five English dictionary files are there, parse, and agree.
pub open spec fn eng_files_ok(f: DataMap, p: Seq<char>) -> bool {
    &&& file_of(f, p, "EngDict/unienglishpron.bin"@) matches Some(b) && section_ok(
        b,
        crate::pronsec::unienglishpron_layout(),
    )
    &&& file_of(f, p, "EngDict/engsym.bin"@) matches Some(b) && section_ok(b, crate::pronsec::morphmodify_layout())
    &&& file_of(f, p, "EngDict/englishpyogi.dic"@) matches Some(b) && crate::english::pt_chain(b, 0) is Some
    &&& file_of(f, p, "EngDict/englishpyogi_hash.dic"@) matches Some(b) && crate::english::hd_chain(b, 0) is Some
    &&& file_of(f, p, "EngDict/englishpyogi_hash.bin"@) matches Some(b) && b.len() % 4 == 0
    &&& hd_offsets_known(
        file_of(f, p, "EngDict/englishpyogi_hash.dic"@)->0,
        pt_entries(file_of(f, p, "EngDict/englishpyogi.dic"@)->0),
    )
}

/// The English dictionaries read from the data map: all three, each from its files, where
/// `eng_files_ok` holds, else none.
pub open spec fn eng_from(e: EngDicts, f: DataMap, p: Seq<char>) -> bool {
    let hd = file_of(f, p, "EngDict/englishpyogi_hash.dic"@)->0;
    let py = file_of(f, p, "EngDict/englishpyogi.dic"@)->0;
    let hb = file_of(f, p, "EngDict/englishpyogi_hash.bin"@)->0;
    &&& eng_wf(e)
    &&& e.is_loaded_spec() <==> eng_files_ok(f, p)
    &&& !eng_files_ok(f, p) ==> (e.unienglishpron is None && e.engsym is None && e.english is None)
    &&& eng_files_ok(f, p) ==> {
        &&& section_matches(
            e.unienglishpron->0,
            file_of(f, p, "EngDict/unienglishpron.bin"@)->0,
            crate::pronsec::unienglishpron_layout(),
        )
        &&& section_matches(e.engsym->0, file_of(f, p, "EngDict/engsym.bin"@)->0, crate::pronsec::morphmodify_layout())
        &&& e.english->0.spec_table().spec_data() == py
        &&& e.english->0.spec_table().spec_entries() == pt_entries(py)
        &&& e.english->0.spec_hash_dic().spec_data() == hd
        &&& e.english->0.spec_hash_dic().spec_blocks().len() == crate::english::hd_chain(hd, 0)->0.len()
        &&& forall|k: int|
            0 <= k < e.english->0.spec_hash_dic().spec_blocks().len() ==> crate::english::block_matches(
                #[trigger] e.english->0.spec_hash_dic().spec_blocks()[k],
                hd,
                crate::english::hd_chain(hd, 0)->0[k],
            )
        &&& e.english->0.spec_hash_bin().buckets@ == crate::birule::words_at(hb, 0, (hb.len() / 4) as int)
    }
}

proof fn lemma_offsets_known_data(blocks: Seq<crate::english::Block>, hd: Seq<u8>, es: Seq<(u32, u8)>)
    requires
        blocks.len() == crate::english::hd_chain(hd, 0)->0.len(),
        forall|k: int|
            0 <= k < blocks.len() ==> crate::english::block_matches(
                #[trigger] blocks[k],
                hd,
                crate::english::hd_chain(hd, 0)->0[k],
            ),
    ensures
        crate::english::offsets_known(blocks, es) <==> hd_offsets_known(hd, es),
{
    let starts = crate::english::hd_chain(hd, 0)->0;
    if crate::english::offsets_known(blocks, es) {
        assert forall|k: int, j: int|
            0 <= k < starts.len() && 0 <= j < block_offsets(hd, starts[k]).len() implies crate::english::off_known(
            es,
            #[trigger] block_offsets(hd, starts[k])[j],
        ) by {
            assert(crate::english::block_matches(blocks[k], hd, starts[k]));
            assert(crate::english::block_known(es, blocks[k]));
            assert(blocks[k].pron_offsets@[j] == block_offsets(hd, starts[k])[j]);
        }
    }
    if hd_offsets_known(hd, es) {
        assert forall|b: int| 0 <= b < blocks.len() implies crate::english::block_known(es, #[trigger] blocks[b]) by {
            assert(crate::english::block_matches(blocks[b], hd, starts[b]));
            assert forall|j: int| 0 <= j < blocks[b].pron_offsets@.len() implies crate::english::off_known(
                es,
                #[trigger] blocks[b].pron_offsets@[j],
            ) by {
                assert(blocks[b].pron_offsets@[j] == block_offsets(hd, starts[b])[j]);
            }
        }
    }
}

/// Loads the English dictionaries from the data map; any of them missing or malformed
/// leaves all three out.
pub fn load_eng_dicts(files: &DataMap, prefix: &str) -> (r: EngDicts)
    requires
        files@.dom().contains(prefix@ + "EngDict/englishpyogi.dic"@) ==> files@[prefix@
            + "EngDict/englishpyogi.dic"@].len() <= u32::MAX + 1,
    ensures
        eng_from(r, *files, prefix@),
{
    let u = match get_file(files, prefix, "EngDict/unienglishpron.bin") {
        Some(d) => match crate::pronsec::parse_unienglishpron(d.as_slice()) {
            Ok(s) => s,
            Err(_) => {
                return EngDicts::empty();
            },
        },
        None => {
            return EngDicts::empty();
        },
    };
    let e = match get_file(files, prefix, "EngDict/engsym.bin") {
        Some(d) => match crate::pronsec::parse_engsym(d.as_slice()) {
            Ok(s) => s,
            Err(_) => {
                return EngDicts::empty();
            },
        },
        None => {
            return EngDicts::empty();
        },
    };
    let table = match get_file(files, prefix, "EngDict/englishpyogi.dic") {
        Some(d) => match parse_pron_table(d.as_slice()) {
            Ok(t) => t,
            Err(_) => {
                return EngDicts::empty();
            },
        },
        None => {
            return EngDicts::empty();
        },
    };
    let hash_dic = match get_file(files, prefix, "EngDict/englishpyogi_hash.dic") {
        Some(d) => match parse_hash_dic(d.as_slice()) {
            Ok(t) => t,
            Err(_) => {
                return EngDicts::empty();
            },
        },
        None => {
            return EngDicts::empty();
        },
    };
    let hash_bin = match get_file(files, prefix, "EngDict/englishpyogi_hash.bin") {
        Some(d) => match parse_hash_bin(d.as_slice()) {
            Ok(t) => t,
            Err(_) => {
                return EngDicts::empty();
            },
        },
        None => {
            return EngDicts::empty();
        },
    };
    proof {
        lemma_offsets_known_data(
            hash_dic.spec_blocks(),
            file_of(*files, prefix@, "EngDict/englishpyogi_hash.dic"@)->0,
            table.spec_entries(),
        );
    }
    let english = match EnglishPyogiSet::new(table, hash_dic, hash_bin) {
        Ok(s) => s,
        Err(_) => {
            return EngDicts::empty();
        },
    };
    EngDicts::from_parts(Some(u), Some(e), Some(english))
}

impl EngDicts {
    /// All three dictionaries are there.
    pub open spec fn is_loaded_spec(&self) -> bool {
        self.unienglishpron is Some && self.engsym is Some && self.english is Some
    }
}

/// The (key, code) pairs of a section's records, in record order, for the records
/// that hold a code.
pub open spec fn code_entries(s: SectionDict, n: int) -> Seq<(Seq<u16>, u8)>
    decreases n,
{
    if n <= 0 {
        Seq::empty()
    } else if n - 1 < s.records@.len() && s.records@[n - 1].value is Code {
        code_entries(s, n - 1).push((key_units(s, n - 1), s.records@[n - 1].value->Code_0))
    } else {
        code_entries(s, n - 1)
    }
}

/// The (key, text bytes) pairs of a section's records, in record order, for the records
/// whose value is a string of the value pool; the text is stored in UTF-8.
pub open spec fn text_entries(s: SectionDict, n: int) -> Seq<(Seq<u16>, Seq<u8>)>
    decreases n,
{
    if n <= 0 {
        Seq::empty()
    } else {
        match crate::pronsec::spec_value_bytes(s, n - 1) {
            Some(b) => text_entries(s, n - 1).push(
                (key_units(s, n - 1), encode_utf8(crate::pronsec::pool_text(b, s.value_unit))),
            ),
            None => text_entries(s, n - 1),
        }
    }
}

/// A list of (UTF-16 key, code) pairs as values.
pub open spec fn code_list_view(m: Seq<(Vec<u16>, u8)>) -> Seq<(Seq<u16>, u8)> {
    m.map_values(|e: (Vec<u16>, u8)| (e.0@, e.1))
}

/// A list of (UTF-16 key, bytes) pairs as values.
pub open spec fn text_list_view(m: Seq<(Vec<u16>, Vec<u8>)>) -> Seq<(Seq<u16>, Seq<u8>)> {
    m.map_values(|e: (Vec<u16>, Vec<u8>)| (e.0@, e.1@))
}

/// The code pairs of all records of a section.
pub fn code_list(sec: &SectionDict) -> (r: Vec<(Vec<u16>, u8)>)
    ensures
        code_list_view(r@) == code_entries(*sec, sec.records@.len() as int),
{
    let n = sec.num_records();
    let mut m: Vec<(Vec<u16>, u8)> = Vec::new();
    let mut i: usize = 0;
    while i < n
        invariant
            n == sec.records@.len(),
            i <= n,
            code_list_view(m@) == code_entries(*sec, i as int),
        decreases n - i,
    {
        let ghost before = code_list_view(m@);
        match sec.code(i) {
            Some(c) => {
                let k = key_u16(sec, i);
                m.push((k, c));
                proof {
                    assert(code_list_view(m@) =~= before.push((key_units(*sec, i as int), c)));
                }
            },
            None => {},
        }
        i = i + 1;
    }
    m
}

/// The text pairs of all records of a section.
pub fn text_list(sec: &SectionDict) -> (r: Vec<(Vec<u16>, Vec<u8>)>)
    ensures
        text_list_view(r@) == text_entries(*sec, sec.records@.len() as int),
{
    let n = sec.num_records();
    let mut m: Vec<(Vec<u16>, Vec<u8>)> = Vec::new();
    let mut i: usize = 0;
    while i < n
        invariant
            n == sec.records@.len(),
            i <= n,
            text_list_view(m@) == text_entries(*sec, i as int),
        decreases n - i,
    {
        let ghost before = text_list_view(m@);
        match sec.value_string(i) {
            Some(v) => {
                let k = key_u16(sec, i);
                let b = v.as_str().as_bytes();
                let bytes = crate::common::copy_range(b, 0, b.len());
                proof {
                    assert(b@.subrange(0, b@.len() as int) =~= b@);
                }
                m.push((k, bytes));
                proof {
                    assert(text_list_view(m@) =~= before.push((key_units(*sec, i as int), bytes@)));
                }
            },
            None => {},
        }
        i = i + 1;
    }
    m
}

/// The value of the last pair with key `k`.
pub open spec fn last_value<V>(m: Seq<(Seq<u16>, V)>, k: Seq<u16>) -> Option<V>
    decreases m.len(),
{
    if m.len() == 0 {
        None
    } else if m.last().0 == k {
        Some(m.last().1)
    } else {
        last_value(m.drop_last(), k)
    }
}

fn units_eq(a: &[u16], b: &[u16]) -> (r: bool)
    ensures
        r == (a@ == b@),
{
    if a.len() != b.len() {
        return false;
    }
    let mut i: usize = 0;
    while i < a.len()
        invariant
            a@.len() == b@.len(),
            i <= a@.len(),
            forall|j: int| 0 <= j < i ==> a@[j] == b@[j],
        decreases a@.len() - i,
    {
        if a[i] != b[i] {
            return false;
        }
        i = i + 1;
    }
    proof {
        assert(a@ =~= b@);
    }
    true
}

/// The code of the last pair with key `k`.
pub fn find_code(m: &Vec<(Vec<u16>, u8)>, k: &[u16]) -> (r: Option<u8>)
    ensures
        r == last_value(code_list_view(m@), k@),
{
    let ghost v = code_list_view(m@);
    let mut j: usize = m.len();
    proof {
        assert(v.subrange(0, v.len() as int) =~= v);
    }
    while j > 0
        invariant
            j <= m@.len(),
            v == code_list_view(m@),
            last_value(v, k@) == last_value(v.subrange(0, j as int), k@),
        decreases j,
    {
        let ghost sub = v.subrange(0, j as int);
        proof {
            assert(sub.drop_last() =~= v.subrange(0, j - 1));
            assert(sub.last() == v[j - 1]);
        }
        if units_eq(m[j - 1].0.as_slice(), k) {
            return Some(m[j - 1].1);
        }
        j = j - 1;
    }
    proof {
        assert(v.subrange(0, 0) =~= Seq::<(Seq<u16>, u8)>::empty());
    }
    None
}

/// The bytes of the last pair with key `k`.
pub fn find_text(m: &Vec<(Vec<u16>, Vec<u8>)>, k: &[u16]) -> (r: Option<Vec<u8>>)
    ensures
        match last_value(text_list_view(m@), k@) {
            Some(b) => r matches Some(x) && x@ == b,
            None => r is None,
        },
{
    let ghost v = text_list_view(m@);
    let mut j: usize = m.len();
    proof {
        assert(v.subrange(0, v.len() as int) =~= v);
    }
    while j > 0
        invariant
            j <= m@.len(),
            v == text_list_view(m@),
            last_value(v, k@) == last_value(v.subrange(0, j as int), k@),
        decreases j,
    {
        let ghost sub = v.subrange(0, j as int);
        proof {
            assert(sub.drop_last() =~= v.subrange(0, j - 1));
            assert(sub.last() == v[j - 1]);
        }
        if units_eq(m[j - 1].0.as_slice(), k) {
            let b = m[j - 1].1.as_slice();
            let out = crate::common::copy_range(b, 0, b.len());
            proof {
                assert(b@.subrange(0, b@.len() as int) =~= b@);
            }
            return Some(out);
        }
        j = j - 1;
    }
    proof {
        assert(v.subrange(0, 0) =~= Seq::<(Seq<u16>, Seq<u8>)>::empty());
    }
    None
}

/// The key of a record as UTF-16 units: its key bytes taken two by two in a UTF-16 pool,
/// one by one otherwise; empty where the record has no key.
pub open spec fn key_units(s: SectionDict, rec: int) -> Seq<u16> {
    match spec_key_bytes(s, rec) {
        Some(b) => if s.key_unit == PoolUnit::U16 {
            le_units(b)
        } else {
            b.map_values(|x: u8| x as u16)
        },
        None => Seq::empty(),
    }
}

/// The key of record `rec` as UTF-16 units.
pub fn key_u16(sec: &SectionDict, rec: usize) -> (r: Vec<u16>)
    ensures
        r@ == key_units(*sec, rec as int),
{
    match sec.key_bytes(rec) {
        Some(b) => {
            if sec.key_unit == PoolUnit::U16 {
                crate::common::bytes_to_units(b)
            } else {
                let mut out: Vec<u16> = Vec::new();
                let mut i: usize = 0;
                while i < b.len()
                    invariant
                        i <= b@.len(),
                        out@ == b@.subrange(0, i as int).map_values(|x: u8| x as u16),
                    decreases b@.len() - i,
                {
                    out.push(b[i] as u16);
                    i = i + 1;
                    proof {
                        assert(out@ =~= b@.subrange(0, i as int).map_values(|x: u8| x as u16));
                    }
                }
                proof {
                    assert(b@.subrange(0, b@.len() as int) =~= b@);
                }
                out
            }
        },
        None => Vec::new(),
    }
}

/// The error for a file the data map lacks.
pub open spec fn missing_message(rel: Seq<char>) -> Seq<char> {
    rel + ": no key in the data map"@
}

fn require_file<'a>(files: &'a DataMap, prefix: &str, rel: &str) -> (r: KmaResult<&'a Vec<u8>>)
    ensures
        match file_of(*files, prefix@, rel@) {
            Some(b) => r matches Ok(v) && v@ == b,
            None => r matches Err(e) && e.0@ == missing_message(rel@),
        },
{
    match get_file(files, prefix, rel) {
        Some(v) => Ok(v),
        None => {
            let mut m = String::from_str(rel);
            m.append(": no key in the data map");
            Err(KmaError(m))
        },
    }
}

fn dict_failure(what: &str, e: DictError) -> (r: KmaError)
    ensures
        r.0@ == what@ + ": "@ + e.msg@,
{
    let mut m = String::from_str(what);
    m.append(": ");
    m.append(e.msg.as_str());
    KmaError(m)
}

/// The three morpheme dictionary files are there and parse.
pub open spec fn kmorph_files_ok(f: DataMap, p: Seq<char>) -> bool {
    &&& file_of(f, p, "KMPADict/kmorph_hash.bin"@) is Some
    &&& file_of(f, p, "KMPADict/kmorph_hash.dic"@) is Some
    &&& file_of(f, p, "KMPADict/kmorph.dic"@) is Some
    &&& kmorph_ok(
        file_of(f, p, "KMPADict/kmorph_hash.bin"@)->0,
        file_of(f, p, "KMPADict/kmorph_hash.dic"@)->0,
        file_of(f, p, "KMPADict/kmorph.dic"@)->0,
    )
}

/// Where all three morpheme dictionary files are there, the hash chain file fits 32-bit
/// offsets.
pub open spec fn kmorph_files_defined(f: DataMap, p: Seq<char>) -> bool {
    (file_of(f, p, "KMPADict/kmorph_hash.bin"@) is Some && file_of(f, p, "KMPADict/kmorph_hash.dic"@) is Some
        && file_of(f, p, "KMPADict/kmorph.dic"@) is Some) ==> file_of(f, p, "KMPADict/kmorph_hash.dic"@)->0.len()
        <= u32::MAX + 1
}

/// The morpheme dictionary read from the data map's three files (see `kmorph_matches`).
pub open spec fn kmorph_from(x: KmorphDict, f: DataMap, p: Seq<char>) -> bool {
    kmorph_matches(
        x,
        file_of(f, p, "KMPADict/kmorph_hash.bin"@)->0,
        file_of(f, p, "KMPADict/kmorph_hash.dic"@)->0,
        file_of(f, p, "KMPADict/kmorph.dic"@)->0,
    )
}

fn load_kmorph<'a>(files: &'a DataMap, prefix: &str) -> (r: KmaResult<KmorphDict<'a>>)
    requires
        kmorph_files_defined(*files, prefix@),
    ensures
        r is Ok <==> kmorph_files_ok(*files, prefix@),
        file_of(*files, prefix@, "KMPADict/kmorph_hash.bin"@) is None ==> (r matches Err(e) && e.0@
            == missing_message("KMPADict/kmorph_hash.bin"@)),
        r matches Ok(x) ==> kmorph_from(x, *files, prefix@),
{
    let hb = match require_file(files, prefix, "KMPADict/kmorph_hash.bin") {
        Ok(v) => v,
        Err(e) => {
            return Err(e);
        },
    };
    let hd = match require_file(files, prefix, "KMPADict/kmorph_hash.dic") {
        Ok(v) => v,
        Err(e) => {
            return Err(e);
        },
    };
    let d = match require_file(files, prefix, "KMPADict/kmorph.dic") {
        Ok(v) => v,
        Err(e) => {
            return Err(e);
        },
    };
    match crate::kmorph::parse(hb.as_slice(), hd.as_slice(), d.as_slice()) {
        Ok(x) => Ok(x),
        Err(e) => Err(dict_failure("kmorph", e)),
    }
}

/// The three part-of-speech n-gram files are there and parse.
pub open spec fn pos_files_ok(f: DataMap, p: Seq<char>) -> bool {
    &&& file_of(f, p, "KMPADict/POSUniGram.bin"@) is Some
    &&& file_of(f, p, "KMPADict/POSBigram.bin"@) is Some
    &&& file_of(f, p, "KMPADict/POSTrigram.bin"@) is Some
    &&& file_of(f, p, "KMPADict/POSUniGram.bin"@)->0.len() == POS_COUNT * 4
    &&& bi_ok(file_of(f, p, "KMPADict/POSBigram.bin"@)->0)
    &&& aptree_ok(file_of(f, p, "KMPADict/POSTrigram.bin"@)->0, 12, false)
}

/// The n-gram tables read from the data map's three files.
pub open spec fn pos_from(g: PosNGram, f: DataMap, p: Seq<char>) -> bool {
    &&& uni_matches(g.uni, file_of(f, p, "KMPADict/POSUniGram.bin"@)->0)
    &&& bi_matches(g.bi, file_of(f, p, "KMPADict/POSBigram.bin"@)->0)
    &&& aptree_matches(g.tri.aptree, file_of(f, p, "KMPADict/POSTrigram.bin"@)->0, 12, false)
}

fn load_pos<'a>(files: &'a DataMap, prefix: &str) -> (r: KmaResult<PosNGram<'a>>)
    ensures
        r is Ok <==> pos_files_ok(*files, prefix@),
        r matches Ok(g) ==> pos_from(g, *files, prefix@),
{
    let u = match require_file(files, prefix, "KMPADict/POSUniGram.bin") {
        Ok(v) => v,
        Err(e) => {
            return Err(e);
        },
    };
    let b = match require_file(files, prefix, "KMPADict/POSBigram.bin") {
        Ok(v) => v,
        Err(e) => {
            return Err(e);
        },
    };
    let t = match require_file(files, prefix, "KMPADict/POSTrigram.bin") {
        Ok(v) => v,
        Err(e) => {
            return Err(e);
        },
    };
    match crate::posngram::parse(u.as_slice(), b.as_slice(), t.as_slice()) {
        Ok(x) => Ok(x),
        Err(e) => Err(dict_failure("posngram", e)),
    }
}

/// The word trigram files are there and parse.
pub open spec fn wordtri_files_ok(f: DataMap, p: Seq<char>) -> bool {
    &&& file_of(f, p, "KMPADict/WordTriGram.bin"@) is Some
    &&& file_of(f, p, "KMPADict/WordTriGram.dic"@) is Some
    &&& wordtri_ok(file_of(f, p, "KMPADict/WordTriGram.bin"@)->0, file_of(f, p, "KMPADict/WordTriGram.dic"@)->0)
}

/// The word trigram tables that the two files give.
pub open spec fn wordtri_from(w: WordTriGram, bin: Seq<u8>, dic: Seq<u8>) -> bool {
    &&& aptree_matches(w.aptree, bin, 12, false)
    &&& w.dic_offsets@.len() == w.aptree.info@.len()
    &&& w.patterns@.len() == w.aptree.info@.len()
    &&& forall|i: int|
        0 <= i < w.aptree.info@.len() ==> #[trigger] w.dic_offsets@[i] == w.aptree.info@[i].value && Some(
            w.patterns@[i]@.map_values(|p: WordPattern| pattern_view(p)),
        ) == crate::wordgram::patterns_at(dic, w.aptree.info@[i].value as int)
}

fn load_wordtri<'a>(files: &'a DataMap, prefix: &str) -> (r: KmaResult<WordTriGram<'a>>)
    ensures
        r is Ok <==> wordtri_files_ok(*files, prefix@),
        r matches Ok(w) ==> wordtri_from(
            w,
            file_of(*files, prefix@, "KMPADict/WordTriGram.bin"@)->0,
            file_of(*files, prefix@, "KMPADict/WordTriGram.dic"@)->0,
        ),
{
    let b = match require_file(files, prefix, "KMPADict/WordTriGram.bin") {
        Ok(v) => v,
        Err(e) => {
            return Err(e);
        },
    };
    let d = match require_file(files, prefix, "KMPADict/WordTriGram.dic") {
        Ok(v) => v,
        Err(e) => {
            return Err(e);
        },
    };
    match crate::wordgram::parse(b.as_slice(), d.as_slice()) {
        Ok(x) => Ok(x),
        Err(e) => Err(dict_failure("wordgram", e)),
    }
}

/// Whether the file `rel` is there and is a tree with `isz`-byte info entries.
pub open spec fn tree_file_ok(f: DataMap, p: Seq<char>, rel: Seq<char>, isz: int, wide: bool) -> bool {
    file_of(f, p, rel) is Some && aptree_ok(file_of(f, p, rel)->0, isz, wide)
}

fn load_namegram<'a>(files: &'a DataMap, prefix: &str) -> (r: KmaResult<NameGram<'a>>)
    ensures
        r is Ok <==> tree_file_ok(*files, prefix@, "KMPADict/HKNamegram.bin"@, 8, true),
        r matches Ok(g) ==> aptree_matches(g.aptree, file_of(*files, prefix@, "KMPADict/HKNamegram.bin"@)->0, 8, true),
{
    let b = match require_file(files, prefix, "KMPADict/HKNamegram.bin") {
        Ok(v) => v,
        Err(e) => {
            return Err(e);
        },
    };
    match crate::wordgram::parse_hkname(b.as_slice()) {
        Ok(x) => Ok(x),
        Err(e) => Err(dict_failure("hknamegram", e)),
    }
}

fn load_hcbigram<'a>(files: &'a DataMap, prefix: &str) -> (r: KmaResult<CharGram<'a>>)
    ensures
        r is Ok <==> tree_file_ok(*files, prefix@, "KMPADict/HCBigram.bin"@, 12, true),
        r matches Ok(g) ==> aptree_matches(g.aptree, file_of(*files, prefix@, "KMPADict/HCBigram.bin"@)->0, 12, true),
{
    let b = match require_file(files, prefix, "KMPADict/HCBigram.bin") {
        Ok(v) => v,
        Err(e) => {
            return Err(e);
        },
    };
    match crate::wordgram::parse_hc(b.as_slice()) {
        Ok(x) => Ok(x),
        Err(e) => Err(dict_failure("hcbigram", e)),
    }
}

fn load_tosplit(files: &DataMap, prefix: &str) -> (r: KmaResult<ToSplitDic>)
    ensures
        r is Ok <==> (file_of(*files, prefix@, "KMPADict/ToSplit.bin"@) matches Some(b) && ts_from(b, 0, 0) is Some),
        r matches Ok(t) ==> ts_view(t.sections@) == ts_from(file_of(*files, prefix@, "KMPADict/ToSplit.bin"@)->0, 0, 0)->0,
{
    let b = match require_file(files, prefix, "KMPADict/ToSplit.bin") {
        Ok(v) => v,
        Err(e) => {
            return Err(e);
        },
    };
    match crate::tosplit::parse_to_split(b.as_slice()) {
        Ok(x) => Ok(x),
        Err(e) => Err(dict_failure("tosplit", e)),
    }
}

fn load_irr_pred(files: &DataMap, prefix: &str) -> (r: KmaResult<IrregulePredDic>)
    ensures
        r is Ok <==> (file_of(*files, prefix@, "KMPADict/IrregulePred.bin"@) matches Some(b) && ir_from(b, 0, 0) is Some),
        r matches Ok(t) ==> ir_view(t.sections@) == ir_from(file_of(*files, prefix@, "KMPADict/IrregulePred.bin"@)->0, 0, 0)->0,
{
    let b = match require_file(files, prefix, "KMPADict/IrregulePred.bin") {
        Ok(v) => v,
        Err(e) => {
            return Err(e);
        },
    };
    match crate::tosplit::parse_irregule_pred(b.as_slice()) {
        Ok(x) => Ok(x),
        Err(e) => Err(dict_failure("irregulepred", e)),
    }
}

/// The hanja reading table that the file gives.
pub open spec fn hanja_from(h: Hanja2Korea, d: Seq<u8>) -> bool {
    h.table@.len() == HANJA_TABLE_SIZE && forall|i: int|
        0 <= i < HANJA_TABLE_SIZE ==> #[trigger] h.table@[i] as int == crate::common::le16(d, 2 * i)
}

fn load_hanja(files: &DataMap, prefix: &str) -> (r: KmaResult<Hanja2Korea>)
    ensures
        r is Ok <==> (file_of(*files, prefix@, "PronDict/unihanja2korea.bin"@) matches Some(b) && b.len() == 2
            * HANJA_TABLE_SIZE),
        r matches Ok(h) ==> hanja_from(h, file_of(*files, prefix@, "PronDict/unihanja2korea.bin"@)->0),
{
    let b = match require_file(files, prefix, "PronDict/unihanja2korea.bin") {
        Ok(v) => v,
        Err(e) => {
            return Err(e);
        },
    };
    match crate::hanja::parse(b.as_slice()) {
        Ok(x) => Ok(x),
        Err(e) => Err(dict_failure("unihanja2korea.bin", e)),
    }
}

/// The code pairs a pronunciation file gives: those of its section where the file is
/// there and parses, none otherwise.
pub open spec fn code_map_from(m: Seq<(Seq<u16>, u8)>, d: Option<Seq<u8>>) -> bool {
    match d {
        Some(b) => if section_ok(b, prepron_layout()) {
            exists|sd: SectionDict| #[trigger] section_matches(sd, b, prepron_layout()) && m == code_entries(
                sd,
                sd.records@.len() as int,
            )
        } else {
            m.len() == 0
        },
        None => m.len() == 0,
    }
}

/// The text pairs a pronunciation file gives: those of its section where the file is
/// there and parses, none otherwise.
pub open spec fn text_map_from(m: Seq<(Seq<u16>, Seq<u8>)>, d: Option<Seq<u8>>) -> bool {
    match d {
        Some(b) => if section_ok(b, strpron_layout()) {
            exists|sd: SectionDict| #[trigger] section_matches(sd, b, strpron_layout()) && m == text_entries(
                sd,
                sd.records@.len() as int,
            )
        } else {
            m.len() == 0
        },
        None => m.len() == 0,
    }
}

fn load_code_map(files: &DataMap, prefix: &str, rel: &str) -> (r: Vec<(Vec<u16>, u8)>)
    ensures
        code_map_from(code_list_view(r@), file_of(*files, prefix@, rel@)),
{
    let empty: Vec<(Vec<u16>, u8)> = Vec::new();
    proof {
        assert(code_list_view(empty@).len() == 0);
    }
    let d = match get_file(files, prefix, rel) {
        Some(d) => d,
        None => {
            return empty;
        },
    };
    match crate::pronsec::parse_prepron(d.as_slice()) {
        Ok(sec) => {
            let m = code_list(&sec);
            proof {
                assert(section_matches(sec, d@, prepron_layout()) && code_list_view(m@) == code_entries(
                    sec,
                    sec.records@.len() as int,
                ));
            }
            m
        },
        Err(_) => empty,
    }
}

fn load_text_map(files: &DataMap, prefix: &str, rel: &str, uni: bool) -> (r: Vec<(Vec<u16>, Vec<u8>)>)
    ensures
        text_map_from(text_list_view(r@), file_of(*files, prefix@, rel@)),
{
    let empty: Vec<(Vec<u16>, Vec<u8>)> = Vec::new();
    proof {
        assert(text_list_view(empty@).len() == 0);
    }
    let d = match get_file(files, prefix, rel) {
        Some(d) => d,
        None => {
            return empty;
        },
    };
    let parsed = if uni {
        crate::pronsec::parse_unipron(d.as_slice())
    } else {
        crate::pronsec::parse_strpron(d.as_slice())
    };
    match parsed {
        Ok(sec) => {
            let m = text_list(&sec);
            proof {
                assert(section_matches(sec, d@, strpron_layout()) && text_list_view(m@) == text_entries(
                    sec,
                    sec.records@.len() as int,
                ));
            }
            m
        },
        Err(_) => empty,
    }
}

/// The user dictionary the data map gives: none where the file is missing or does not
/// load, else what its section builds.
pub open spec fn user_from(u: UserDic, d: Option<Seq<u8>>) -> bool {
    let empty = u.entries().len() == 0 && u.tree().len() == 0;
    match d {
        None => empty,
        Some(b) => {
            ||| exists|sd: SectionDict|
                #[trigger] section_matches(sd, b, crate::pronsec::user_layout()) && crate::userdic::user_built(
                    sd,
                    Ok(u),
                )
            ||| empty && (!section_ok(b, crate::pronsec::user_layout()) || exists|sd: SectionDict|
                #[trigger] section_matches(sd, b, crate::pronsec::user_layout()) && !(sd.tree@.len()
                    >= sd.records@.len() && crate::userdic::user_entries_ok(sd)))
        },
    }
}

fn load_user(files: &DataMap, prefix: &str) -> (r: UserDic)
    ensures
        user_from(r, file_of(*files, prefix@, "user.bin"@)),
{
    match get_file(files, prefix, "user.bin") {
        Some(d) => match UserDic::load_bytes(d.as_slice()) {
            Ok(u) => u,
            Err(_) => UserDic::empty(),
        },
        None => UserDic::empty(),
    }
}

/// Every dictionary the analyser cannot do without is in the data map and parses.
pub open spec fn kma_files_ok(f: DataMap, p: Seq<char>) -> bool {
    &&& kmorph_files_ok(f, p)
    &&& pos_files_ok(f, p)
    &&& wordtri_files_ok(f, p)
    &&& tree_file_ok(f, p, "KMPADict/HKNamegram.bin"@, 8, true)
    &&& tree_file_ok(f, p, "KMPADict/HCBigram.bin"@, 12, true)
    &&& file_of(f, p, "KMPADict/ToSplit.bin"@) matches Some(b) && ts_from(b, 0, 0) is Some
    &&& file_of(f, p, "KMPADict/IrregulePred.bin"@) matches Some(b) && ir_from(b, 0, 0) is Some
    &&& file_of(f, p, "PronDict/unihanja2korea.bin"@) matches Some(b) && b.len() == 2 * HANJA_TABLE_SIZE
}

/// What loading may ask of the data map: the morpheme dictionary can be checked, and
/// the English pronunciation table fits 32-bit offsets.
pub open spec fn kma_files_defined(f: DataMap, p: Seq<char>) -> bool {
    &&& kmorph_files_defined(f, p)
    &&& file_of(f, p, "EngDict/englishpyogi.dic"@) matches Some(x) ==> x.len() <= u32::MAX + 1
}

/// The analyser's dictionaries.
#[derive(Debug)]
pub struct KmaDicts<'a> {
    pub kmorph: KmorphDict<'a>,
    pub pos: PosNGram<'a>,
    pub wordtri: WordTriGram<'a>,
    pub namegram: NameGram<'a>,
    pub hcbigram: CharGram<'a>,
    pub tosplit: ToSplitDic,
    pub irr_pred: IrregulePredDic,
    pub prepron: Vec<(Vec<u16>, u8)>,
    pub unipron: Vec<(Vec<u16>, Vec<u8>)>,
    pub strpron: Vec<(Vec<u16>, Vec<u8>)>,
    pub user_dic: UserDic,
    pub hanja: Hanja2Korea,
    pub eng: EngDicts,
}

/// The dictionaries that the data map gives, each from its file.
pub open spec fn kma_dicts_from(k: KmaDicts, f: DataMap, p: Seq<char>) -> bool {
    &&& kmorph_from(k.kmorph, f, p)
    &&& pos_from(k.pos, f, p)
    &&& wordtri_from(
        k.wordtri,
        file_of(f, p, "KMPADict/WordTriGram.bin"@)->0,
        file_of(f, p, "KMPADict/WordTriGram.dic"@)->0,
    )
    &&& aptree_matches(k.namegram.aptree, file_of(f, p, "KMPADict/HKNamegram.bin"@)->0, 8, true)
    &&& aptree_matches(k.hcbigram.aptree, file_of(f, p, "KMPADict/HCBigram.bin"@)->0, 12, true)
    &&& ts_view(k.tosplit.sections@) == ts_from(file_of(f, p, "KMPADict/ToSplit.bin"@)->0, 0, 0)->0
    &&& ir_view(k.irr_pred.sections@) == ir_from(file_of(f, p, "KMPADict/IrregulePred.bin"@)->0, 0, 0)->0
    &&& code_map_from(code_list_view(k.prepron@), file_of(f, p, "PronDict/prepron.bin"@))
    &&& text_map_from(text_list_view(k.unipron@), file_of(f, p, "PronDict/unipron.bin"@))
    &&& text_map_from(text_list_view(k.strpron@), file_of(f, p, "PronDict/strpron.bin"@))
    &&& hanja_from(k.hanja, file_of(f, p, "PronDict/unihanja2korea.bin"@)->0)
    &&& user_from(k.user_dic, file_of(f, p, "user.bin"@))
    &&& eng_from(k.eng, f, p)
}

/// Loads the analyser's dictionaries stored under `prefix` in the data map. The
/// pronunciation tables, the user dictionary and the English dictionaries are left
/// empty where their files are missing or malformed; any other dictionary missing or
/// malformed is an error.
pub fn load_bytes_inner<'a>(files: &'a DataMap, prefix: &str) -> (r: KmaResult<KmaDicts<'a>>)
    requires
        kma_files_defined(*files, prefix@),
    ensures
        r is Ok <==> kma_files_ok(*files, prefix@),
        r matches Ok(k) ==> kma_dicts_from(k, *files, prefix@),
        file_of(*files, prefix@, "KMPADict/kmorph_hash.bin"@) is None ==> (r matches Err(e) && e.0@
            == missing_message("KMPADict/kmorph_hash.bin"@)),
{
    let kmorph = match load_kmorph(files, prefix) {
        Ok(x) => x,
        Err(e) => {
            return Err(e);
        },
    };
    let pos = match load_pos(files, prefix) {
        Ok(x) => x,
        Err(e) => {
            return Err(e);
        },
    };
    let wordtri = match load_wordtri(files, prefix) {
        Ok(x) => x,
        Err(e) => {
            return Err(e);
        },
    };
    let namegram = match load_namegram(files, prefix) {
        Ok(x) => x,
        Err(e) => {
            return Err(e);
        },
    };
    let hcbigram = match load_hcbigram(files, prefix) {
        Ok(x) => x,
        Err(e) => {
            return Err(e);
        },
    };
    let tosplit = match load_tosplit(files, prefix) {
        Ok(x) => x,
        Err(e) => {
            return Err(e);
        },
    };
    let irr_pred = match load_irr_pred(files, prefix) {
        Ok(x) => x,
        Err(e) => {
            return Err(e);
        },
    };
    let prepron = load_code_map(files, prefix, "PronDict/prepron.bin");
    let unipron = load_text_map(files, prefix, "PronDict/unipron.bin", true);
    let strpron = load_text_map(files, prefix, "PronDict/strpron.bin", false);
    let hanja = match load_hanja(files, prefix) {
        Ok(x) => x,
        Err(e) => {
            return Err(e);
        },
    };
    let user_dic = load_user(files, prefix);
    let eng = load_eng_dicts(files, prefix);
    Ok(KmaDicts { kmorph, pos, wordtri, namegram, hcbigram, tosplit, irr_pred, prepron, unipron, strpron, user_dic, hanja, eng })
}

impl<'a> KmaDicts<'a> {
    /// Loads the analyser's dictionaries stored under `KLangDic/` in the data map.
    pub fn load_bytes(files: &'a DataMap) -> (r: KmaResult<KmaDicts<'a>>)
        requires
            kma_files_defined(*files, "KLangDic/"@),
        ensures
            r is Ok <==> kma_files_ok(*files, "KLangDic/"@),
            r matches Ok(k) ==> kma_dicts_from(k, *files, "KLangDic/"@),
    {
        load_bytes_inner(files, "KLangDic/")
    }
}

/// The loaded analyser: its dictionaries and whether it checks sentence cuts.
#[derive(Debug)]
pub struct KmaContext<'a> {
    pub d: KmaDicts<'a>,
    pub tts_check_sentence_cut: bool,
}

impl<'a> KmaContext<'a> {
    /// The English dictionaries.
    pub fn eng_dicts(&self) -> (r: &EngDicts)
        ensures
            *r == self.d.eng,
    {
        &self.d.eng
    }

    /// The (key, code) pairs of the pronunciation prefix table.
    pub fn prepron(&self) -> (r: &Vec<(Vec<u16>, u8)>)
        ensures
            *r == self.d.prepron,
    {
        &self.d.prepron
    }

    /// The (key, text) pairs of the string pronunciation table.
    pub fn strpron(&self) -> (r: &Vec<(Vec<u16>, Vec<u8>)>)
        ensures
            *r == self.d.strpron,
    {
        &self.d.strpron
    }

    /// The (key, text) pairs of the character pronunciation table.
    pub fn unipron(&self) -> (r: &Vec<(Vec<u16>, Vec<u8>)>)
        ensures
            *r == self.d.unipron,
    {
        &self.d.unipron
    }
}

/// Loads the analyser from the dictionaries stored under `KLangDic/` in the data map;
/// it starts without sentence-cut checks.
pub fn load_kma_dicts_bytes<'a>(files: &'a DataMap) -> (r: KmaResult<KmaContext<'a>>)
    requires
        kma_files_defined(*files, "KLangDic/"@),
    ensures
        r is Ok <==> kma_files_ok(*files, "KLangDic/"@),
        r matches Ok(c) ==> kma_dicts_from(c.d, *files, "KLangDic/"@) && !c.tts_check_sentence_cut,
{
    match KmaDicts::load_bytes(files) {
        Ok(d) => Ok(KmaContext { d, tts_check_sentence_cut: false }),
        Err(e) => Err(e),
    }
}

/// The part of speech of a morpheme dictionary item.
pub fn key_item_ch_pos(it: &SKeyItem) -> (r: u8)
    ensures
        r == it.ch_pos,
{
    it.ch_pos
}

/// `n` cut to at most `l` items.
pub open spec fn cut<T>(n: Seq<T>, l: int) -> Seq<T> {
    if n.len() <= l {
        n
    } else {
        n.subrange(0, l)
    }
}

/// Binary search of `key` among `names[lo..hi]`, comparing `key` (cut to the name's
/// length where `cut_key`) with each name cut to the key's length: the index where they
/// compare equal, as the search meets it.
pub open spec fn name_search(names: Seq<Seq<u8>>, key: Seq<u8>, cut_key: bool, lo: int, hi: int) -> Option<int>
    decreases hi - lo,
{
    if lo < 0 || lo >= hi || hi > names.len() {
        None
    } else {
        let mid = (lo + hi) / 2;
        let n = cut(names[mid], key.len() as int);
        let k = if cut_key {
            cut(key, names[mid].len() as int)
        } else {
            key
        };
        if crate::blob::bytes_lt(k, n) {
            name_search(names, key, cut_key, lo, mid)
        } else if crate::blob::bytes_lt(n, k) {
            name_search(names, key, cut_key, mid + 1, hi)
        } else {
            Some(mid)
        }
    }
}

/// The stems of a section of irregular predicates, in UTF-8.
pub open spec fn stem_names(sec: Seq<crate::tosplit::IrrPredEntry>) -> Seq<Seq<u8>> {
    sec.map_values(|e: crate::tosplit::IrrPredEntry| encode_utf8(e.stem@))
}

/// The names of a section of the split dictionary, in UTF-8.
pub open spec fn split_names(sec: Seq<crate::tosplit::ToSplitEntry>) -> Seq<Seq<u8>> {
    sec.map_values(|e: crate::tosplit::ToSplitEntry| encode_utf8(e.name@))
}

/// Section `i` of a sectioned table, empty when there is none.
pub open spec fn section_at<T>(s: Seq<Vec<T>>, i: int) -> Seq<T> {
    if 0 <= i < s.len() {
        s[i]@
    } else {
        Seq::empty()
    }
}

/// The part-of-speech code that the split dictionary's binary search gives for `key`
/// among the names of length `n` (0 when none matches).
pub open spec fn split_pos(ts: ToSplitDic, key: Seq<u8>, n: int) -> u8 {
    let sec = section_at(ts.sections@, less_one(n));
    match name_search(split_names(sec), key, true, 0, sec.len() as int) {
        Some(m) => sec[m].pos,
        None => 0,
    }
}

/// A letter after which no pronoun ending is looked for: an initial consonant.
pub open spec fn ends_pronoun_search(c: u8) -> bool {
    c == 0x67 || c == 0x71 || c == 0x6E || c == 0x64 || c == 0x66 || c == 0x6C || c == 0x6D || c == 0x62
        || c == 0x72 || c == 0x73 || c == 0x76 || c == 0x6A || c == 0x7A || c == 0x63 || c == 0x6B || c
        == 0x74 || c == 0x70 || c == 0x68
}

/// The pronoun ending found from length `n` down: for each length `n` shorter than the
/// word, the split dictionary's code for the word's last `n` letters (read on to the end
/// of the buffer), where the letter before them is neither 0 nor an initial consonant.
pub open spec fn pronoun_from(ts: ToSplitDic, p: Seq<u8>, wlen: int, n: int) -> Option<(u8, int)>
    decreases n,
{
    if n <= 0 {
        None
    } else if wlen <= n {
        pronoun_from(ts, p, wlen, n - 1)
    } else {
        let start = wlen - n;
        let c = p[start - 1];
        let code = split_pos(ts, p.subrange(start, p.len() as int), n);
        if c != 0 && !ends_pronoun_search(c) && code != 0 {
            Some((code, n))
        } else {
            pronoun_from(ts, p, wlen, n - 1)
        }
    }
}

/// The pronoun ending of the first `w_pyogi_len` letters of `pyogi`, tried from twelve
/// letters down (see `pronoun_from`): its code and length.
pub fn process_to_pronoun(pyogi: &[u8], w_pyogi_len: usize, d: &KmaDicts) -> (r: Option<(u8, usize)>)
    requires
        w_pyogi_len <= pyogi@.len(),
    ensures
        match pronoun_from(d.tosplit, pyogi@, w_pyogi_len as int, 12) {
            Some(x) => r == Some((x.0, x.1 as usize)),
            None => r is None,
        },
{
    let mut n: usize = 12;
    while n > 0
        invariant
            n <= 12,
            w_pyogi_len <= pyogi@.len(),
            pronoun_from(d.tosplit, pyogi@, w_pyogi_len as int, 12) == pronoun_from(
                d.tosplit,
                pyogi@,
                w_pyogi_len as int,
                n as int,
            ),
        decreases n,
    {
        if w_pyogi_len > n {
            let start = w_pyogi_len - n;
            let c = pyogi[start - 1];
            let stop = c == 0x67 || c == 0x71 || c == 0x6E || c == 0x64 || c == 0x66 || c == 0x6C || c == 0x6D
                || c == 0x62 || c == 0x72 || c == 0x73 || c == 0x76 || c == 0x6A || c == 0x7A || c == 0x63 || c
                == 0x6B || c == 0x74 || c == 0x70 || c == 0x68;
            if c != 0 && !stop {
                let rest = crate::common::slice_range(pyogi, start, pyogi.len());
                let code = d.to_struct_search(rest, n);
                if code != 0 {
                    return Some((code, n));
                }
            }
        }
        n = n - 1;
    }
    None
}

/// One less than `n`, but not below zero.
pub open spec fn less_one(n: int) -> int {
    if n > 0 {
        n - 1
    } else {
        0
    }
}

/// The index of the last pattern list with dictionary offset `offset`.
pub open spec fn last_offset(offs: Seq<u32>, offset: u32) -> Option<int>
    decreases offs.len(),
{
    if offs.len() == 0 {
        None
    } else if offs.last() == offset {
        Some(offs.len() - 1)
    } else {
        last_offset(offs.drop_last(), offset)
    }
}

/// A node of the word before, as (spelling, tag).
pub open spec fn node_view(o: Option<(Vec<u8>, u8)>) -> Option<(Seq<u8>, u8)> {
    match o {
        Some(n) => Some((n.0@, n.1)),
        None => None,
    }
}

/// A spelling slot of a pattern fits a node: an empty slot fits anything; with no node
/// it must be one of the two initial spellings, else the node's.
pub open spec fn slot_fits(slot: Seq<u8>, node: Option<(Seq<u8>, u8)>, ini_ll: Seq<u8>, ini: Seq<u8>) -> bool {
    slot.len() == 0 || match node {
        None => slot == ini_ll || slot == ini,
        Some(n) => slot == n.0,
    }
}

/// A tag slot of a pattern fits a node, in the same way (0 fits anything).
pub open spec fn tag_fits(slot: u8, node: Option<(Seq<u8>, u8)>, ini_ll: u8, ini: u8) -> bool {
    slot == 0 || match node {
        None => slot == ini_ll || slot == ini,
        Some(n) => slot == n.1,
    }
}

/// A pattern fits the three nodes.
pub open spec fn pattern_fits(
    p: (u32, Seq<Seq<u8>>, Seq<u8>),
    nodes: Seq<Option<(Seq<u8>, u8)>>,
    ini_ll: Seq<u8>,
    ini: Seq<u8>,
    ll_tag: u8,
    ini_tag: u8,
) -> bool {
    forall|k: int|
        0 <= k < 3 ==> slot_fits(#[trigger] p.1[k], nodes[k], ini_ll, ini) && tag_fits(p.2[k], nodes[k], ll_tag, ini_tag)
}

/// The probability bits of the first pattern from `k` on that fits; 0 when none does.
pub open spec fn first_fit(
    ps: Seq<(u32, Seq<Seq<u8>>, Seq<u8>)>,
    k: int,
    nodes: Seq<Option<(Seq<u8>, u8)>>,
    ini_ll: Seq<u8>,
    ini: Seq<u8>,
    ll_tag: u8,
    ini_tag: u8,
) -> u32
    decreases ps.len() - k,
{
    if k < 0 || k >= ps.len() {
        0
    } else if pattern_fits(ps[k], nodes, ini_ll, ini, ll_tag, ini_tag) {
        ps[k].0
    } else {
        first_fit(ps, k + 1, nodes, ini_ll, ini, ll_tag, ini_tag)
    }
}

/// The patterns of a list as values.
pub open spec fn patterns_view(v: Seq<WordPattern>) -> Seq<(u32, Seq<Seq<u8>>, Seq<u8>)> {
    v.map_values(|p: WordPattern| pattern_view(p))
}

proof fn lemma_last_offset_range(offs: Seq<u32>, offset: u32)
    ensures
        last_offset(offs, offset) matches Some(i) ==> 0 <= i < offs.len(),
    decreases offs.len(),
{
    if offs.len() > 0 {
        lemma_last_offset_range(offs.drop_last(), offset);
    }
}

fn find_offset(offs: &Vec<u32>, offset: u32) -> (r: Option<usize>)
    ensures
        match last_offset(offs@, offset) {
            Some(i) => r == Some(i as usize),
            None => r is None,
        },
{
    let mut j: usize = offs.len();
    proof {
        assert(offs@.subrange(0, offs@.len() as int) =~= offs@);
    }
    while j > 0
        invariant
            j <= offs@.len(),
            last_offset(offs@, offset) == last_offset(offs@.subrange(0, j as int), offset),
        decreases j,
    {
        let ghost sub = offs@.subrange(0, j as int);
        proof {
            assert(sub.drop_last() =~= offs@.subrange(0, j - 1));
            assert(sub.last() == offs@[j - 1]);
        }
        if offs[j - 1] == offset {
            return Some(j - 1);
        }
        j = j - 1;
    }
    proof {
        assert(offs@.subrange(0, 0) =~= Seq::<u32>::empty());
    }
    None
}

fn find_offset_in_range(offs: &Vec<u32>, offset: u32) -> (r: Option<usize>)
    ensures
        r matches Some(p) ==> last_offset(offs@, offset) == Some(p as int) && p < offs@.len(),
        r is None ==> last_offset(offs@, offset) is None,
{
    proof {
        lemma_last_offset_range(offs@, offset);
    }
    let r = find_offset(offs, offset);
    proof {
        if r is Some {
            let li = last_offset(offs@, offset)->0;
            assert(0 <= li < offs.len());
        }
    }
    r
}

fn slot_fits_exec(slot: &Vec<u8>, node: &Option<(Vec<u8>, u8)>, ini_ll: &[u8], ini: &[u8]) -> (b: bool)
    ensures
        b == slot_fits(slot@, node_view(*node), ini_ll@, ini@),
{
    if slot.len() == 0 {
        return true;
    }
    match node {
        None => crate::common::bytes_eq(slot.as_slice(), ini_ll) || crate::common::bytes_eq(slot.as_slice(), ini),
        Some(n) => crate::common::bytes_eq(slot.as_slice(), n.0.as_slice()),
    }
}

fn tag_fits_exec(slot: u8, node: &Option<(Vec<u8>, u8)>, ini_ll: u8, ini: u8) -> (b: bool)
    ensures
        b == tag_fits(slot, node_view(*node), ini_ll, ini),
{
    if slot == 0 {
        return true;
    }
    match node {
        None => slot == ini_ll || slot == ini,
        Some(n) => slot == n.1,
    }
}

fn pattern_fits_exec(
    p: &WordPattern,
    ims: &[Option<(Vec<u8>, u8)>; 3],
    ini_ll: &[u8],
    ini: &[u8],
    ll_tag: u8,
    ini_tag: u8,
) -> (b: bool)
    ensures
        b == pattern_fits(
            pattern_view(*p),
            ims@.map_values(|o: Option<(Vec<u8>, u8)>| node_view(o)),
            ini_ll@,
            ini@,
            ll_tag,
            ini_tag,
        ),
{
    let ghost nodes = ims@.map_values(|o: Option<(Vec<u8>, u8)>| node_view(o));
    let ghost pv = pattern_view(*p);
    let a0 = slot_fits_exec(&p.pyogi[0], &ims[0], ini_ll, ini) && tag_fits_exec(p.pos[0], &ims[0], ll_tag, ini_tag);
    let a1 = slot_fits_exec(&p.pyogi[1], &ims[1], ini_ll, ini) && tag_fits_exec(p.pos[1], &ims[1], ll_tag, ini_tag);
    let a2 = slot_fits_exec(&p.pyogi[2], &ims[2], ini_ll, ini) && tag_fits_exec(p.pos[2], &ims[2], ll_tag, ini_tag);
    proof {
        assert(nodes[0] == node_view(ims@[0]) && nodes[1] == node_view(ims@[1]) && nodes[2] == node_view(ims@[2]));
        assert(pv.1[0] == p.pyogi@[0]@ && pv.1[1] == p.pyogi@[1]@ && pv.1[2] == p.pyogi@[2]@);
        assert(pv.2 == p.pos@);
        assert(a0 == (slot_fits(pv.1[0], nodes[0], ini_ll@, ini@) && tag_fits(pv.2[0], nodes[0], ll_tag, ini_tag)));
        assert(a1 == (slot_fits(pv.1[1], nodes[1], ini_ll@, ini@) && tag_fits(pv.2[1], nodes[1], ll_tag, ini_tag)));
        assert(a2 == (slot_fits(pv.1[2], nodes[2], ini_ll@, ini@) && tag_fits(pv.2[2], nodes[2], ll_tag, ini_tag)));
        if a0 && a1 && a2 {
            assert forall|k: int| 0 <= k < 3 implies slot_fits(#[trigger] pv.1[k], nodes[k], ini_ll@, ini@) && tag_fits(
                pv.2[k],
                nodes[k],
                ll_tag,
                ini_tag,
            ) by {
                if k == 0 {
                } else if k == 1 {
                } else {
                }
            }
        }
    }
    a0 && a1 && a2
}

impl<'a> KmaDicts<'a> {
    /// The probability bits (single precision) of the first pattern of the word trigram
    /// pattern list at `offset` that the three nodes before fit (a node missing stands
    /// for the sentence start, with its two initial spellings and tags); 0 (the bits of
    /// 0.0) where no list has that offset or no pattern fits.
    pub fn search_pattern(
        &self,
        offset: u32,
        ims: &[Option<(Vec<u8>, u8)>; 3],
        ini_ll_str: &[u8],
        ini_str: &[u8],
        gb_ini_ll_tag: u8,
        gb_ini_tag: u8,
    ) -> (r: u32)
        requires
            self.wordtri.patterns@.len() == self.wordtri.dic_offsets@.len(),
        ensures
            r == match last_offset(self.wordtri.dic_offsets@, offset) {
                None => 0,
                Some(pi) => first_fit(
                    patterns_view(self.wordtri.patterns@[pi]@),
                    0,
                    ims@.map_values(|o: Option<(Vec<u8>, u8)>| node_view(o)),
                    ini_ll_str@,
                    ini_str@,
                    gb_ini_ll_tag,
                    gb_ini_tag,
                ),
            },
    {
        let pi = match find_offset_in_range(&self.wordtri.dic_offsets, offset) {
            Some(i) => i,
            None => {
                return 0;
            },
        };
        let patterns = &self.wordtri.patterns[pi];
        let ghost ps = patterns_view(patterns@);
        let ghost nodes = ims@.map_values(|o: Option<(Vec<u8>, u8)>| node_view(o));
        let mut k: usize = 0;
        while k < patterns.len()
            invariant
                k <= patterns@.len(),
                pi < self.wordtri.patterns@.len(),
                last_offset(self.wordtri.dic_offsets@, offset) == Some(pi as int),
                patterns@ == self.wordtri.patterns@[pi as int]@,
                ps == patterns_view(patterns@),
                nodes == ims@.map_values(|o: Option<(Vec<u8>, u8)>| node_view(o)),
                first_fit(ps, 0, nodes, ini_ll_str@, ini_str@, gb_ini_ll_tag, gb_ini_tag) == first_fit(
                    ps,
                    k as int,
                    nodes,
                    ini_ll_str@,
                    ini_str@,
                    gb_ini_ll_tag,
                    gb_ini_tag,
                ),
            decreases patterns@.len() - k,
        {
            let p = &patterns[k];
            let ok = pattern_fits_exec(p, ims, ini_ll_str, ini_str, gb_ini_ll_tag, gb_ini_tag);
            proof {
                assert(ps[k as int] == pattern_view(*p));
            }
            if ok {
                return p.prob;
            }
            k = k + 1;
        }
        0
    }

    /// The condition codes of the irregular predicate `stem`, looked up by binary search
    /// among the stems of its length.
    pub fn irr_pred_search(&self, stem: &[u8]) -> (r: Option<Vec<u8>>)
        ensures
            ({
                let sec = section_at(self.irr_pred.sections@, less_one(stem@.len() as int));
                match name_search(stem_names(sec), stem@, false, 0, sec.len() as int) {
                    Some(m) => r matches Some(c) && c@ == sec[m].cond@.subrange(
                        0,
                        crate::wdic::find_from(sec[m].cond@, 0, 0xFF),
                    ),
                    None => r is None,
                }
            }),
    {
        let sec = self.irr_pred.section(if stem.len() > 0 { stem.len() - 1 } else { 0 });
        let ghost sv = sec@;
        proof {
            assert(sv =~= section_at(self.irr_pred.sections@, less_one(stem@.len() as int)));
        }
        let ghost names = stem_names(sv);
        let mut lo: usize = 0;
        let mut hi: usize = sec.len();
        while lo < hi
            invariant
                sv == sec@,
                sv == section_at(self.irr_pred.sections@, less_one(stem@.len() as int)),
                names == stem_names(sv),
                hi <= sv.len(),
                name_search(names, stem@, false, lo as int, hi as int) == name_search(
                    names,
                    stem@,
                    false,
                    0,
                    sv.len() as int,
                ),
            decreases hi - lo,
        {
            let mid = lo + (hi - lo) / 2;
            proof {
                assert(mid == (lo + hi) / 2);
            }
            let name = sec[mid].stem.as_str().as_bytes();
            let l = if name.len() < stem.len() { name.len() } else { stem.len() };
            let n = crate::common::slice_range(name, 0, l);
            proof {
                assert(names[mid as int] == name@);
                assert(n@ == cut(name@, stem@.len() as int));
            }
            if crate::blob::key_lt(stem, n) {
                hi = mid;
            } else if crate::blob::key_lt(n, stem) {
                lo = mid + 1;
            } else {
                proof {
                    assert(name_search(names, stem@, false, lo as int, hi as int) == Some(mid as int));
                }
                let c = sec[mid].conditions();
                return Some(crate::common::copy_range(c, 0, c.len()));
            }
        }
        None
    }

    /// Whether the name trigram tree's search for `key` ends at an entry whose key starts
    /// with `key`.
    pub fn namegram(&self, key: &[u16]) -> (b: bool)
        requires
            wide_lookup_defined(self.namegram.aptree, key@),
        ensures
            b == match search_value(self.namegram.aptree.nodes@, self.namegram.aptree.n_tree as int, Seq::empty(), key@, true) {
                Some(i) => has_prefix(
                    wide_key(self.namegram.aptree.keys@, self.namegram.aptree.info@[i as int].key_offset as int),
                    units_le(key@),
                ),
                None => false,
            },
    {
        let kb = u16_slice_bytes(key);
        match self.namegram.aptree.search_w(key) {
            Some(i) => {
                let e = self.namegram.aptree.key_w_at(i);
                starts_with_bytes(e, kb.as_slice())
            },
            None => false,
        }
    }

    /// How many units of `key` the name trigram tree's entry for it covers: the length
    /// of that entry's key when `key` starts with it, else 0.
    pub fn namegram_match_len(&self, key: &[u16]) -> (n: usize)
        requires
            wide_lookup_defined(self.namegram.aptree, key@),
        ensures
            n == match search_value(self.namegram.aptree.nodes@, self.namegram.aptree.n_tree as int, Seq::empty(), key@, true) {
                Some(i) => {
                    let e = wide_key(self.namegram.aptree.keys@, self.namegram.aptree.info@[i as int].key_offset as int);
                    if has_prefix(units_le(key@), e) {
                        e.len() / 2
                    } else {
                        0
                    }
                },
                None => 0,
            },
    {
        let kb = u16_slice_bytes(key);
        match self.namegram.aptree.search_w(key) {
            Some(i) => {
                let e = self.namegram.aptree.key_w_at(i);
                if starts_with_bytes(kb.as_slice(), e) {
                    e.len() / 2
                } else {
                    0
                }
            },
            None => 0,
        }
    }

    /// The pattern offset of the word trigram entry for `key` with the character type
    /// `ch_type` put first.
    pub fn wordgram_lookup(&self, key: &[u8], ch_type: u8) -> (r: Option<u32>)
        requires
            byte_lookup_defined(self.wordtri.aptree, seq![ch_type] + key@),
            self.wordtri.dic_offsets@.len() == self.wordtri.aptree.info@.len(),
        ensures
            ({
                let k = seq![ch_type] + key@;
                let t = self.wordtri.aptree;
                match search_value(t.nodes@, t.n_tree as int, k, Seq::empty(), false) {
                    Some(i) => if byte_key(t.keys@, t.info@[i as int].key_offset as int) == k {
                        r == Some(self.wordtri.dic_offsets@[i as int])
                    } else {
                        r is None
                    },
                    None => r is None,
                }
            }),
    {
        let mut k: Vec<u8> = Vec::new();
        k.push(ch_type);
        let mut j: usize = 0;
        while j < key.len()
            invariant
                j <= key@.len(),
                k@ == seq![ch_type] + key@.subrange(0, j as int),
            decreases key@.len() - j,
        {
            k.push(key[j]);
            j = j + 1;
            proof {
                assert(k@ =~= seq![ch_type] + key@.subrange(0, j as int));
            }
        }
        proof {
            assert(key@.subrange(0, key@.len() as int) =~= key@);
        }
        match self.wordtri.lookup(k.as_slice()) {
            Some(i) => Some(self.wordtri.dic_offsets[i]),
            None => None,
        }
    }

    /// The bit pattern of the bigram probability of two tags, each taken as its offset
    /// from `'0'` (wrapping): that of 0.0 outside the table.
    pub fn pos_bigram(&self, ltag: u8, rtag: u8) -> (r: u64)
        ensures
            r == self.pos.bi.get_bits_spec(
                ((ltag as int - 0x30) % 256) as u8,
                ((rtag as int - 0x30) % 256) as u8,
            ),
    {
        let li = ltag.wrapping_sub(0x30);
        let ri = rtag.wrapping_sub(0x30);
        self.pos.bi.get_bits(li, ri)
    }

    /// The bit pattern of the trigram probability of a three-tag key.
    pub fn trigram(&self, key: &[u8]) -> (r: Option<u32>)
        requires
            byte_lookup_defined(self.pos.tri.aptree, key@),
        ensures
            ({
                let t = self.pos.tri.aptree;
                match search_value(t.nodes@, t.n_tree as int, key@, Seq::empty(), false) {
                    Some(i) => if byte_key(t.keys@, t.info@[i as int].key_offset as int) == key@ {
                        r == Some(t.info@[i as int].value)
                    } else {
                        r is None
                    },
                    None => r is None,
                }
            }),
    {
        self.pos.tri.lookup_bits(key)
    }

    /// The bit pattern of the hanja character bigram probability of `key`.
    pub fn chargram(&self, key: &[u16]) -> (r: Option<u32>)
        requires
            wide_lookup_defined(self.hcbigram.aptree, key@),
        ensures
            ({
                let t = self.hcbigram.aptree;
                match search_value(t.nodes@, t.n_tree as int, Seq::empty(), key@, true) {
                    Some(i) => if wide_key(t.keys@, t.info@[i as int].key_offset as int) == units_le(key@) {
                        r == Some(t.info@[i as int].value)
                    } else {
                        r is None
                    },
                    None => r is None,
                }
            }),
    {
        self.hcbigram.lookup_bits(key)
    }

    /// Whether the character pronunciation lookup knows `key`: it never does.
    pub fn uni_pron_lookup(&self, key: &[u16]) -> (b: bool)
        ensures
            !b,
    {
        false
    }

    /// The part-of-speech code of the split-dictionary name that `pyogi` matches, looked
    /// up by binary search among the names of length `n_len`; 0 when none matches.
    pub fn to_struct_search(&self, pyogi: &[u8], n_len: usize) -> (r: u8)
        ensures
            r == split_pos(self.tosplit, pyogi@, n_len as int),
    {
        let sec = self.tosplit.section(if n_len > 0 { n_len - 1 } else { 0 });
        let ghost sv = sec@;
        proof {
            assert(sv =~= section_at(self.tosplit.sections@, less_one(n_len as int)));
        }
        let ghost names = split_names(sv);
        let mut lo: usize = 0;
        let mut hi: usize = sec.len();
        while lo < hi
            invariant
                sv == sec@,
                sv == section_at(self.tosplit.sections@, less_one(n_len as int)),
                names == split_names(sv),
                hi <= sv.len(),
                name_search(names, pyogi@, true, lo as int, hi as int) == name_search(
                    names,
                    pyogi@,
                    true,
                    0,
                    sv.len() as int,
                ),
            decreases hi - lo,
        {
            let mid = lo + (hi - lo) / 2;
            proof {
                assert(mid == (lo + hi) / 2);
            }
            let name = sec[mid].name.as_str().as_bytes();
            let l = if name.len() < pyogi.len() { name.len() } else { pyogi.len() };
            let k = crate::common::slice_range(pyogi, 0, l);
            let n = crate::common::slice_range(name, 0, l);
            proof {
                assert(names[mid as int] == name@);
                assert(n@ == cut(name@, pyogi@.len() as int));
                assert(k@ == cut(pyogi@, name@.len() as int));
            }
            if crate::blob::key_lt(k, n) {
                hi = mid;
            } else if crate::blob::key_lt(n, k) {
                lo = mid + 1;
            } else {
                proof {
                    assert(name_search(names, pyogi@, true, lo as int, hi as int) == Some(mid as int));
                }
                return sec[mid].pos;
            }
        }
        0
    }
}

} // verus!
