use ktts::birule::{BIRuleFile, RuleMorph, RuleRecord};
use ktts::blob::DataMap;
use ktts::kmadict::{
    code_list, find_code, find_text, key_item_ch_pos, key_u16, load_bytes_inner, load_eng_dicts,
    load_kma_dicts_bytes, text_list, EngDicts, KmaDicts,
};
use ktts::kmorph::SKeyItem;
use ktts::pronsec::{PoolUnit, Record, RecordValue, SectionDict};
use ktts::userdic::UserDic;

fn section(keys: &[u8], values: &[u8], records: Vec<Record>) -> SectionDict {
    SectionDict {
        header: vec![0, 0, 0, 0],
        key_pool: keys.to_vec(),
        value_pool: values.to_vec(),
        key_unit: PoolUnit::Bytes,
        value_unit: PoolUnit::Bytes,
        records,
        tree: Vec::new(),
        tree_before_records: false,
    }
}

fn rec(key_ref: u32, value: RecordValue) -> Record {
    Record { key_ref, value, next: -1 }
}

fn u16s(s: &str) -> Vec<u16> {
    s.encode_utf16().collect()
}

#[test]
fn load_reports_first_missing_file() {
    let files = DataMap::new();
    let e = KmaDicts::load_bytes(&files).expect_err("nothing to load");
    assert_eq!(e.0, "KMPADict/kmorph_hash.bin: no key in the data map");
    let e = load_kma_dicts_bytes(&files).expect_err("nothing to load");
    assert_eq!(e.0, "KMPADict/kmorph_hash.bin: no key in the data map");
}

#[test]
fn load_reports_next_missing_file() {
    let mut files = DataMap::new();
    files.insert(String::from("other/KMPADict/kmorph_hash.bin"), vec![0u8; 4]);
    let e = load_bytes_inner(&files, "other/").expect_err("incomplete");
    assert_eq!(e.0, "KMPADict/kmorph_hash.dic: no key in the data map");
}

#[test]
fn load_reports_parse_failure() {
    let mut files = DataMap::new();
    files.insert(String::from("KLangDic/KMPADict/kmorph_hash.bin"), vec![0u8; 4]);
    files.insert(String::from("KLangDic/KMPADict/kmorph_hash.dic"), Vec::new());
    files.insert(String::from("KLangDic/KMPADict/kmorph.dic"), Vec::new());
    let e = KmaDicts::load_bytes(&files).expect_err("bad hash table");
    assert!(e.0.starts_with("kmorph: "), "{}", e.0);
}

#[test]
fn eng_dicts_missing_files_leave_all_out() {
    let files = DataMap::new();
    let e = load_eng_dicts(&files, "KLangDic/");
    assert!(!e.is_loaded());
    assert!(e.unienglishpron.is_none() && e.engsym.is_none() && e.english.is_none());
    assert_eq!(e.unienglishpron_lookup(b"a"), None);
    assert_eq!(e.engsym_code(b"a"), None);
}

#[test]
fn user_dic_load_bytes_rejects_garbage() {
    let e = UserDic::load_bytes(&[1, 2, 3]).expect_err("too short");
    assert!(e.0.starts_with("user.bin: "), "{}", e.0);
}

#[test]
fn code_pairs_later_key_wins() {
    let s = section(
        b"ab\0cd\0ab\0",
        b"",
        vec![
            rec(0, RecordValue::Code(7)),
            rec(3, RecordValue::Empty),
            rec(6, RecordValue::Code(9)),
            rec(3, RecordValue::Code(4)),
        ],
    );
    let m = code_list(&s);
    assert_eq!(
        m,
        vec![(u16s("ab"), 7), (u16s("ab"), 9), (u16s("cd"), 4)]
    );
    assert_eq!(find_code(&m, &u16s("ab")), Some(9));
    assert_eq!(find_code(&m, &u16s("cd")), Some(4));
    assert_eq!(find_code(&m, &u16s("x")), None);
}

#[test]
fn text_pairs_in_utf8() {
    let s = section(
        b"k\0j\0",
        "가\0b\0".as_bytes(),
        vec![
            rec(0, RecordValue::PoolRef(0)),
            rec(2, RecordValue::Code(1)),
            rec(2, RecordValue::PoolRef(4)),
        ],
    );
    let m = text_list(&s);
    assert_eq!(
        m,
        vec![(u16s("k"), "가".as_bytes().to_vec()), (u16s("j"), b"b".to_vec())]
    );
    assert_eq!(find_text(&m, &u16s("k")), Some("가".as_bytes().to_vec()));
    assert_eq!(find_text(&m, &u16s("z")), None);
}

#[test]
fn record_keys_as_units() {
    let s = section(b"ab\0", b"", vec![rec(0, RecordValue::Empty), rec(9, RecordValue::Empty)]);
    assert_eq!(key_u16(&s, 0), vec![0x61, 0x62]);
    assert_eq!(key_u16(&s, 1), Vec::<u16>::new());
    assert_eq!(key_u16(&s, 5), Vec::<u16>::new());
    let mut w = section(&[0x41, 0xAC, 0x42, 0, 0, 0], b"", vec![rec(0, RecordValue::Empty)]);
    w.key_unit = PoolUnit::U16;
    assert_eq!(key_u16(&w, 0), vec![0xAC41, 0x0042]);
}

#[test]
fn english_sections_lookup_last_key() {
    let pron = section(
        b"a\0b\0a\0",
        b"ei\0bi\0ai\0",
        vec![
            rec(0, RecordValue::PoolRef(0)),
            rec(2, RecordValue::PoolRef(3)),
            rec(4, RecordValue::PoolRef(6)),
        ],
    );
    let sym = section(
        b"AA\0B\0",
        b"",
        vec![rec(0, RecordValue::Code(11)), rec(3, RecordValue::Code(12))],
    );
    let e = EngDicts::from_parts(Some(pron), Some(sym), None);
    assert!(!e.is_loaded());
    assert_eq!(e.unienglishpron_lookup(b"a"), Some(String::from("ai")));
    assert_eq!(e.unienglishpron_lookup(b"b"), Some(String::from("bi")));
    assert_eq!(e.unienglishpron_lookup(b"c"), None);
    assert_eq!(e.engsym_code(b"AA"), Some(11));
    assert_eq!(e.engsym_code(b"B"), Some(12));
    assert_eq!(e.engsym_code(b"A"), None);
    assert_eq!(e.english_lookup(b"a"), None);
    let empty = EngDicts::empty();
    assert_eq!(empty.engsym_code(b"AA"), None);
}

#[test]
fn key_item_pos_is_its_tag() {
    let it = SKeyItem {
        ch_pos: b'D',
        ch_irr_pred: b'0',
        n_freq: 3,
        un_ui_link: 0,
    };
    assert_eq!(key_item_ch_pos(&it), b'D');
}

fn morph(bi: u8) -> RuleMorph {
    RuleMorph {
        ch_root_pos_tag: 0,
        b_root_not_flag: 0,
        ch_end_pos_tag: 0,
        b_end_not_flag: 0,
        sw_string: [0; 32],
        b_string_not_flag: 0,
        b_attrib_exist: 0,
        w_first_attrib_idx: 0,
        b_first_not_flag: 0,
        ch_first_cmp_str_idx: 0,
        w_second_attrib_idx: 0,
        b_second_not_flag: 0,
        ch_second_cmp_str_idx: 0,
        b_str_pos: 0,
        b_start_flag: 0,
        b_str_len: 0,
        b_over_flag: 0,
        b_bi_idx: bi,
        b_pos_not_flag: 0,
        ch_pos_array: [0; 12],
    }
}

#[test]
fn bi_idx_counts_over_all_rules() {
    let f = BIRuleFile {
        w_rule_num: 2,
        w_attrib_num: 0,
        w_last: 0,
        w_begin: 0,
        attributes: Vec::new(),
        rules: vec![
            RuleRecord {
                morphs: vec![morph(0), morph(3), morph(0)],
            },
            RuleRecord { morphs: Vec::new() },
            RuleRecord {
                morphs: vec![morph(6), morph(0)],
            },
        ],
    };
    let h = f.bi_idx_histogram();
    let expected: std::collections::BTreeMap<u8, usize> =
        [(0, 3), (3, 1), (6, 1)].into_iter().collect();
    assert_eq!(h, expected);
}

#[test]
fn encode_depends_on_contents_only() {
    let mut a = DataMap::new();
    a.insert(String::from("b/x.bin"), vec![1, 2]);
    a.insert(String::from("a.bin"), vec![3]);
    let mut b = DataMap::new();
    b.insert(String::from("a.bin"), vec![3]);
    b.insert(String::from("b/x.bin"), vec![9]);
    b.insert(String::from("b/x.bin"), vec![1, 2]);
    assert_eq!(ktts::blob::encode(&a), ktts::blob::encode(&b));
}

#[test]
fn read_after_write() {
    let mut m = DataMap::new();
    m.insert(String::from("k"), vec![1]);
    m.insert(String::from("j"), vec![2]);
    m.insert(String::from("k"), vec![3]);
    assert_eq!(m.get("k"), Some(&vec![3]));
    assert_eq!(m.get("j"), Some(&vec![2]));
    assert_eq!(m.get("z"), None);
}

#[test]
fn engsym_one_record_reads_its_key() {
    let mut data: Vec<u8> = vec![
        1, 0, 0, 0, 1, 0, 0, 0, 2, 0, 0, 0, 0x61, 0, 0, 0, 0, 0, 5, 0xCD, 0xCD, 0xCD, 0xFF, 0xFF, 0xFF, 0xFF, 0, 0,
        0, 0, 0xFF, 0xFF, 0xFF, 0xFF, 0xFF, 0xFF, 0xFF, 0xFF,
    ];
    let d = ktts::pronsec::parse_engsym(&data).unwrap();
    assert_eq!(d.num_records(), 1);
    assert_eq!(d.num_tree_nodes(), 1);
    assert_eq!(d.root_index(), 0);
    assert_eq!(d.key_string(0), Some("a".to_string()));
    assert_eq!(d.code(0), Some(5));
    assert_eq!(d.value_string(0), None);
    data[19] = 0;
    assert!(ktts::pronsec::parse_engsym(&data).is_err());
}

#[test]
fn kmorph_hash_record_without_keys_is_an_error() {
    let hash_bin = vec![0u8; ktts::kmorph::KMORPH_HASH_BUCKETS * 4];
    let hash_dic: Vec<u8> = vec![0, 0];
    assert!(ktts::kmorph::parse(&hash_bin, &hash_dic, &[]).is_err());
    let empty: Vec<u8> = Vec::new();
    let d = ktts::kmorph::parse(&hash_bin, &empty, &[]).unwrap();
    assert_eq!(d.hash.records.len(), 0);
    assert!(d.dic.records.is_empty());
}
