use ktts::charstr::{
    divide_str_to_char, get_char_type_str, get_uni_char_attribute, merge_char_to_sub_str,
    set_tag_from_attribute, unit_str_merge_process, CharDicts, StrInfo,
};
use ktts::hanja::Hanja2Korea;
use ktts::link::{
    bsearch_str, check_neighbour_morpheme, get_link_morph_idx, LinkCtx, CHEON_NO_LINKABLE_BYTES,
    CHEON_NO_LINKABLE_ENDS, YONGYON_NO_LINKABLE_BYTES, YONGYON_NO_LINKABLE_ENDS,
};
use ktts::posngram::parse_bi;
use ktts::morph::{
    contains_subslice, is_closed_syllable_k_root, is_combinable_cheon_to,
    is_combinable_yongon_to, is_yongon_type, standardize_to, MorphCand,
};
use ktts::preproc::{
    conv_uni_wan_to_cvc_special_pre, is_16_only_digit, is_remove_symbol, set_word_cvc_table,
};
use ktts::pronsec::{PoolUnit, Record, RecordValue, SectionDict, TreeNode};
use ktts::sentence::{sentence_mode, text_process};
use ktts::userdic::UserDic;
use ktts::yongon::{except_yong_yon, get_hong_yong_sa_num, get_verb_num, get_yong_yon_num};

fn u16s(s: &str) -> Vec<u16> {
    s.encode_utf16().collect()
}

#[test]
fn tags() {
    assert_eq!(set_tag_from_attribute(0x01), b'S');
    assert_eq!(set_tag_from_attribute(0x02), b'I');
    assert_eq!(set_tag_from_attribute(0x03), b'J');
    assert_eq!(set_tag_from_attribute(0x05), b'k');
    assert_eq!(set_tag_from_attribute(0x06), b'N');
    assert_eq!(set_tag_from_attribute(0x08), b'L');
    assert_eq!(set_tag_from_attribute(0x0c), b'6');
    assert_eq!(set_tag_from_attribute(0x0d), b'R');
    assert_eq!(set_tag_from_attribute(0x04), b'R');
}

#[test]
fn char_types() {
    let mut w = 0xac00u16;
    assert_eq!(get_uni_char_attribute(&mut w, None), 0);
    let mut w = u16::from(b'1');
    assert_eq!(get_uni_char_attribute(&mut w, None), 2);
    let mut w = u16::from(b'A');
    assert_eq!(get_uni_char_attribute(&mut w, None), 3);
    let mut w = u16::from(b' ');
    assert_eq!(get_uni_char_attribute(&mut w, None), 5);
    let mut w = u16::from(b'.');
    assert_eq!(get_uni_char_attribute(&mut w, None), 8);
    let mut w = u16::from(b',');
    assert_eq!(get_uni_char_attribute(&mut w, None), 9);
}

#[test]
fn merge_korean() {
    let s: Vec<u16> = "안녕하세요".encode_utf16().collect();
    let infos = get_char_type_str(&s, true, None);
    assert_eq!(infos.len(), 1);
    assert_eq!(infos[0].f_char_type, 0);
    assert_eq!(infos[0].pw_str, s);
}

fn dicts() -> CharDicts {
    let mut table: Vec<u16> = (0u32..65536).map(|c| c as u16).collect();
    table[0x4e01] = 0xac00;
    CharDicts {
        unipron: vec![vec![0x31, 0x4e00]],
        strpron: vec![u16s("1km"), u16s("115km")],
        hanja: Hanja2Korea { table },
    }
}

#[test]
fn dictionary_classes_and_symbols() {
    let d = dicts();
    let mut w = 0x4e00u16;
    assert_eq!(get_uni_char_attribute(&mut w, Some(&d)), 0x0c);
    assert_eq!(w, 0x4e00);
    let mut w = 0x4e01u16;
    assert_eq!(get_uni_char_attribute(&mut w, Some(&d)), 0);
    assert_eq!(w, 0xac00);
    let mut w = 0x4e02u16;
    assert_eq!(get_uni_char_attribute(&mut w, Some(&d)), 0x0a);
    let mut w = 0x4e01u16;
    assert_eq!(get_uni_char_attribute(&mut w, None), 0x0a);
    assert_eq!(w, 0x4e01);
    let mut w = 0x3008u16;
    assert_eq!(get_uni_char_attribute(&mut w, None), 6);
    assert_eq!(w, 0x3c);
    let mut w = 0x201du16;
    assert_eq!(get_uni_char_attribute(&mut w, None), 7);
    assert_eq!(w, 0x22);
    let mut w = 0x3131u16;
    assert_eq!(get_uni_char_attribute(&mut w, None), 1);
    let mut w = 10u16;
    assert_eq!(get_uni_char_attribute(&mut w, None), 4);
    let chars = divide_str_to_char(&[0x4e01, 0x41], Some(&d));
    assert_eq!(chars[0].w_char, 0xac00);
    assert_eq!(chars[1].f_char_type, 3);
}

#[test]
fn runs_are_capped_at_twenty() {
    let s: Vec<u16> = std::iter::repeat_n(u16::from(b'7'), 25).collect();
    let chars = divide_str_to_char(&s, None);
    let infos = merge_char_to_sub_str(&chars);
    assert_eq!(infos.len(), 2);
    assert_eq!(infos[0].n_str_len, 20);
    assert_eq!(infos[1].n_str_len, 5);
    let mixed = get_char_type_str(&u16s("ab(12"), false, None);
    let types: Vec<u8> = mixed.iter().map(|x| x.f_char_type).collect();
    assert_eq!(types, vec![3, 6, 2]);
}

#[test]
fn unit_strings_merge_into_one_run() {
    let d = dicts();
    let infos = get_char_type_str(&u16s("15km"), true, Some(&d));
    assert_eq!(infos.len(), 1);
    assert_eq!(infos[0].f_char_type, 0x0c);
    assert_eq!(infos[0].pw_str, u16s("15km"));
    assert_eq!(infos[0].n_str_len, 4);
    let infos = get_char_type_str(&u16s("km x"), true, Some(&d));
    assert_eq!(infos.len(), 3);
    assert_eq!(infos[0].f_char_type, 0x0c);
    assert_eq!(infos[2].f_char_type, 3);
    let mut v: Vec<StrInfo> = get_char_type_str(&u16s("15km"), false, Some(&d));
    assert_eq!(v.len(), 2);
    unit_str_merge_process(&mut v, None);
    assert_eq!(v.len(), 2);
}

#[test]
fn user_dic_empty() {
    let u = UserDic::empty();
    assert!(u.is_empty());
    assert!(u
        .phrase_lookup(&"D.P.R.K".encode_utf16().collect::<Vec<u16>>())
        .is_none());
}

fn small_user_section() -> SectionDict {
    SectionDict {
        header: vec![2, 3, 4, 6],
        key_pool: vec![0x41, 0, 0x42, 0, 0, 0, 0x43, 0, 0, 0],
        value_pool: vec![0x78, 0, 0, 0, 0x79, 0, 0, 0],
        key_unit: PoolUnit::U16,
        value_unit: PoolUnit::U16,
        records: vec![
            Record {
                key_ref: 0,
                value: RecordValue::Empty,
                next: -1,
            },
            Record {
                key_ref: 14,
                value: RecordValue::PoolRef(1),
                next: 0,
            },
        ],
        tree: vec![
            TreeNode {
                value: 0,
                left: 0,
                right: 0,
            },
            TreeNode {
                value: 3,
                left: 2,
                right: 0,
            },
            TreeNode {
                value: 1,
                left: -1,
                right: -1,
            },
        ],
        tree_before_records: true,
    }
}

#[test]
fn user_dic_phrase_prefix_lookup() {
    let u = UserDic::from_section(&small_user_section()).expect("section");
    assert_eq!(u.len(), 2);
    assert_eq!(u.entry(0), (&u16s("AB")[..], &u16s("x")[..]));
    assert_eq!(u.entry(1), (&u16s("C")[..], &u16s("y")[..]));
    assert_eq!(u.phrase_lookup(&u16s("ABD")), Some(0));
    assert_eq!(u.phrase_lookup(&u16s("AB")), Some(0));
    assert_eq!(u.phrase_lookup(&u16s("AX")), None);
    assert_eq!(u.phrase_lookup(&u16s("CX")), Some(1));
    assert_eq!(u.phrase_lookup(&[]), None);
}

#[test]
fn user_dic_rejects_bad_sections() {
    let mut sd = small_user_section();
    sd.tree[1].left = 9;
    assert!(UserDic::from_section(&sd).is_err());
    let mut sd = small_user_section();
    sd.tree.truncate(1);
    assert!(UserDic::from_section(&sd).is_err());
    let mut sd = small_user_section();
    sd.tree[0].left = -1;
    assert!(UserDic::from_section(&sd).is_err());
}

#[test]
fn remove_symbol_constants() {
    assert!(is_remove_symbol(&"**".encode_utf16().collect::<Vec<_>>()));
    assert!(is_remove_symbol(&"//x".encode_utf16().collect::<Vec<_>>()));
    assert!(is_remove_symbol(&"/*".encode_utf16().collect::<Vec<_>>()));
    assert!(is_remove_symbol(&"*/".encode_utf16().collect::<Vec<_>>()));
    assert!(is_remove_symbol(&"-".encode_utf16().collect::<Vec<_>>()));
    assert!(is_remove_symbol(&":".encode_utf16().collect::<Vec<_>>()));
    assert!(!is_remove_symbol(&"-x".encode_utf16().collect::<Vec<_>>()));
    assert!(!is_remove_symbol(&"--".encode_utf16().collect::<Vec<_>>()));
    assert!(!is_remove_symbol(&"abc".encode_utf16().collect::<Vec<_>>()));
    assert!(!is_remove_symbol(&"*".encode_utf16().collect::<Vec<_>>()));
}

#[test]
fn word_cvc_table_positions() {
    let t = set_word_cvc_table(&"안녕".encode_utf16().collect::<Vec<u16>>());
    assert_eq!(t, vec![0, 6, 12, 18, 30, 36, 0, 0]);
}

#[test]
fn special_cvc_and_hex_letters() {
    assert_eq!(conv_uni_wan_to_cvc_special_pre(0x3131), [1, 1, 2]);
    assert_eq!(conv_uni_wan_to_cvc_special_pre(0xac00), [2, 3, 1]);
    assert_eq!(conv_uni_wan_to_cvc_special_pre(0x41), [0, 0, 0]);
    assert_eq!(set_word_cvc_table(&[]), vec![0, 0]);
    assert!(is_16_only_digit(&u16s("aF")));
    assert!(!is_16_only_digit(&u16s("ag")));
    assert!(!is_16_only_digit(&[]));
}

#[test]
fn sentence_classes() {
    let mut w = 0x3002u16;
    assert_eq!(sentence_mode(&mut w), 1);
    assert_eq!(w, 0x2e);
    let mut w = 0x0au16;
    assert_eq!(sentence_mode(&mut w), 4);
    let mut w = 0xf114u16;
    assert_eq!(sentence_mode(&mut w), 0);
    assert_eq!(w, 0xc77c);
    let mut w = 0x2026u16;
    assert_eq!(sentence_mode(&mut w), 3);
    assert_eq!(w, 0x2e);
    let mut w = 0xac00u16;
    assert_eq!(sentence_mode(&mut w), 0);
    assert_eq!(w, 0xac00);
}

#[test]
fn first_sentence_is_cut_after_its_end() {
    let mut b = u16s("가. 나");
    assert_eq!(text_process(&mut b, false), 2);
    assert_eq!(b, u16s("가."));
    let mut b = u16s("1.5 kg");
    assert_eq!(text_process(&mut b, false), 6);
    assert_eq!(b, u16s("1.5 kg"));
    let mut b = u16s("가\n나");
    assert_eq!(text_process(&mut b, true), 2);
    assert_eq!(b, u16s("가"));
    let mut b = u16s("가\n나");
    assert_eq!(text_process(&mut b, false), 3);
    assert_eq!(b, u16s("가나"));
    let mut b = vec![0xff21u16, 0xff01];
    assert_eq!(text_process(&mut b, false), 2);
    assert_eq!(b, vec![0x41, 0x21]);
}

#[test]
fn conjugation_classes() {
    let mut a = [0u8; 2];
    let mut n = 0i32;
    assert!(get_yong_yon_num(&[0xac00, 0xb2e4], &mut a, &mut n));
    assert_eq!((a, n), ([0x09, 0x24], 2));
    let mut a = [0u8; 2];
    let mut n = 0i32;
    assert!(get_yong_yon_num(&[0xd558, 0xb2e4], &mut a, &mut n));
    assert_eq!((a, n), ([0x14, 0x32], 2));
    let mut a = [0u8; 2];
    let mut n = 0i32;
    assert!(get_yong_yon_num(&[0xc788, 0xb2e4], &mut a, &mut n));
    assert_eq!((a, n), ([0x1f, 0], 1));
    let mut a = [0u8; 2];
    let mut n = 0i32;
    assert!(except_yong_yon(&[0xc54a, 0xb2e4], &mut a, &mut n));
    assert_eq!((a, n), ([0x0d, 0x2c], 2));
    let mut a = [0u8; 2];
    let mut n = 0i32;
    assert!(get_verb_num(&[0xba39, 0xb2e4], &mut a, &mut n));
    assert_eq!((a, n), ([0x0c, 0], 1));
    assert!(get_hong_yong_sa_num(&[0xba39, 0xb2e4], &mut a, &mut n));
    assert_eq!((a, n), ([0x0c, 0x2b], 2));
    let mut a = [0u8; 2];
    let mut n = 0i32;
    assert!(!get_yong_yon_num(&[0xb2e4], &mut a, &mut n));
    assert_eq!((a, n), ([0, 0], 0));
}

fn cand(pumsa: u8, info: u32, s: &[u8]) -> MorphCand {
    let mut c = MorphCand::new();
    c.ch_pumsa = pumsa;
    c.un_to_info = info;
    c.sch_morph_str = s.to_vec();
    c
}

#[test]
fn particles_after_nouns() {
    assert!(is_closed_syllable_k_root(b"baN"));
    assert!(!is_closed_syllable_k_root(b"ba"));
    assert!(is_combinable_cheon_to(b"ba", false, &cand(b'T', 0, b"i")));
    assert!(is_combinable_cheon_to(b"baN", false, &cand(b'T', 0x800, b"i")));
    assert!(!is_combinable_cheon_to(b"ba", false, &cand(b'T', 0x800, b"i")));
    assert!(is_combinable_cheon_to(b"saL", false, &cand(b'Y', 0x400, b"lo")));
    assert!(!is_combinable_cheon_to(b"saL", false, &cand(b'T', 0x400, b"lo")));
    assert!(!is_combinable_cheon_to(b"baN", false, &cand(b'^', 0x20, b"da")));
    assert!(is_combinable_cheon_to(b"baN", false, &cand(b'^', 0x20, b"a")));
    assert!(is_combinable_cheon_to(b"x", true, &cand(b'^', 0, b"")));
    assert!(contains_subslice(b"abcd", b"bc"));
    assert!(!contains_subslice(b"abcd", b"cb"));
    assert!(contains_subslice(b"", b""));
    assert!(is_yongon_type(b'b', b'd'));
    assert!(is_yongon_type(b'C', b'd'));
    assert!(!is_yongon_type(b'C', b'e'));
    assert!(is_yongon_type(b'^', b'e'));
    assert!(!is_yongon_type(b'a', b'p'));
}

#[test]
fn endings_after_predicates() {
    assert!(is_combinable_yongon_to(b"x", b'^', true, &cand(b'^', 0, b"a"), b""));
    assert!(!is_combinable_yongon_to(b"eBS", b'^', false, &cand(b'^', 0, b"a"), b""));
    assert!(!is_combinable_yongon_to(b"ga", b'C', false, &cand(b'^', 0, b"a"), b""));
    assert!(is_combinable_yongon_to(b"ga", b'^', false, &cand(b'^', 1, b"a"), b""));
    assert!(is_combinable_yongon_to(b"ga", b'^', false, &cand(b'^', 4, b"a"), b""));
    assert!(!is_combinable_yongon_to(b"ga", b'^', false, &cand(b'^', 4, b"eyo"), b""));
}

#[test]
fn particle_spellings_are_standardized() {
    let mut to = b"_L".to_vec();
    let mut tag = b'^';
    assert!(standardize_to(&mut to, &mut tag));
    assert_eq!(to, b"L");
    let mut to = b"eyo".to_vec();
    let mut tag = b'g';
    assert!(standardize_to(&mut to, &mut tag));
    assert_eq!(to, b"ayo");
    let mut to = b"wa".to_vec();
    let mut tag = b'T';
    assert!(standardize_to(&mut to, &mut tag));
    assert_eq!(to, b"gwa");
    let mut to = b"i".to_vec();
    assert!(standardize_to(&mut to, &mut tag));
    assert_eq!(to, b"ga");
    let mut to = b"xyz".to_vec();
    let mut tag = b'A';
    assert!(standardize_to(&mut to, &mut tag));
    assert_eq!(to, b"xyz");
    let mut to = b"lo".to_vec();
    let mut tag = b'T';
    assert!(!standardize_to(&mut to, &mut tag));
    assert_eq!(to, b"lo");
}

#[test]
fn no_link_tables_are_binary_searched() {
    assert!(bsearch_str(b"beB", &CHEON_NO_LINKABLE_BYTES, &CHEON_NO_LINKABLE_ENDS));
    assert!(!bsearch_str(b"su", &CHEON_NO_LINKABLE_BYTES, &CHEON_NO_LINKABLE_ENDS));
    assert!(!bsearch_str(b"ga", &CHEON_NO_LINKABLE_BYTES, &CHEON_NO_LINKABLE_ENDS));
    assert!(bsearch_str(b"ha", &YONGYON_NO_LINKABLE_BYTES, &YONGYON_NO_LINKABLE_ENDS));
    assert!(bsearch_str(b"zali", &YONGYON_NO_LINKABLE_BYTES, &YONGYON_NO_LINKABLE_ENDS));
    assert!(!bsearch_str(b"al8", &YONGYON_NO_LINKABLE_BYTES, &YONGYON_NO_LINKABLE_ENDS));
    assert!(!check_neighbour_morpheme(b'0', b'7', b"beB"));
    assert!(check_neighbour_morpheme(b'0', b'7', b"su"));
    assert!(!check_neighbour_morpheme(b'_', b'7', b"ha"));
    assert!(check_neighbour_morpheme(b'_', b'7', b"xx"));
    assert!(check_neighbour_morpheme(b'c', b'T', b"n_Nx"));
    assert!(!check_neighbour_morpheme(b'c', b'T', b"n_N"));
}

fn bigram_bytes(pairs: &[(u8, u8)]) -> Vec<u8> {
    let mut b = (pairs.len() as u32).to_le_bytes().to_vec();
    for &(x, y) in pairs {
        b.push(x);
        b.push(y);
        b.extend_from_slice(&1.0f64.to_bits().to_le_bytes());
    }
    b
}

fn lcand(start: i16, root: i16, pumsa: u8, info: u32, s: &[u8], links: &[i16]) -> MorphCand {
    let mut c = MorphCand::new();
    c.w_start_pos = start;
    c.w_root_pos = root;
    c.ch_pumsa = pumsa;
    c.un_to_info = info;
    c.sch_morph_str = s.to_vec();
    c.sw_link_morph_idx = links.to_vec();
    c
}

#[test]
fn bigram_table_parses_and_rejects() {
    let b = parse_bi(&bigram_bytes(&[(0, 36), (18, 61)])).expect("bigram");
    assert_eq!(b.pairs().len(), 2);
    assert_eq!(b.get_bits(0, 36), 1.0f64.to_bits());
    assert!(b.is_zero(0, 37));
    assert!(!b.is_zero(18, 61));
    assert!(b.is_zero(70, 1));
    let mut bad = bigram_bytes(&[(0, 36)]);
    bad.push(0);
    assert!(parse_bi(&bad).is_err());
    assert!(parse_bi(&bad[..5]).is_err());
    assert!(parse_bi(&[]).is_err());
}

#[test]
fn new_candidate_links_to_particles() {
    let bi = parse_bi(&bigram_bytes(&[(0, 36), (18, 61)])).expect("bigram");
    let mut cands = vec![
        lcand(5, 2, b'T', 0, b"i", &[-1]),
        lcand(5, 4, b'U', 0, b"i", &[-1]),
        lcand(3, 4, b'T', 0, b"i", &[-1]),
        lcand(5, -1, b'T', 0, b"i", &[-1]),
        lcand(5, 7, b'T', 0, b"i", &[-1]),
    ];
    let x = LinkCtx {
        gsch: b"baN",
        gn: 2,
        pyogi: b"baNi",
        end: 5,
        tag: b'0',
        b_new: false,
        bi: &bi,
    };
    let mut root = 0i16;
    let mut links = Vec::new();
    get_link_morph_idx(&mut cands, &x, 4, &mut root, &mut links);
    assert_eq!(links, vec![4, 0, -1]);
    assert_eq!(root, 7);
    let mut root = 0i16;
    get_link_morph_idx(&mut cands, &x, -1, &mut root, &mut links);
    assert_eq!(links, vec![-1]);
    assert_eq!(root, -1);
}

#[test]
fn voiced_predicate_filters_links_of_m_candidates() {
    let bi = parse_bi(&bigram_bytes(&[(0, 36), (18, 61)])).expect("bigram");
    let mut cands = vec![
        lcand(9, 0, b'T', 0, b"a", &[-1]),
        lcand(9, 0, b'^', 0x140, b"a", &[-1]),
        lcand(9, 0, b'T', 0, b"a", &[-1]),
        lcand(5, 1, b'm', 0, b"s", &[1, 2, -1, 0]),
    ];
    let x = LinkCtx {
        gsch: b"baN",
        gn: 2,
        pyogi: b"baNs",
        end: 5,
        tag: b'B',
        b_new: false,
        bi: &bi,
    };
    let mut root = 0i16;
    let mut links = Vec::new();
    get_link_morph_idx(&mut cands, &x, 3, &mut root, &mut links);
    assert_eq!(links, vec![3, -1]);
    assert_eq!(root, 1);
    assert_eq!(cands[3].sw_link_morph_idx, vec![1, -1]);
    assert_eq!(cands[0].sw_link_morph_idx, vec![-1]);
}
