use ktts::blob::{decode, encode, DataMap};
use ktts::english::{
    get_hash_value as eng_hash, parse_hash_bin as eng_parse_hash_bin,
    parse_hash_dic as eng_parse_hash_dic, parse_pron_table,
};
use ktts::hanja;
use ktts::kmorph::get_hash_value as kmorph_hash;
use ktts::posngram::get_kchar_count;
use ktts::pronrule;
use ktts::tosplit::{parse_to_split, ToSplitEntry};
use ktts::wdic;

fn build_map(entries: &[(&str, &[u8])]) -> DataMap {
    let mut m = DataMap::new();
    for (k, v) in entries {
        m.insert((*k).to_string(), v.to_vec());
    }
    m
}

#[test]
fn roundtrip() {
    let files = build_map(&[
        ("InfoDic.wdic", b"KOREAPCM=0"),
        ("KLangDic/user.bin", b"\x01\x02\x03"),
        ("KSpeechDic/woman/synth.pcm", &[0u8; 4]),
    ]);
    let decoded = decode(&encode(&files)).expect("decode");
    assert_eq!(decoded, files);
}

#[test]
fn encode_sorts_keys() {
    let files = build_map(&[("b", b"2"), ("a", b"1")]);
    let blob = encode(&files);
    assert_eq!(&blob[8..9], b"a", "first entry must be the smallest key");
}

#[test]
fn empty_map_roundtrips() {
    let files = DataMap::new();
    let blob = encode(&files);
    assert_eq!(blob, 0u32.to_le_bytes());
    assert!(decode(&blob).expect("decode").is_empty());
}

#[test]
fn truncated_blob_is_error() {
    let blob = encode(&build_map(&[("a", b"12345")]));
    assert!(decode(&blob[..blob.len() - 3]).is_err());
    assert!(decode(b"").is_err());
}

#[test]
fn invalid_utf8_key_is_error() {
    let mut blob = encode(&build_map(&[("ok", b"data")]));
    blob[8] = 0xff;
    assert!(decode(&blob).is_err());
}

#[test]
fn datamap_insert_replaces_and_get_finds() {
    let mut m = build_map(&[("k", b"1"), ("a", b"2")]);
    assert_eq!(m.len(), 2);
    m.insert("k".to_string(), b"3".to_vec());
    assert_eq!(m.len(), 2);
    assert_eq!(m.get("k").map(|v| v.as_slice()), Some(&b"3"[..]));
    assert_eq!(m.get("a").map(|v| v.as_slice()), Some(&b"2"[..]));
    assert_eq!(m.get("z"), None);
    let blob = encode(&m);
    assert_eq!(blob.len(), 4 + 2 * (4 + 1 + 8 + 1));
    assert_eq!(&blob[8..9], b"a");
}

#[test]
fn later_duplicate_entry_wins_on_decode() {
    let mut blob = 2u32.to_le_bytes().to_vec();
    for v in [b'x', b'y'] {
        blob.extend_from_slice(&1u32.to_le_bytes());
        blob.push(b'k');
        blob.extend_from_slice(&1u64.to_le_bytes());
        blob.push(v);
    }
    let m = decode(&blob).expect("decode");
    assert_eq!(m.len(), 1);
    assert_eq!(m.get("k").map(|v| v.as_slice()), Some(&b"y"[..]));
}

#[test]
fn hash_function_values() {
    assert_eq!(eng_hash(b"degarmo"), 0);
    assert_eq!(eng_hash(b"superman"), 4);
    assert_eq!(eng_hash(b"absorbing"), 4);
    assert_eq!(eng_hash(b"winners"), 5);
    assert_eq!(eng_hash(b"zees"), eng_hash(b"zees"));
    assert_eq!(eng_hash(b""), 0);
}

#[test]
fn english_malformed_rejected() {
    let mut bad = vec![5u8, b'a', b'b'];
    bad.extend(std::iter::repeat_n(b'c', 10));
    bad.push(200);
    assert!(parse_pron_table(&bad).is_err());
    assert!(eng_parse_hash_dic(&[8, 59, 0, 1, 2, 3]).is_err());
    assert!(eng_parse_hash_bin(&[1, 2, 3]).is_err());
    assert!(eng_parse_hash_dic(&[2, 4, 5, 0, b'a', 0, b'b', 0, 0, 0, 0, 0, 0, 0, 0]).is_err());
}

#[test]
fn hanja_malformed_rejected() {
    assert!(hanja::parse(&[]).is_err());
    assert!(hanja::parse(&vec![0u8; 131_071]).is_err());
    assert!(hanja::parse(&vec![0u8; 131_073]).is_err());
}

#[test]
fn hanja_identity_table_maps_to_itself() {
    let mut data = Vec::with_capacity(131_072);
    for cp in 0u32..65536 {
        let v = if cp == 0x4E00 { 0xAC00u16 } else { cp as u16 };
        data.extend_from_slice(&v.to_le_bytes());
    }
    let h = hanja::parse(&data).expect("parse");
    assert_eq!(h.get(0x4E00), 0xAC00);
    assert_eq!(h.get(0x4E01), 0x4E01);
    assert!(h.is_korea_hanja(0x4E00));
    assert!(!h.is_korea_hanja(0x4E01));
    assert_eq!(h.non_identity_cjk_count(), 1);
}

#[test]
fn hash_value_formula() {
    assert_eq!(kmorph_hash(b"baNjeL"), 0);
    assert_eq!(kmorph_hash(b"useNju"), 1);
    assert_eq!(kmorph_hash(b"g8yodo"), 0);
    assert_eq!(kmorph_hash(b"daLnai"), 0);
    assert_eq!(kmorph_hash(b"jagisu"), 1);
    assert_eq!(kmorph_hash(b"d_LmeGd_LmeG"), 1);
    assert_eq!(kmorph_hash(b"hi*hi*"), 14432);
    assert_eq!(kmorph_hash(b""), 0);
}

#[test]
fn posngram_kchar_count() {
    assert_eq!(get_kchar_count(b"baNjeL"), 2);
    assert_eq!(get_kchar_count(b"useNju"), 3);
    assert_eq!(get_kchar_count(b"hye*gwa*c9"), 3);
    assert_eq!(get_kchar_count(b"daMvoGdaMvoG"), 4);
    assert_eq!(get_kchar_count(b""), 0);
    assert_eq!(get_kchar_count(b"kkkk"), 0);
}

#[test]
fn malformed_inputs_rejected() {
    assert!(pronrule::parse(&[]).is_err());
    assert!(pronrule::parse(&[0x2b, 0, 0, 0]).is_err());
    let mut bad = vec![43u8, 0, 0, 0];
    bad.extend(std::iter::repeat_n(0u8, 43 * 20 - 20));
    assert!(pronrule::parse(&bad).is_err());
    let mut bad2 = vec![1u8, 0, 0, 0];
    bad2.extend(std::iter::repeat_n(0x11u8, 20));
    assert!(pronrule::parse(&bad2).is_err());
}

#[test]
fn tosplit_synthetic() {
    let mut buf: Vec<u8> = Vec::new();
    buf.extend_from_slice(&2u32.to_le_bytes());
    buf.extend_from_slice(b"a\0");
    buf.extend(std::iter::repeat_n(0xCD, 13));
    buf.push(b'X');
    buf.extend_from_slice(b"b\0");
    buf.extend(std::iter::repeat_n(0xCD, 13));
    buf.push(b'^');
    buf.extend_from_slice(&1u32.to_le_bytes());
    buf.extend_from_slice(b"cd\0");
    buf.extend(std::iter::repeat_n(0xCD, 12));
    buf.push(b'Z');
    for _ in 2..12 {
        buf.extend_from_slice(&0u32.to_le_bytes());
    }
    let d = parse_to_split(&buf).unwrap();
    assert_eq!(d.sections.len(), 12);
    assert_eq!(d.section(2).len(), 0);
    assert_eq!(d.total_entries(), 3);
    assert_eq!(
        d.section(0)[0],
        ToSplitEntry {
            name: "a".into(),
            pos: b'X'
        }
    );
    assert_eq!(
        d.section(0)[1],
        ToSplitEntry {
            name: "b".into(),
            pos: b'^'
        }
    );
    assert_eq!(
        d.section(1)[0],
        ToSplitEntry {
            name: "cd".into(),
            pos: b'Z'
        }
    );
}

#[test]
fn tosplit_bad_name_len() {
    let mut buf: Vec<u8> = Vec::new();
    buf.extend_from_slice(&1u32.to_le_bytes());
    buf.extend_from_slice(b"xy\0");
    buf.extend(std::iter::repeat_n(0xCD, 12));
    buf.push(b'^');
    assert!(parse_to_split(&buf).is_err());
}

#[test]
fn tosplit_missing_nul() {
    let mut buf: Vec<u8> = Vec::new();
    buf.extend_from_slice(&1u32.to_le_bytes());
    buf.extend(std::iter::repeat_n(b'z', 16));
    assert!(parse_to_split(&buf).is_err());
}

#[test]
fn infodic_synthetic() {
    let data = b"[A]=[1]\r\n\r\n  [B]=[2]  \n[C]=[3]\n";
    let w = wdic::parse(data).unwrap();
    assert_eq!(w.len(), 3);
    assert_eq!(w.get_str("A").as_deref(), Some("1"));
    assert_eq!(w.get_str("B").as_deref(), Some("2"));
    assert_eq!(w.get_str("C").as_deref(), Some("3"));
    assert!(wdic::parse(b"no-bracket-line\n").is_err());
}

fn tiny_tree(off1: u32) -> Vec<u8> {
    let mut b = Vec::new();
    for v in [2u32, 3, 6] {
        b.extend_from_slice(&v.to_le_bytes());
    }
    b.extend_from_slice(b"ab\0cd\0");
    for (k, v) in [(0u32, 0u32), (3, off1)] {
        b.extend_from_slice(&k.to_le_bytes());
        b.extend_from_slice(&v.to_le_bytes());
        b.extend_from_slice(&(-1i32).to_le_bytes());
    }
    for (v, l, r) in [(0u32, -1i32, -1i32), (1, -1, -1), (6, 0, 1)] {
        b.extend_from_slice(&v.to_le_bytes());
        b.extend_from_slice(&l.to_le_bytes());
        b.extend_from_slice(&r.to_le_bytes());
    }
    b
}

fn tiny_patterns() -> Vec<u8> {
    let mut d = vec![1u8];
    d.extend_from_slice(&0.5f32.to_bits().to_le_bytes());
    d.extend_from_slice(&[1, b'a', 0, 2, b'x', b'y', 1, 2, 3]);
    d.push(0);
    d
}

#[test]
fn word_trigram_parses_and_looks_up() {
    let bin = tiny_tree(14);
    let dic = tiny_patterns();
    let w = ktts::wordgram::parse(&bin, &dic).expect("word trigram");
    assert_eq!(w.dic_offsets, vec![0, 14]);
    assert_eq!(w.patterns[0].len(), 1);
    assert_eq!(w.patterns[0][0].prob, 0.5f32.to_bits());
    assert_eq!(w.patterns[0][0].pyogi[0], b"a".to_vec());
    assert!(w.patterns[0][0].pyogi[1].is_empty());
    assert_eq!(w.patterns[0][0].pyogi[2], b"xy".to_vec());
    assert_eq!(w.patterns[0][0].pos, [1, 2, 3]);
    assert!(w.patterns[1].is_empty());
    assert_eq!(w.lookup(b"ab"), Some(0));
    assert_eq!(w.lookup(b"cd"), Some(1));
    assert_eq!(w.lookup(b"ax"), None);
    assert!(ktts::wordgram::parse(&tiny_tree(99), &dic).is_err());
    assert!(ktts::wordgram::parse_patterns(&dic[..10], 0).is_err());
    assert!(ktts::wordgram::parse_patterns(&dic, 15).is_err());
}
