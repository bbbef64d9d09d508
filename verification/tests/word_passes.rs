use ktts::post::{MaMorph, MaWord};
use ktts::wordlist::{
    convert_anal, klp_state_with_words, process_del_sp_symbol, process_del_space_symbol,
    process_digit_merge, process_digit_seperate, process_last_cut, process_last_merge,
    process_ma_repeat, process_modify_ma_result_to, process_pyogi_to_wansong, set_trailing_symbol_cvc, KlpState,
};

fn w(source: &str, tag: u8, b_str_type: u8) -> MaWord {
    MaWord {
        source: source.encode_utf16().collect(),
        morphs: vec![MaMorph {
            ch_tag: tag,
            pyogi: source.as_bytes().to_vec(),
            cvc: Vec::new(),
            prob: 0,
            b_merged: false,
        }],
        b_str_type,
        ireguler: Vec::new(),
        b_sentence_end: false,
    }
}

fn srcs(k: &KlpState) -> Vec<String> {
    k.words
        .iter()
        .map(|x| String::from_utf16_lossy(&x.source))
        .collect()
}

fn btypes(k: &KlpState) -> Vec<u8> {
    k.words.iter().map(|x| x.b_str_type).collect()
}

fn first_tags(k: &KlpState) -> Vec<u8> {
    k.words.iter().map(|x| x.morphs[0].ch_tag).collect()
}

#[test]
fn digit_merge_3_words() {
    let mut k = klp_state_with_words(vec![w("010", b'I', 0), w("-", b'L', 0), w("1234", b'I', 0)]);
    process_digit_merge(&mut k);
    assert_eq!(srcs(&k), ["010-1234"]);
    assert_eq!(btypes(&k), [2]);
}

#[test]
fn digit_merge_exactly_three() {
    let mut k = klp_state_with_words(vec![w("95", b'I', 0), w("-", b'L', 0), w("1234", b'I', 0)]);
    process_digit_merge(&mut k);
    assert_eq!(srcs(&k), ["95-1234"]);
    assert_eq!(btypes(&k), [2]);
}

#[test]
fn digit_merge_over_99_chars() {
    let long = "1".repeat(99);
    let mut k = klp_state_with_words(vec![w("0", b'I', 0), w("-", b'L', 0), w(&long, b'I', 0)]);
    process_digit_merge(&mut k);
    assert_eq!(k.words.len(), 3);
}

#[test]
fn digit_merge_immi_no_merge() {
    let mut k = klp_state_with_words(vec![w("123", b'I', 0), w(",", b'M', 0), w("456", b'I', 0)]);
    process_digit_merge(&mut k);
    assert_eq!(k.words.len(), 3);
}

#[test]
fn digit_seperate_123456789() {
    let mut k = klp_state_with_words(vec![
        w("123", b'I', 0),
        w(",", b'M', 0),
        w("456", b'I', 0),
        w(",", b'M', 0),
        w("789", b'I', 0),
    ]);
    process_digit_seperate(&mut k);
    assert_eq!(srcs(&k), ["123456789"]);
    assert_eq!(btypes(&k), [0]);
    assert_eq!(k.words[0].morphs[0].pyogi, b"123456789");
}

#[test]
fn digit_seperate_1_234() {
    let mut k = klp_state_with_words(vec![w("1", b'I', 0), w(",", b'M', 0), w("234", b'I', 0)]);
    process_digit_seperate(&mut k);
    assert_eq!(srcs(&k), ["1234"]);
}

#[test]
fn digit_seperate_merged_pair_continues() {
    let mut k = klp_state_with_words(vec![
        w("1", b'I', 0),
        w(",", b'M', 0),
        w("1-2", b'I', 2),
        w(",", b'M', 0),
        w("345", b'I', 0),
    ]);
    process_digit_seperate(&mut k);
    assert_eq!(srcs(&k), ["11-2345"]);
}

#[test]
fn digit_seperate_no_merge_advances() {
    let mut k = klp_state_with_words(vec![
        w("123", b'I', 0),
        w(",", b'M', 0),
        w("456", b'I', 0),
        w(",", b'M', 0),
        w(",", b'M', 0),
    ]);
    process_digit_seperate(&mut k);
    assert_eq!(srcs(&k), ["123", ",", "456", ",", ","]);
}

#[test]
fn digit_seperate_skip_long() {
    let mut k = klp_state_with_words(vec![
        w("1", b'I', 0),
        w(",", b'M', 0),
        w("234-5678", b'I', 2),
    ]);
    process_digit_seperate(&mut k);
    assert_eq!(k.words.len(), 3);
}

#[test]
fn del_sp_kk_then_advance() {
    let mut k = klp_state_with_words(vec![w("a", b'k', 0), w("b", b'k', 0), w("c", b'M', 0)]);
    process_del_sp_symbol(&mut k);
    assert_eq!(k.words.len(), 2);
    assert_eq!(first_tags(&k), [b'k', b'M']);
}

#[test]
fn del_sp_km() {
    let mut k = klp_state_with_words(vec![w("a", b'k', 0), w("b", b'M', 0), w("c", b'x', 0)]);
    process_del_sp_symbol(&mut k);
    assert_eq!(first_tags(&k), [b'M', b'x']);
}

#[test]
fn del_sp_mk() {
    let mut k = klp_state_with_words(vec![w("a", b'M', 0), w("b", b'k', 0), w("c", b'M', 0)]);
    process_del_sp_symbol(&mut k);
    assert_eq!(first_tags(&k), [b'M', b'M']);
}

#[test]
fn del_sp_km_two() {
    let mut k = klp_state_with_words(vec![w("a", b'k', 0), w("b", b'M', 0)]);
    process_del_sp_symbol(&mut k);
    assert_eq!(first_tags(&k), [b'M']);
}

fn long_word(n: usize) -> MaWord {
    let source: String = "가".repeat(n);
    let pyogi: String = "ga".repeat(n);
    MaWord {
        source: source.encode_utf16().collect(),
        morphs: vec![MaMorph {
            ch_tag: b'0',
            pyogi: pyogi.as_bytes().to_vec(),
            cvc: Vec::new(),
            prob: 0,
            b_merged: false,
        }],
        b_str_type: 1,
        ireguler: Vec::new(),
        b_sentence_end: false,
    }
}

#[test]
fn last_cut_long_word_morph_split() {
    let mut k = klp_state_with_words(vec![long_word(21)]);
    process_last_cut(&mut k);
    assert_eq!(k.words.len(), 2);
    assert_eq!(String::from_utf16_lossy(&k.words[0].source), "가".repeat(20));
    assert_eq!(k.words[0].morphs.len(), 1);
    assert_eq!(
        String::from_utf8_lossy(&k.words[0].morphs[0].pyogi),
        "ga".repeat(20)
    );
    assert_eq!(k.words[0].b_str_type, 1);
    assert_eq!(String::from_utf16_lossy(&k.words[1].source), "가");
    assert_eq!(k.words[1].morphs.len(), 1);
    assert_eq!(k.words[1].morphs[0].pyogi, b"ga");
    assert_eq!(k.words[1].morphs[0].ch_tag, b'0');
    assert_eq!(k.words[1].b_str_type, 3);
    assert!(k.words[1].ireguler.is_empty(), "bIrrMorphCount = 0");
}

#[test]
fn last_cut_morph_count_11() {
    let morphs: Vec<MaMorph> = (0..11)
        .map(|_| MaMorph {
            ch_tag: b'0',
            pyogi: b"ga".to_vec(),
            cvc: Vec::new(),
            prob: 0,
            b_merged: false,
        })
        .collect();
    let mut k = klp_state_with_words(vec![MaWord {
        source: "가".repeat(11).encode_utf16().collect(),
        morphs,
        b_str_type: 1,
        ireguler: Vec::new(),
        b_sentence_end: false,
    }]);
    process_last_cut(&mut k);
    assert_eq!(k.words.len(), 2);
    assert_eq!(String::from_utf16_lossy(&k.words[0].source), "가".repeat(10));
    assert_eq!(k.words[0].morphs.len(), 10);
    assert_eq!(String::from_utf16_lossy(&k.words[1].source), "가");
    assert_eq!(k.words[1].morphs.len(), 1);
    assert_eq!(k.words[1].morphs[0].pyogi, b"ga");
    assert_eq!(k.words[1].b_str_type, 3);
}

#[test]
fn last_cut_recursive_split() {
    let mut k = klp_state_with_words(vec![long_word(42)]);
    process_last_cut(&mut k);
    let srcs: Vec<String> = k
        .words
        .iter()
        .map(|w| String::from_utf16_lossy(&w.source))
        .collect();
    assert_eq!(srcs, ["가".repeat(20), "가".repeat(20), "가".repeat(2)]);
}

#[test]
fn last_cut_short_word_untouched() {
    let mut k = klp_state_with_words(vec![long_word(19)]);
    process_last_cut(&mut k);
    assert_eq!(k.words.len(), 1);
}

#[test]
fn last_merge_joins_runs_and_drops_spaces() {
    let mut k = klp_state_with_words(vec![w("가", b'N', 1), w(" ", b'k', 0), w("나", b'N', 1)]);
    process_last_merge(&mut k);
    assert_eq!(srcs(&k), ["가", "나"]);
    assert_eq!(btypes(&k), [3, 1]);
    let mut k = klp_state_with_words(vec![w("a", b'N', 1), w("b", b'N', 1), w("c", b'N', 1)]);
    process_last_merge(&mut k);
    assert_eq!(srcs(&k), ["abc"]);
    assert_eq!(btypes(&k), [3]);
    assert_eq!(k.words[0].morphs.len(), 3);
}

#[test]
fn last_merge_keeps_groups_short() {
    let mut ws: Vec<MaWord> = (0..12).map(|_| w("가", b'N', 1)).collect();
    ws.push(w(".", b'M', 0));
    let mut k = klp_state_with_words(ws);
    process_last_merge(&mut k);
    assert_eq!(srcs(&k), ["가".repeat(10), "가가.".to_string()]);
    assert_eq!(btypes(&k), [3, 3]);
}

#[test]
fn del_space_inside_digits() {
    let mut k = klp_state_with_words(vec![w("1", b'I', 0), w(" ", b'k', 0), w("2", b'I', 0)]);
    process_del_space_symbol(&mut k);
    assert_eq!(srcs(&k), ["1", ",", "2"]);
    assert_eq!(first_tags(&k), [b'I', b'M', b'I']);
    assert_eq!(btypes(&k), [0, 0, 0]);
    let mut k = klp_state_with_words(vec![
        w("1", b'I', 0),
        w("-", b'L', 0),
        w(" ", b'k', 0),
        w("2", b'I', 0),
    ]);
    process_del_space_symbol(&mut k);
    assert_eq!(srcs(&k), ["1", "-", "2"]);
}

#[test]
fn convert_word_to_text() {
    let mut x = w("abc", b'N', 1);
    convert_anal(&mut x, b",", b'M');
    assert_eq!(x.source, vec![0x2C]);
    assert_eq!(x.morphs[0].ch_tag, b'M');
    assert_eq!(x.morphs[0].pyogi, b",".to_vec());
    assert_eq!(x.morphs[0].cvc, b",".to_vec());
    assert_eq!(x.b_str_type, 3);
}

#[test]
fn modify_result_retags_colon() {
    let mut x = w("na", b':', 1);
    x.morphs.push(MaMorph {
        ch_tag: b'N',
        pyogi: b"ga".to_vec(),
        cvc: Vec::new(),
        prob: 0,
        b_merged: false,
    });
    let mut k = klp_state_with_words(vec![x, w("b", b':', 0)]);
    process_modify_ma_result_to(&mut k);
    assert_eq!(k.words[0].morphs[0].ch_tag, b'9');
    assert_eq!(k.words[0].morphs[1].ch_tag, b'N');
    assert_eq!(k.words[1].morphs[0].ch_tag, b'9');
}

#[test]
fn wansong_writes_back_and_drops() {
    let mut k = klp_state_with_words(vec![
        w("ga", b'N', 1),
        w("x", b'Q', 0),
        w(" ", b'k', 0),
        w("abc", b'J', 0),
    ]);
    process_pyogi_to_wansong(&mut k);
    assert_eq!(srcs(&k), ["가", " ", "abc"]);
    assert_eq!(k.words[0].morphs[0].pyogi, b"ga".to_vec());
}

#[test]
fn trailing_mark_gets_ordinal() {
    let mut a = w("가.", b'N', 1);
    a.morphs.push(MaMorph {
        ch_tag: b'M',
        pyogi: b".".to_vec(),
        cvc: Vec::new(),
        prob: 0,
        b_merged: false,
    });
    let mut b = w("a,", b'N', 1);
    b.morphs.push(MaMorph {
        ch_tag: b'M',
        pyogi: b",".to_vec(),
        cvc: Vec::new(),
        prob: 0,
        b_merged: false,
    });
    let c = w("abc", b'N', 1);
    let mut k = klp_state_with_words(vec![a, b, c]);
    set_trailing_symbol_cvc(&mut k);
    assert_eq!(k.words[0].morphs.len(), 3);
    assert_eq!(k.words[0].morphs[1].cvc, vec![0x2E]);
    assert_eq!(k.words[0].morphs[2].ch_tag, b'L');
    assert!(k.words[0].morphs[2].pyogi.is_empty());
    assert_eq!(k.words[1].morphs.len(), 2);
    assert_eq!(k.words[1].morphs[1].cvc, vec![0x2C]);
    assert_eq!(k.words[2].morphs.len(), 1);
}

#[test]
fn repeat_reads_year_in_parentheses() {
    let mut k = klp_state_with_words(vec![w("(", b'N', 0), w("2020", b'I', 0), w(")", b'O', 0)]);
    process_ma_repeat(&mut k);
    assert_eq!(srcs(&k), [" ", "2020"]);
    assert_eq!(first_tags(&k), [b'k', b'I']);
}

#[test]
fn repeat_reads_small_number_in_parentheses() {
    let mut k = klp_state_with_words(vec![w("(", b'N', 0), w("3", b'I', 0), w(")", b'O', 0)]);
    process_ma_repeat(&mut k);
    assert_eq!(srcs(&k), ["va*gwaLho", "3", ","]);
    assert_eq!(first_tags(&k), [b'0', b'I', b'M']);
}

#[test]
fn repeat_keeps_parenthesis_before_space_as_comma() {
    let mut k = klp_state_with_words(vec![
        w("x", b'A', 0),
        w("(", b'N', 0),
        w("y", b'A', 0),
        w(")", b'O', 0),
        w(" ", b'k', 0),
        w("z", b'A', 0),
    ]);
    process_ma_repeat(&mut k);
    assert_eq!(srcs(&k), ["x", ",", "y", " ", "z"]);
}

#[test]
fn repeat_drops_parenthesised_text() {
    let mut k = klp_state_with_words(vec![
        w("x", b'A', 0),
        w("(", b'N', 0),
        w("y", b'A', 0),
        w(")", b'O', 0),
        w("z", b'A', 0),
    ]);
    process_ma_repeat(&mut k);
    assert_eq!(srcs(&k), ["x", "z"]);
}

#[test]
fn repeat_reads_number_before_lone_close() {
    let mut k = klp_state_with_words(vec![w("1", b'I', 0), w(")", b'O', 0)]);
    process_ma_repeat(&mut k);
    assert_eq!(srcs(&k), ["baNgwaLho", "1", ","]);
    assert_eq!(first_tags(&k), [b'0', b'I', b'M']);
}

#[test]
fn repeat_drops_lone_close() {
    let mut k = klp_state_with_words(vec![w("a", b'A', 0), w(")", b'O', 0), w("b", b'A', 0)]);
    process_ma_repeat(&mut k);
    assert_eq!(srcs(&k), ["a", "b"]);
}
