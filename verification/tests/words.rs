use ktts::code::surface_syllable_spans;
use ktts::post::{apply_copula_bnida_assimilation, get_word_info, MaMorph, MaWord, Morph};

fn morph(tag: u8, pyogi: &[u8], cvc: &[u8]) -> MaMorph {
    MaMorph {
        ch_tag: tag,
        pyogi: pyogi.to_vec(),
        cvc: cvc.to_vec(),
        prob: 0x3FF0_0000_0000_0000,
        b_merged: false,
    }
}

fn word(source: &str, morphs: Vec<MaMorph>, end: bool) -> MaWord {
    MaWord {
        source: source.encode_utf16().collect(),
        morphs,
        b_str_type: 0,
        ireguler: Vec::new(),
        b_sentence_end: end,
    }
}

#[test]
fn word_info_plain_word() {
    let w = word("가", vec![morph(b'N', b"ga", &[1, 2, 1])], false);
    let out = get_word_info(&[w]);
    assert_eq!(out.len(), 1);
    let a = &out[0];
    assert_eq!(a.w_byte_num, 1);
    assert!(!a.b_word_sen);
    assert_eq!(a.word_cvc, vec![1, 1, 0]);
    assert_eq!(
        a.morphs,
        vec![Morph {
            cvc: vec![1, 2, 1],
            pos: [b'N', 0],
            prob: 0x3FF0_0000_0000_0000,
            surface_len: 1,
        }]
    );
}

#[test]
fn word_info_drops_closing_mark() {
    let w = word(
        "가.",
        vec![
            morph(b'N', b"ga", &[1, 2, 1]),
            morph(b'S', b"", &[]),
            morph(b's', b".", &[0x2E]),
            morph(b'S', b"", &[]),
        ],
        true,
    );
    let a = &get_word_info(&[w])[0];
    assert!(a.b_word_sen);
    assert!(a.b_sentence_end);
    assert_eq!(a.w_byte_num, 1);
    assert_eq!(a.word_cvc, vec![1, 1, 0]);
    assert_eq!(a.morphs.len(), 2);
    assert_eq!(a.morphs[1].pos, [b'S', 0]);
    assert_eq!(a.source, "가.".encode_utf16().collect::<Vec<u16>>());
}

#[test]
fn word_info_keeps_comma() {
    let w = word(
        "a,",
        vec![morph(b'E', b"ei", &[1, 9, 1]), morph(b's', b",", &[0x2C])],
        false,
    );
    let a = &get_word_info(&[w])[0];
    assert!(a.b_word_sen);
    assert_eq!(a.w_byte_num, 2);
    assert_eq!(a.word_cvc, vec![0, 0, 0, 0, 0, 0]);
    assert_eq!(a.morphs.len(), 2);
    assert_eq!(a.morphs[0].surface_len, 2);
}

#[test]
fn word_info_single_morph_keeps_mark() {
    let w = word("?", vec![morph(b's', b"?", &[0x3F])], true);
    let a = &get_word_info(&[w])[0];
    assert_eq!(a.w_byte_num, 0);
    assert!(a.word_cvc.is_empty());
    assert_eq!(a.morphs.len(), 1);
}

#[test]
fn copula_meets_bnida() {
    let mut ms = vec![
        morph(b'N', b"hagsEG", &[20, 2, 1]),
        morph(b'@', b"iL", &[13, 21, 9]),
        morph(b'^', b"Bnida", &[1, 1, 19, 7, 2, 1]),
    ];
    apply_copula_bnida_assimilation(&mut ms);
    assert_eq!(ms[0].cvc, vec![20, 2, 1]);
    assert_eq!(ms[1].cvc, vec![13, 21, 17]);
    assert_eq!(ms[2].cvc, vec![7, 2, 1]);
    assert_eq!(ms[2].pyogi, b"Bnida".to_vec());
    assert_eq!(ms[1].ch_tag, b'@');
}

#[test]
fn copula_untouched_elsewhere() {
    let mut ms = vec![
        morph(b'@', b"iL", &[13, 21, 8]),
        morph(b'^', b"Bnida", &[1, 2, 19]),
        morph(b'^', b"Bnida", &[1, 1, 19]),
    ];
    apply_copula_bnida_assimilation(&mut ms);
    assert_eq!(ms[0].cvc, vec![13, 21, 8]);
    assert_eq!(ms[1].cvc, vec![1, 2, 19]);
    assert_eq!(ms[2].cvc, vec![1, 1, 19]);
}

#[test]
fn syllable_spans_of_romanized_word() {
    assert_eq!(surface_syllable_spans(b"gaMsa"), vec![(0, 3), (3, 5)]);
    assert_eq!(surface_syllable_spans(b"wa"), vec![(0, 2)]);
    assert_eq!(surface_syllable_spans(b""), Vec::<(usize, usize)>::new());
    assert_eq!(surface_syllable_spans(b"gE"), Vec::<(usize, usize)>::new());
}
