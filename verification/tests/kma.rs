use ktts::code::{
    conv_cvc_to_pyogi, conv_cvc_to_uni_wan, conv_pyogi_to_cvc, conv_pyogi_to_uni_wan,
    conv_uni_wan_to_cvc, conv_uni_wan_to_pyogi, get_kchar_count,
};
use ktts::digits::{
    decimal_read, decimal_read_large, digit_to_16_pron, digit_to_china_pron,
    digit_to_china_pron_tbl, digit_to_china_pron_value, digit_to_china_pron_value_large,
    digit_to_korean_pron, digit_to_korean_pron_value, digit_to_one_pron_value,
    digit_to_one_pron_value_large, digit_zero_remove, wtoi, DIGIT1_LOW_UNIT, ONE_DIGIT1_KOR,
};

#[test]
fn annyeonghaseyo_romanization() {
    let w = [0xc548u16, 0xb155, 0xd558, 0xc138, 0xc694];
    let pyogi = conv_uni_wan_to_pyogi(&w);
    assert_eq!(pyogi, b"aNnye*has9yo");
    let cvc = conv_uni_wan_to_cvc(&w);
    assert_eq!(
        cvc,
        vec![13, 3, 5, 4, 11, 23, 20, 3, 1, 11, 10, 1, 13, 19, 1]
    );
    assert_eq!(conv_cvc_to_uni_wan(&cvc), w);
    assert_eq!(conv_pyogi_to_cvc(&pyogi), cvc);
    assert_eq!(conv_pyogi_to_cvc(b"aNnye*"), vec![13, 3, 5, 4, 11, 23]);
    assert_eq!(conv_pyogi_to_cvc(b"ha"), vec![20, 3, 1]);
    assert_eq!(conv_pyogi_to_cvc(b"s9yo"), vec![11, 10, 1, 13, 19, 1]);
}

#[test]
fn code_kchar_count() {
    assert_eq!(get_kchar_count(b"aNnye*"), 2);
    assert_eq!(get_kchar_count(b"has9yo"), 3);
    assert_eq!(get_kchar_count(b"eyo"), 2);
}

#[test]
fn pyogi_roundtrips_to_hangul() {
    let w = [0xc548u16, 0xb155, 0xd558, 0xc138, 0xc694];
    assert_eq!(conv_pyogi_to_uni_wan(b"aNnye*has9yo"), w);
    assert_eq!(conv_cvc_to_pyogi(&conv_uni_wan_to_cvc(&w)), b"aNnye*has9yo");
    assert_eq!(conv_uni_wan_to_cvc(&[]), Vec::<u8>::new());
}

#[test]
fn china_small() {
    let mut o = String::new();
    digit_to_china_pron(b"95", &mut o);
    assert_eq!(o, "gusiBo");
    let mut o = String::new();
    digit_to_china_pron(b"17", &mut o);
    assert_eq!(o, "siBciL");
    let mut o = String::new();
    digit_to_china_pron(b"1", &mut o);
    assert_eq!(o, "iL");
    let mut o = String::new();
    digit_to_china_pron(b"10", &mut o);
    assert_eq!(o, "siB");
    let mut o = String::new();
    digit_to_china_pron(b"0", &mut o);
    assert_eq!(o, "lye*");
    let mut o = String::new();
    digit_to_china_pron(b"101", &mut o);
    assert_eq!(o, "b8G go* iL");
    let mut o = String::new();
    digit_to_china_pron(b"1005", &mut o);
    assert_eq!(o, "ceN o");
}

#[test]
fn china_large() {
    let mut o = String::new();
    digit_to_china_pron(b"1995", &mut o);
    assert_eq!(o, "ceN gub8G gusiBo");
    let mut o = String::new();
    digit_to_china_pron(b"123456789", &mut o);
    assert_eq!(o, "eG\ticeN saMb8G sasiBomaN\tyuGceN ciLb8G paLsiBgu");
    let mut o = String::new();
    digit_to_china_pron(b"1200", &mut o);
    assert_eq!(o, "ceN ib8G ");
}

#[test]
fn korean_native() {
    let mut o = String::new();
    digit_to_korean_pron(b"3", &mut o);
    assert_eq!(o, "s9");
    let mut o = String::new();
    digit_to_korean_pron(b"12", &mut o);
    assert_eq!(o, "yeLdu");
    let mut o = String::new();
    digit_to_korean_pron(b"20", &mut o);
    assert_eq!(o, "s_mu");
    let mut o = String::new();
    digit_to_korean_pron(b"25", &mut o);
    assert_eq!(o, "s_muLdaseS");
    let mut o = String::new();
    digit_to_korean_pron(b"0", &mut o);
    assert_eq!(o, "lye*");
}

#[test]
fn special_month() {
    let mut o = String::new();
    digit_to_china_pron_tbl(b"10", &mut o, &ONE_DIGIT1_KOR, &DIGIT1_LOW_UNIT);
    assert_eq!(o, "si");
    let mut o = String::new();
    digit_to_china_pron_tbl(b"6", &mut o, &ONE_DIGIT1_KOR, &DIGIT1_LOW_UNIT);
    assert_eq!(o, "yu");
    let mut o = String::new();
    digit_to_china_pron_tbl(b"12", &mut o, &ONE_DIGIT1_KOR, &DIGIT1_LOW_UNIT);
    assert_eq!(o, "sii");
}

#[test]
fn one_by_one() {
    assert_eq!(
        digit_to_one_pron_value_large(&[u16::from(b'0'), u16::from(b'1'), u16::from(b'0')]),
        "go*iLgo*"
    );
    assert_eq!(
        digit_to_one_pron_value_large(&[
            u16::from(b'1'),
            u16::from(b'2'),
            u16::from(b'3'),
            u16::from(b'4')
        ]),
        "iLisaMsa"
    );
    assert_eq!(
        digit_to_china_pron_value_large(&[u16::from(b'0'), u16::from(b'1'), u16::from(b'2')]),
        "siBi"
    );
}

#[test]
fn decimal_and_16() {
    assert_eq!(
        decimal_read_large(&[u16::from(b'9'), u16::from(b'5')], &[u16::from(b'5')]),
        "gusiBo zeM o"
    );
    assert_eq!(
        digit_to_16_pron(&[u16::from(b'1'), u16::from(b'F')]),
        "iL9p_"
    );
    assert_eq!(
        digit_to_16_pron(&[
            u16::from(b'0'),
            u16::from(b'x'),
            u16::from(b'2'),
            u16::from(b'0')
        ]),
        "go*9Gs_igo*"
    );
}

#[test]
fn value_forms_match_string_forms() {
    assert_eq!(digit_to_china_pron_value(95), "gusiBo");
    assert_eq!(digit_to_korean_pron_value(25), "s_muLdaseS");
    assert_eq!(digit_to_one_pron_value(120), "iLigo*");
    assert_eq!(decimal_read(3, 14, true), "saMsiBsa");
    assert_eq!(decimal_read(3, 14, false), "saMiLsa");
}

#[test]
fn zero_removal_and_wtoi() {
    let z = [u16::from(b'0'), u16::from(b'0'), u16::from(b'7')];
    assert_eq!(digit_zero_remove(&z), vec![u16::from(b'7')]);
    assert_eq!(wtoi(&[u16::from(b'4'), u16::from(b'2')]), 42);
    assert_eq!(wtoi(&[]), 0);
}
