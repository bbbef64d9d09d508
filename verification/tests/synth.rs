use ktts::synthdb::{
    decode_marks, parse_group_idx, parse_idx, parse_pcm, parse_triangular_table, parse_upm,
    uraw_to_pcm, UpmMark, SPHONEDICT_SIZE,
};

fn record(pcm_start: u32, pcm_size: u16, upm_start: u32, upm_size: u16) -> Vec<u8> {
    let mut r = vec![0xffu8, 2];
    r.extend_from_slice(&pcm_size.to_le_bytes());
    r.extend_from_slice(&pcm_start.to_le_bytes());
    r.extend_from_slice(&[1, 2, 3, 4, 5]);
    r.extend_from_slice(&[6, 7, 8, 9, 10]);
    r.extend_from_slice(&upm_size.to_le_bytes());
    r.extend_from_slice(&upm_start.to_le_bytes());
    for k in 0..24u32 {
        r.extend_from_slice(&(k as f32).to_bits().to_le_bytes());
    }
    assert_eq!(r.len(), SPHONEDICT_SIZE);
    r
}

fn two_unit_index() -> Vec<u8> {
    let mut d = 2u16.to_le_bytes().to_vec();
    d.extend_from_slice(&0u16.to_le_bytes());
    d.extend_from_slice(&1u16.to_le_bytes());
    d.extend_from_slice(&record(4, 3, 1, 4));
    d.extend_from_slice(&1u16.to_le_bytes());
    d.extend_from_slice(&0u16.to_le_bytes());
    d
}

#[test]
fn synthesis_index_parses_units_and_records() {
    let idx = parse_idx(&two_unit_index()).expect("index");
    assert_eq!(idx.units.len(), 2);
    assert_eq!(idx.record_count, 1);
    assert_eq!(idx.units[1].unit_no, 1);
    assert!(idx.units[1].records.is_empty());
    let r = idx.units[0].records[0];
    assert_eq!(r.ch_dict_file_id, -1);
    assert_eq!(r.ch_phone_mode, 2);
    assert_eq!(r.w_pcm_size, 3);
    assert_eq!(r.n_pcm_start, 4);
    assert_eq!(r.phones, [1, 2, 3, 4, 5]);
    assert_eq!(r.energy_pitch, [6, 7, 8, 9, 10]);
    assert_eq!(r.w_upm_size, 4);
    assert_eq!(r.n_upm_start, 1);
    assert_eq!(f32::from_bits(r.sr_start_cepstrum[3]), 3.0);
    assert_eq!(f32::from_bits(r.sr_end_cepstrum[0]), 12.0);
    assert_eq!(idx.records().len(), 1);
    assert_eq!(r.pcm_range(), (4, 7));
    assert_eq!(r.upm_range(), (1, 5));
}

#[test]
fn synthesis_index_rejects_bad_data() {
    let mut d = two_unit_index();
    d.push(0);
    assert!(parse_idx(&d).is_err());
    let d = two_unit_index();
    assert!(parse_idx(&d[..d.len() - 1]).is_err());
    let mut d = two_unit_index();
    d[126] = 5;
    assert!(parse_idx(&d).is_err());
    assert!(parse_idx(&[]).is_err());
    assert!(parse_idx(&[0, 0]).is_ok());
}

#[test]
fn pcm_and_mark_segments() {
    let idx = parse_idx(&two_unit_index()).expect("index");
    let r = idx.units[0].records[0];
    let pcm_bytes = [9u8, 9, 9, 9, 1, 2, 3, 9];
    let pcm = parse_pcm(&pcm_bytes).expect("pcm");
    assert_eq!(pcm.byte_len(), 8);
    assert_eq!(pcm.segment(&r).expect("segment"), &[1, 2, 3]);
    let short = parse_pcm(&pcm_bytes[..6]).expect("pcm");
    assert!(short.segment(&r).is_err());
    let upm_bytes = [0u8, 10, 3, 4, 5];
    let upm = parse_upm(&upm_bytes).expect("upm");
    assert_eq!(upm.segment(&r).expect("segment"), &[10, 3, 4, 5]);
    assert_eq!(upm.mark_positions(&r).expect("positions"), vec![10, 13, 17, 22]);
    assert_eq!(
        upm.decode_marks(&r, 2).expect("marks"),
        decode_marks(&[10, 3, 4, 5], 2)
    );
}

#[test]
fn marks_decode_in_both_modes() {
    let m = decode_marks(&[10, 3, 4, 5], 2);
    assert_eq!(
        m,
        vec![
            UpmMark { addr: 0, cur_pitch: 10, next_pitch: 3 },
            UpmMark { addr: 10, cur_pitch: 3, next_pitch: 4 },
            UpmMark { addr: 13, cur_pitch: 4, next_pitch: 5 },
        ]
    );
    let m = decode_marks(&[7, 10, 3, 4], 1);
    assert_eq!(
        m,
        vec![
            UpmMark { addr: 0, cur_pitch: 10, next_pitch: 3 },
            UpmMark { addr: 10, cur_pitch: 3, next_pitch: 4 },
        ]
    );
    assert!(decode_marks(&[1], 2).is_empty());
    assert!(decode_marks(&[1, 2], 1).is_empty());
    assert_eq!(decode_marks(&[1, 2], 2).len(), 1);
}

#[test]
fn mu_law_samples() {
    assert_eq!(uraw_to_pcm(0), -32124);
    assert_eq!(uraw_to_pcm(127), 0);
    assert_eq!(uraw_to_pcm(-1), 0);
    assert_eq!(uraw_to_pcm(-128), 32124);
    assert_eq!(uraw_to_pcm(1), -31100);
    assert_eq!(uraw_to_pcm(-2), 8);
    assert_eq!(uraw_to_pcm(64), -1884);
}

#[test]
fn group_index_and_triangular_table() {
    let mut d = 2u16.to_le_bytes().to_vec();
    for (no, phones) in [(0u16, vec![7u16, 8]), (1, vec![])] {
        d.extend_from_slice(&no.to_le_bytes());
        d.extend_from_slice(&(phones.len() as u16).to_le_bytes());
        for p in phones {
            d.extend_from_slice(&p.to_le_bytes());
        }
    }
    let g = parse_group_idx(&d).expect("groups");
    assert_eq!(g.groups.len(), 2);
    assert_eq!(g.groups[0].phones, vec![7, 8]);
    assert_eq!(g.groups[1].group_no, 1);
    d.push(1);
    assert!(parse_group_idx(&d).is_err());
    let mut t = 2u16.to_le_bytes().to_vec();
    for v in [1.5f32, 2.5, 3.5] {
        t.extend_from_slice(&v.to_bits().to_le_bytes());
    }
    let tab = parse_triangular_table(&t).expect("table");
    assert_eq!(tab.n, 2);
    assert_eq!(tab.total_floats(), 3);
    assert_eq!(tab.at(1, 1).map(f32::from_bits), Some(3.5));
    assert_eq!(tab.at(0, 1), None);
    assert!(parse_triangular_table(&t[..t.len() - 1]).is_err());
}
