use ktts::codec::{u16_to_utf8, utf8_to_u16};
use ktts::types::{
    resolve_data_dir, resolve_data_dir_embedded, PipelineError, PronText, WordMorphInfo,
    DEFAULT_DATA_DIR,
};
use ktts::wav::{build_wav, parse_wav_header, BITS_PER_SAMPLE, CHANNELS, SAMPLE_RATE};

#[test]
fn hangul_roundtrip() {
    let text = "안녕하세요";
    let units = utf8_to_u16(text);
    assert_eq!(units.len(), 5);
    assert_eq!(units[0], 0xC548);
    assert_eq!(u16_to_utf8(&units), text);
}

#[test]
fn surrogate_pair_roundtrip() {
    let text = "a😀b";
    let units = utf8_to_u16(text);
    assert_eq!(units.len(), 4);
    assert_eq!(units[1], 0xD83D);
    assert_eq!(units[2], 0xDE00);
    assert_eq!(u16_to_utf8(&units), text);
}

#[test]
fn mixed_content() {
    let text = "Hello 안녕 123!";
    let units = utf8_to_u16(text);
    assert_eq!(u16_to_utf8(&units), text);
}

#[test]
fn lone_surrogates_decode_to_replacement() {
    assert_eq!(u16_to_utf8(&[0x61, 0xD800, 0x62]), "a\u{FFFD}b");
    assert_eq!(u16_to_utf8(&[0xDC00]), "\u{FFFD}");
    assert_eq!(u16_to_utf8(&[0xD83D]), "\u{FFFD}");
    assert_eq!(u16_to_utf8(&[]), "");
    assert_eq!(utf8_to_u16(""), Vec::<u16>::new());
}

#[test]
fn data_dir_resolution_prefers_cli_over_env_over_default() {
    assert_eq!(resolve_data_dir(Some("/cli"), Some("/env")), "/cli");
    assert_eq!(resolve_data_dir(None, Some("/env")), "/env");
    assert_eq!(resolve_data_dir(None, Some("")), DEFAULT_DATA_DIR);
    assert_eq!(resolve_data_dir(None, None), DEFAULT_DATA_DIR);
}

#[test]
fn data_dir_resolution_prefers_cli_over_env_over_embedded() {
    assert_eq!(
        resolve_data_dir_embedded(Some("/cli"), Some("/env")),
        Some("/cli".to_string())
    );
    assert_eq!(
        resolve_data_dir_embedded(None, Some("/env")),
        Some("/env".to_string())
    );
    assert_eq!(resolve_data_dir_embedded(None, Some("")), None);
    assert_eq!(resolve_data_dir_embedded(None, None), None);
}

#[test]
fn empty_cli_dir_is_still_taken() {
    assert_eq!(resolve_data_dir(Some(""), Some("/env")), "");
    assert_eq!(resolve_data_dir_embedded(Some(""), None), Some(String::new()));
}

#[test]
fn header_layout_is_44_bytes_and_correct() {
    let wav = build_wav(&[]);
    assert_eq!(wav.len(), 44);
    assert_eq!(&wav[0..4], b"RIFF");
    assert_eq!(&wav[8..12], b"WAVE");
    assert_eq!(&wav[12..16], b"fmt ");
    assert_eq!(&wav[36..40], b"data");
    assert_eq!(u32::from_le_bytes([wav[4], wav[5], wav[6], wav[7]]), 36);
    assert_eq!(u16::from_le_bytes([wav[20], wav[21]]), 1);
    assert_eq!(u16::from_le_bytes([wav[22], wav[23]]), 1);
    assert_eq!(
        u32::from_le_bytes([wav[24], wav[25], wav[26], wav[27]]),
        16000
    );
    assert_eq!(
        u32::from_le_bytes([wav[28], wav[29], wav[30], wav[31]]),
        32000
    );
    assert_eq!(u16::from_le_bytes([wav[32], wav[33]]), 2);
    assert_eq!(u16::from_le_bytes([wav[34], wav[35]]), 16);
}

#[test]
fn samples_are_little_endian_pcm16() {
    let samples = [1i16, -2, 32767, -32768];
    let wav = build_wav(&samples);
    assert_eq!(wav.len(), 44 + 8);
    assert_eq!(&wav[44..46], &1i16.to_le_bytes());
    assert_eq!(&wav[46..48], &(-2i16).to_le_bytes());
    assert_eq!(&wav[50..52], &(-32768i16).to_le_bytes());
    let info = parse_wav_header(&wav).expect("valid header");
    assert_eq!(info.data_len, 8);
    assert_eq!(info.sample_rate, 16000);
    assert_eq!(info.channels, 1);
    assert_eq!(info.bits_per_sample, 16);
}

#[test]
fn parse_rejects_garbage() {
    assert!(parse_wav_header(b"not a wav at all........").is_none());
    assert!(parse_wav_header(&[0u8; 44]).is_none());
}

#[test]
fn pcm_samples_encode_as_mono_16khz_wav() {
    let wav = build_wav(&[1, -2]);

    assert_eq!(&wav[0..4], b"RIFF");
    assert_eq!(&wav[8..12], b"WAVE");
    assert_eq!(u16::from_le_bytes([wav[22], wav[23]]), CHANNELS);
    assert_eq!(
        u32::from_le_bytes([wav[24], wav[25], wav[26], wav[27]]),
        SAMPLE_RATE
    );
    assert_eq!(u16::from_le_bytes([wav[34], wav[35]]), BITS_PER_SAMPLE);
    assert_eq!(&wav[44..48], &[1, 0, 0xfe, 0xff]);
}

#[test]
fn header_roundtrips_through_parse() {
    let samples: Vec<i16> = (0..100).map(|i| (i * 37 - 1000) as i16).collect();
    let wav = build_wav(&samples);
    let info = parse_wav_header(&wav).expect("valid header");
    assert_eq!(info.data_len, 200);
    assert_eq!(info.data_offset, 44);
    assert_eq!(wav.len(), 244);
    let mut bad = wav.clone();
    bad[20] = 3;
    assert!(parse_wav_header(&bad).is_none());
    assert!(parse_wav_header(&wav[..43]).is_none());
}

#[test]
fn pipeline_error_messages() {
    assert_eq!(PipelineError::EmptyInput.message(), "input text is empty");
    assert_eq!(
        PipelineError::EmptyOutput.message(),
        "synthesis result is empty"
    );
    assert_eq!(
        PipelineError::BadParam("speed".to_string()).message(),
        "invalid parameter: speed"
    );
}

#[test]
fn default_pron_and_morph_info_are_empty() {
    let p = PronText::new();
    assert!(p.syllables.is_empty());
    let w = WordMorphInfo::new();
    assert!(w.pos.is_empty() && w.source.is_empty());
}
