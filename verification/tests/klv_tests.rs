use klv_parser::ber::{decode_length, decode_tag, encode_length};
use klv_parser::error::KlvError;
use klv_parser::parser::{encode_klv, parse, Klv};

// A 16-byte UAS Datalink Universal Label used as the key of test records.
const UL: [u8; 16] = [
    0x06, 0x0E, 0x2B, 0x34, 0x02, 0x0B, 0x01, 0x01, 0x0E, 0x01, 0x03, 0x01, 0x01, 0x00, 0x00,
    0x00,
];

fn one_record(value: &[u8]) -> Vec<u8> {
    let mut buf: Vec<u8> = Vec::new();
    buf.extend_from_slice(&UL);
    assert!(value.len() < 128);
    buf.push(value.len() as u8);
    buf.extend_from_slice(value);
    buf
}

#[test]
fn test_parser() {
    let data = one_record(&[0x01, 0x02, 0x03, 0x04]);
    let (klvs, error) = parse(&data);

    println!("{:?}", klvs);
    assert!(error.is_none());
    assert_eq!(klvs.len(), 1);
}

#[test]
fn short_form_lengths_decode_to_themselves() {
    for b in 0u8..=127u8 {
        let buf = [b];
        assert_eq!(decode_length(&buf, 0), Ok((b as u64, 1)));
    }
}

#[test]
fn long_form_length_is_big_endian() {
    let buf = [0x82, 0x00, 0x7B];
    assert_eq!(decode_length(&buf, 0), Ok((123, 3)));
}

#[test]
fn long_form_with_zero_octets_is_invalid() {
    let buf = [0x80];
    assert_eq!(decode_length(&buf, 0), Err(KlvError::InvalidLengthEncoding));
}

#[test]
fn long_form_with_nine_octets_is_invalid() {
    let buf = [0x89, 0, 0, 0, 0, 0, 0, 0, 0, 1];
    assert_eq!(decode_length(&buf, 0), Err(KlvError::InvalidLengthEncoding));
}

#[test]
fn truncated_long_form_length_fails() {
    let buf = [0x82, 0x00];
    assert_eq!(decode_length(&buf, 0), Err(KlvError::UnexpectedEndOfInput));
}

#[test]
fn two_byte_tag_decodes_continuation_bits() {
    let buf = [0x81, 0x02];
    assert_eq!(decode_tag(&buf, 0), Ok(((1u64 << 7) | 2, 2)));
}

#[test]
fn single_byte_tag_decodes_to_itself() {
    let buf = [0x05];
    assert_eq!(decode_tag(&buf, 0), Ok((5, 1)));
}

#[test]
fn tag_without_terminator_fails() {
    let buf = [0x80, 0x80];
    assert_eq!(decode_tag(&buf, 0), Err(KlvError::UnexpectedEndOfInput));
}

#[test]
fn tag_wider_than_five_bytes_is_invalid() {
    let buf = [0x81, 0x82, 0x83, 0x84, 0x85, 0x06];
    assert_eq!(decode_tag(&buf, 0), Err(KlvError::InvalidTagEncoding));
}

#[test]
fn empty_buffer_parses_to_nothing() {
    let (klvs, error) = parse(&[]);
    assert!(klvs.is_empty());
    assert!(error.is_none());
}

#[test]
fn buffer_shorter_than_a_key_fails() {
    let buf = [0u8; 10];
    let (klvs, error) = parse(&buf);
    assert!(klvs.is_empty());
    assert_eq!(error, Some(KlvError::UnexpectedEndOfInput));
}

#[test]
fn trailing_garbage_is_reported() {
    let mut data = one_record(&[0xAA, 0xBB]);
    data.extend_from_slice(&[0x01, 0x02, 0x03]);
    let (klvs, error) = parse(&data);
    assert_eq!(klvs.len(), 1);
    assert_eq!(klvs[0].value, vec![0xAA, 0xBB]);
    assert_eq!(error, Some(KlvError::UnexpectedEndOfInput));
}

#[test]
fn declared_length_past_the_end_is_truncated_payload() {
    let mut data: Vec<u8> = Vec::new();
    data.extend_from_slice(&UL);
    data.push(0x05);
    data.extend_from_slice(&[0x01, 0x02, 0x03]);
    let (klvs, error) = parse(&data);
    assert!(klvs.is_empty());
    assert_eq!(error, Some(KlvError::TruncatedPayload));
}

#[test]
fn two_records_parse_in_stream_order() {
    let mut data = one_record(&[0x11]);
    data.extend_from_slice(&one_record(&[0x22, 0x33]));
    let (klvs, error) = parse(&data);
    assert!(error.is_none());
    assert_eq!(klvs.len(), 2);
    assert_eq!(klvs[0].value, vec![0x11]);
    assert_eq!(klvs[1].value, vec![0x22, 0x33]);
    assert_eq!(klvs[0].length, 1);
    assert_eq!(klvs[1].length, 2);
}

#[test]
fn short_form_round_trip() {
    let klv = Klv { key: UL, length: 3, value: vec![0x09, 0x08, 0x07] };
    let bytes = encode_klv(&klv);
    assert_eq!(bytes.len(), 16 + 1 + 3);
    let (klvs, error) = parse(&bytes);
    assert!(error.is_none());
    assert_eq!(klvs.len(), 1);
    assert_eq!(klvs[0].key, UL);
    assert_eq!(klvs[0].length, 3);
    assert_eq!(klvs[0].value, vec![0x09, 0x08, 0x07]);
}

#[test]
fn long_form_round_trip() {
    let value: Vec<u8> = (0..300u32).map(|i| (i % 251) as u8).collect();
    let klv = Klv { key: UL, length: value.len(), value: value.clone() };
    let bytes = encode_klv(&klv);
    // 0x82 prefix, then 300 big-endian in two octets
    assert_eq!(&bytes[16..19], &[0x82, 0x01, 0x2C]);
    let (klvs, error) = parse(&bytes);
    assert!(error.is_none());
    assert_eq!(klvs.len(), 1);
    assert_eq!(klvs[0].key, UL);
    assert_eq!(klvs[0].length, 300);
    assert_eq!(klvs[0].value, value);
}

#[test]
fn encode_length_uses_shortest_form() {
    assert_eq!(encode_length(0), vec![0x00]);
    assert_eq!(encode_length(127), vec![0x7F]);
    assert_eq!(encode_length(128), vec![0x81, 0x80]);
    assert_eq!(encode_length(123), vec![0x7B]);
    assert_eq!(encode_length(65536), vec![0x83, 0x01, 0x00, 0x00]);
}

#[test]
fn universal_label_markers_are_recognised() {
    assert!(klv_parser::parser::is_valid_universal_label(&UL));
    let mut other = UL;
    other[0] = 0x07;
    assert!(!klv_parser::parser::is_valid_universal_label(&other));
}
