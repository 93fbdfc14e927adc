use klv_parser::error::KlvError;
use klv_parser::local_set::{decode_local_set, read_tlv, DEFAULT_MAX_NESTING};

#[test]
fn flat_local_set_decodes_in_stream_order() {
    // tag 2, length 2, value [0xAA, 0xBB]; tag 130 (two bytes), length 1, value [0x01]
    let payload = [0x02, 0x02, 0xAA, 0xBB, 0x81, 0x02, 0x01, 0x01];
    let (tlvs, error) = decode_local_set(&payload, DEFAULT_MAX_NESTING);
    assert!(error.is_none());
    assert_eq!(tlvs.len(), 2);
    assert_eq!(tlvs[0].tag, 2);
    assert_eq!(tlvs[0].length, 2);
    assert_eq!(tlvs[0].value, vec![0xAA, 0xBB]);
    assert_eq!(tlvs[1].tag, 130);
    assert_eq!(tlvs[1].length, 1);
    assert_eq!(tlvs[1].value, vec![0x01]);
}

#[test]
fn empty_payload_decodes_to_nothing() {
    let (tlvs, error) = decode_local_set(&[], DEFAULT_MAX_NESTING);
    assert!(tlvs.is_empty());
    assert!(error.is_none());
}

#[test]
fn zero_depth_reports_max_nesting_exceeded() {
    let payload = [0x02, 0x01, 0xFF];
    let (tlvs, error) = decode_local_set(&payload, 0);
    assert!(tlvs.is_empty());
    assert_eq!(error, Some(KlvError::MaxNestingExceeded));
}

#[test]
fn nested_local_set_decodes_with_reduced_depth() {
    // outer: tag 6, length 5, value holding an inner local set
    // inner: tag 3, length 3, value [0x07, 0x08, 0x09]
    let payload = [0x06, 0x05, 0x03, 0x03, 0x07, 0x08, 0x09];
    let (outer, outer_error) = decode_local_set(&payload, 2);
    assert!(outer_error.is_none());
    assert_eq!(outer.len(), 1);
    assert_eq!(outer[0].tag, 6);
    let (inner, inner_error) = decode_local_set(&outer[0].value, 1);
    assert!(inner_error.is_none());
    assert_eq!(inner.len(), 1);
    assert_eq!(inner[0].tag, 3);
    assert_eq!(inner[0].value, vec![0x07, 0x08, 0x09]);
}

#[test]
fn truncated_element_reports_error_beside_earlier_elements() {
    // one whole element, then an element whose declared length runs past the end
    let payload = [0x02, 0x01, 0xAA, 0x03, 0x04, 0x01];
    let (tlvs, error) = decode_local_set(&payload, DEFAULT_MAX_NESTING);
    assert_eq!(tlvs.len(), 1);
    assert_eq!(tlvs[0].tag, 2);
    assert_eq!(error, Some(KlvError::TruncatedPayload));
}

#[test]
fn read_tlv_reports_position_and_width() {
    let payload = [0x02, 0x01, 0xAA, 0x05, 0x00];
    let (first, first_width) = read_tlv(&payload, 0).unwrap();
    assert_eq!(first.tag, 2);
    assert_eq!(first_width, 3);
    let (second, second_width) = read_tlv(&payload, 3).unwrap();
    assert_eq!(second.tag, 5);
    assert_eq!(second.length, 0);
    assert_eq!(second_width, 2);
}

#[test]
fn missing_length_field_is_unexpected_end() {
    let payload = [0x02];
    let (tlvs, error) = decode_local_set(&payload, DEFAULT_MAX_NESTING);
    assert!(tlvs.is_empty());
    assert_eq!(error, Some(KlvError::UnexpectedEndOfInput));
}
