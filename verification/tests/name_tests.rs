use dns_codec::error::{DnsError, NameError};
use dns_codec::name::{Label, Name};
use dns_codec::ByteSerialize;

fn name_of(labels: &[&[u8]]) -> Name {
    Name {
        labels: labels
            .iter()
            .map(|l| Label { content: l.to_vec() })
            .collect(),
    }
}

fn contents(name: &Name) -> Vec<Vec<u8>> {
    name.labels.iter().map(|l| l.content.clone()).collect()
}

#[test]
fn scenario_b_name_encodes_and_decodes() {
    let name = name_of(&[b"codecrafters", b"io"]);
    let mut buf: Vec<u8> = Vec::new();
    name.serialize(&mut buf);
    let mut expected: Vec<u8> = vec![0x0c];
    expected.extend_from_slice(b"codecrafters");
    expected.push(0x02);
    expected.extend_from_slice(b"io");
    expected.push(0x00);
    assert_eq!(buf, expected);
    let (parsed, end) = Name::try_parse(&buf, 0).unwrap();
    assert_eq!(end, buf.len());
    assert_eq!(contents(&parsed), vec![b"codecrafters".to_vec(), b"io".to_vec()]);
    assert_eq!(parsed, name);
}

#[test]
fn empty_name_is_a_single_zero_octet() {
    let name = name_of(&[]);
    let mut buf: Vec<u8> = Vec::new();
    name.serialize(&mut buf);
    assert_eq!(buf, vec![0x00]);
    let (parsed, end) = Name::try_parse(&buf, 0).unwrap();
    assert_eq!(end, 1);
    assert!(parsed.labels.is_empty());
}

#[test]
fn name_round_trips_through_its_encoding() {
    let name = name_of(&[b"a", b"bc", b"def", b"ghij"]);
    let mut buf: Vec<u8> = Vec::new();
    name.serialize(&mut buf);
    let (parsed, _) = Name::try_parse(&buf, 0).unwrap();
    assert_eq!(parsed, name);
}

#[test]
fn name_decodes_at_an_interior_position() {
    let mut buf: Vec<u8> = vec![0xff, 0xff, 0xff];
    buf.extend_from_slice(&[0x03]);
    buf.extend_from_slice(b"abc");
    buf.push(0x00);
    let (parsed, end) = Name::try_parse(&buf, 3).unwrap();
    assert_eq!(end, buf.len());
    assert_eq!(contents(&parsed), vec![b"abc".to_vec()]);
}

#[test]
fn compressed_name_decodes_to_the_target_labels() {
    // an uncompressed name at offset 2, and a pointer to it at offset 18
    let mut buf: Vec<u8> = vec![0xff, 0xff];
    buf.push(0x0c);
    buf.extend_from_slice(b"codecrafters");
    buf.push(0x02);
    buf.extend_from_slice(b"io");
    buf.push(0x00);
    let pointer_pos = buf.len();
    buf.push(0xc0);
    buf.push(0x02);
    let (parsed, end) = Name::try_parse(&buf, pointer_pos).unwrap();
    assert_eq!(end, pointer_pos + 2);
    assert_eq!(contents(&parsed), vec![b"codecrafters".to_vec(), b"io".to_vec()]);

    // the equivalent fully-uncompressed encoding decodes to the same labels
    let (direct, _) = Name::try_parse(&buf, 2).unwrap();
    assert_eq!(parsed, direct);
}

#[test]
fn pointer_out_of_bounds_is_invalid_name() {
    let buf = vec![0xc3, 0xe8];
    let err = Name::try_parse(&buf, 0).unwrap_err();
    assert_eq!(err, DnsError::InvalidName(NameError::ReferenceOutOfBounds));
    assert_eq!(err.describe(), "invalid name: reference out of bounds");
}

#[test]
fn truncated_pointer_is_not_enough_data() {
    // a pointer whose second octet is missing
    let buf = vec![0x01, 0x41, 0xc0];
    let err = Name::try_parse(&buf, 2).unwrap_err();
    assert_eq!(err, DnsError::NotEnoughData { requested: 1, available: 0 });
}

#[test]
fn pointer_without_terminator_is_invalid_name() {
    // the pointer targets offset 2, and no zero byte follows it
    let buf = vec![0xc0, 0x02, 0x41, 0x42];
    let err = Name::try_parse(&buf, 0).unwrap_err();
    assert_eq!(err, DnsError::InvalidName(NameError::MissingTerminator));
    assert_eq!(err.describe(), "invalid name: null terminator missing");
}

#[test]
fn truncated_label_is_not_enough_data() {
    // a label claiming 5 bytes with only 3 present
    let buf = vec![0x05, 0x61, 0x62, 0x63];
    let err = Name::try_parse(&buf, 0).unwrap_err();
    assert_eq!(err, DnsError::NotEnoughData { requested: 5, available: 3 });
}

#[test]
fn decoding_stops_after_thirty_one_labels() {
    let mut buf: Vec<u8> = Vec::new();
    for _ in 0..40 {
        buf.push(0x01);
        buf.push(b'x');
    }
    buf.push(0x00);
    let (parsed, end) = Name::try_parse(&buf, 0).unwrap();
    assert_eq!(parsed.labels.len(), 31);
    assert_eq!(end, 62);
}

#[test]
fn duplicate_preserves_the_label_sequence() {
    let name = name_of(&[b"example", b"com"]);
    let copy = name.duplicate();
    assert_eq!(copy, name);
}
