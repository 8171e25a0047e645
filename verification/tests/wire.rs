//! The proto wire format.

use scry3::wire::{
    read_field, read_varint_at, skip_proto_field, write_tag_len, write_varint, WireError,
};

#[test]
fn varints_as_bytes() {
    for (v, want) in [
        (0u64, vec![0u8]),
        (1, vec![1]),
        (127, vec![127]),
        (128, vec![0x80, 1]),
        (300, vec![0xac, 2]),
    ] {
        let mut out = Vec::new();
        write_varint(v, &mut out);
        assert_eq!(out, want);
    }
}

#[test]
fn varints_read_back() {
    for v in [0u64, 1, 127, 128, 16383, 16384, u32::MAX as u64, u64::MAX] {
        let mut out = vec![9u8];
        write_varint(v, &mut out);
        assert_eq!(read_varint_at(&out, 1), Ok((v, out.len())));
    }
}

#[test]
fn broken_varints() {
    assert_eq!(read_varint_at(&[], 0), Err(WireError::TruncatedVarint { at: 0 }));
    assert!(matches!(read_varint_at(&[0x80, 0x80], 0), Err(WireError::TruncatedVarint { .. })));
    assert_eq!(read_varint_at(&[0x80; 11], 0), Err(WireError::VarintTooLong));
}

#[test]
fn fields_read_back() {
    let mut out = Vec::new();
    write_tag_len(6, b"abc", &mut out);
    assert_eq!(out, vec![0x32, 3, b'a', b'b', b'c']);
    assert_eq!(read_field(&out, 0, None), Ok((6, 2, 2, 5)));
    let mut out = Vec::new();
    write_tag_len(100, &[7; 200], &mut out);
    assert_eq!(out[..4], [0xa2, 0x06, 0xc8, 0x01]);
    assert_eq!(read_field(&out, 0, None), Ok((100, 2, 4, 204)));
}

#[test]
fn a_length_past_the_end() {
    assert_eq!(read_field(&[0x32, 9], 0, None), Err(WireError::TruncatedField { at: 2 }));
    let mut out = vec![0x32];
    write_varint(u64::MAX, &mut out);
    assert_eq!(read_field(&out, 0, None), Err(WireError::LengthOverflow));
}

#[test]
fn skipping_a_field() {
    assert_eq!(skip_proto_field(&[0x96, 1, 7], 0, 0), Some(2));
    assert_eq!(skip_proto_field(&[0; 9], 1, 1), Some(9));
    assert_eq!(skip_proto_field(&[2, 1, 1, 5], 0, 2), Some(3));
    assert_eq!(skip_proto_field(&[0; 4], 0, 5), Some(4));
    assert_eq!(skip_proto_field(&[0; 3], 0, 5), None);
    assert_eq!(skip_proto_field(&[0; 9], 0, 3), None);
}

#[test]
fn fields_of_other_wire_types() {
    let refused = |bytes: &[u8], wire: u8| {
        assert_eq!(
            read_field(bytes, 0, None),
            Err(WireError::WireType { wire, field: 6, at: 1 })
        );
    };
    refused(&[0x30, 9], 0);
    refused(&[0x31, 1, 2, 3, 4, 5, 6, 7, 8], 1);
    refused(&[0x33], 3);
    refused(&[0x35, 1, 2, 3, 4], 5);
    // The one field that may be a varint.
    assert_eq!(read_field(&[0x30, 9], 0, Some(6)), Ok((6, 0, 1, 2)));
    assert_eq!(read_field(&[0x32, 1, 9], 0, Some(6)), Ok((6, 2, 2, 3)));
    assert!(read_field(&[0x30, 9], 0, Some(5)).is_err());
    assert!(read_field(&[0x35, 1, 2, 3, 4], 0, Some(6)).is_err());
    assert!(matches!(read_field(&[0x30, 0x80], 0, Some(6)), Err(WireError::TruncatedVarint { .. })));
}
