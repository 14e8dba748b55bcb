use lz4_flex::block::dict::Dict;
use lz4_flex::block::hashtable::{get_hash4_at, HashTable};
use lz4_flex::block::vint::{decode_varint_slice, encode_varint_into};

#[test]
fn test_dict_simple() {
    let mut s = Vec::with_capacity(10);
    s.extend(&[5, 5, 5, 3, 3, 3, 3]);
    Dict::new(s);
}

#[test]
fn dict_pads_and_hashes() {
    let data: Vec<u8> = (0..100u32).map(|i| (i * 7 % 251) as u8).collect();
    let dict = Dict::new(data.clone());
    assert_eq!(dict.get_data().len(), 65567);
    assert_eq!(&dict.get_data()[..100], &data[..]);
    assert!(dict.get_data()[100..].iter().all(|&b| b == 0));
    // Position 95 is the last one put into the table (positions 0..96 are hashed).
    let h = get_hash4_at(&data, 95);
    assert_eq!(dict.get_hashtable().get_at(h), 95);
}

#[test]
fn dict_truncates_long_data() {
    let data = vec![1u8; 70000];
    let dict = Dict::new(data);
    assert_eq!(dict.get_data().len(), 65567);
    assert_eq!(dict.get_data()[65533], 1);
    assert_eq!(dict.get_data()[65534], 0);
}

#[test]
fn varint_encodings() {
    let cases: &[(u32, &[u8])] = &[
        (0, &[0]),
        (127, &[127]),
        (128, &[0x80, 0x01]),
        (300, &[0xAC, 0x02]),
        (16383, &[0xFF, 0x7F]),
        (16384, &[0x80, 0x80, 0x01]),
        ((1 << 21) - 1, &[0xFF, 0xFF, 0x7F]),
        (1 << 21, &[0x80, 0x80, 0x80, 0x01]),
        ((1 << 28) - 1, &[0xFF, 0xFF, 0xFF, 0x7F]),
        (1 << 28, &[0x80, 0x80, 0x80, 0x80, 0x01]),
        (u32::MAX, &[0xFF, 0xFF, 0xFF, 0xFF, 0x0F]),
    ];
    for &(value, bytes) in cases {
        let mut out = vec![9u8];
        let n = encode_varint_into(&mut out, value);
        assert_eq!(n as usize, bytes.len());
        assert_eq!(&out[1..], bytes);
        let mut pos = 1;
        assert_eq!(decode_varint_slice(&out, &mut pos), value);
        assert_eq!(pos, 1 + bytes.len());
    }
}

#[test]
fn varint_roundtrip_sequence() {
    let values = [5u32, 1000, 0, 123_456_789, u32::MAX, 77];
    let mut out = Vec::new();
    for &v in &values {
        encode_varint_into(&mut out, v);
    }
    let mut pos = 0;
    for &v in &values {
        assert_eq!(decode_varint_slice(&out, &mut pos), v);
    }
    assert_eq!(pos, out.len());
}

#[test]
fn varint_fifth_byte_keeps_low_bits() {
    // The fifth group only contributes its low four bits.
    let data = [0x80u8, 0x80, 0x80, 0x80, 0x7F];
    let mut pos = 0;
    assert_eq!(decode_varint_slice(&data, &mut pos), 0xF000_0000);
    assert_eq!(pos, 5);
}
