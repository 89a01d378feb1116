use ergvein_filters::bits::{BitCursor, BitWriter};
use ergvein_filters::golomb::{golomb_rice_decode, golomb_rice_encode};
use ergvein_filters::varint::{varint_decode, varint_encode};

fn roundtrip(v: u64, p: u8) -> u64 {
    let mut w = BitWriter::new();
    golomb_rice_encode(&mut w, v, p);
    let bytes = w.finish();
    let mut cur = BitCursor::new();
    golomb_rice_decode(&mut cur, bytes.as_slice(), p).expect("decode failed")
}

#[test]
fn golomb_roundtrip_small_values() {
    for v in 0u64..200 {
        assert_eq!(roundtrip(v, 19), v);
    }
}

#[test]
fn golomb_roundtrip_large_values() {
    // the unary quotient grows as v >> 19, so values stay below a few
    // billion to keep the runs short
    let vals = [
        0u64,
        1,
        784930,
        784931,
        1 << 19,
        (1 << 19) - 1,
        (1 << 19) + 1,
        123_456_789,
        u32::MAX as u64,
        (1 << 33) + 98765,
    ];
    for &v in vals.iter() {
        assert_eq!(roundtrip(v, 19), v);
    }
}

#[test]
fn golomb_roundtrip_other_widths() {
    for &p in [1u8, 2, 8, 31, 63].iter() {
        for &v in [0u64, 1, 2, 127, 255, 1023, 99999].iter() {
            assert_eq!(roundtrip(v, p), v);
        }
    }
}

#[test]
fn golomb_concatenated_codes() {
    // several codes written back to back decode in order
    let vals = [5u64, 0, 784931, 17, 1 << 30];
    let mut w = BitWriter::new();
    for &v in vals.iter() {
        golomb_rice_encode(&mut w, v, 19);
    }
    let bytes = w.finish();
    let mut cur = BitCursor::new();
    for &v in vals.iter() {
        assert_eq!(golomb_rice_decode(&mut cur, bytes.as_slice(), 19), Some(v));
    }
}

#[test]
fn golomb_decode_empty_is_corrupt() {
    let bytes: Vec<u8> = Vec::new();
    let mut cur = BitCursor::new();
    assert_eq!(golomb_rice_decode(&mut cur, bytes.as_slice(), 19), None);
}

#[test]
fn golomb_decode_unterminated_run_is_corrupt() {
    // all one bits: the unary run never ends
    let bytes = vec![0xffu8, 0xff, 0xff];
    let mut cur = BitCursor::new();
    assert_eq!(golomb_rice_decode(&mut cur, bytes.as_slice(), 19), None);
}

#[test]
fn varint_roundtrip() {
    let vals = [
        0u64,
        1,
        0xFC,
        0xFD,
        0xFFFF,
        0x10000,
        0xFFFF_FFFF,
        0x1_0000_0000,
        u64::MAX,
    ];
    for &v in vals.iter() {
        let enc = varint_encode(v);
        let dec = varint_decode(enc.as_slice());
        assert_eq!(dec, Some((v, enc.len())));
    }
}

#[test]
fn varint_sizes() {
    assert_eq!(varint_encode(0).len(), 1);
    assert_eq!(varint_encode(0xFC).len(), 1);
    assert_eq!(varint_encode(0xFD).len(), 3);
    assert_eq!(varint_encode(0xFFFF).len(), 3);
    assert_eq!(varint_encode(0x10000).len(), 5);
    assert_eq!(varint_encode(0xFFFF_FFFF).len(), 5);
    assert_eq!(varint_encode(0x1_0000_0000).len(), 9);
}

#[test]
fn varint_rejects_non_minimal() {
    // 0x10 encoded in the three-byte form
    assert_eq!(varint_decode(&[0xFD, 0x10, 0x00]), None);
    // 0xFFFF encoded in the five-byte form
    assert_eq!(varint_decode(&[0xFE, 0xFF, 0xFF, 0x00, 0x00]), None);
}

#[test]
fn varint_rejects_truncated() {
    assert_eq!(varint_decode(&[]), None);
    assert_eq!(varint_decode(&[0xFD, 0x01]), None);
    assert_eq!(varint_decode(&[0xFE, 0x01, 0x02, 0x03]), None);
    assert_eq!(varint_decode(&[0xFF, 0x01, 0x02, 0x03, 0x04, 0x05, 0x06, 0x07]), None);
}
