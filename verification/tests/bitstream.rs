use haste::{BitReader, BitWriter, DemoError};

#[test]
fn round_trip_all_widths() {
    // every width from 1 to 32, with a value pattern that fits it
    for n in 1..=32u32 {
        let mask: u32 = if n == 32 { u32::MAX } else { (1u32 << n) - 1 };
        for &raw in &[0u32, 1, 0x5A5A_5A5A, 0xFFFF_FFFF, 0x8000_0001] {
            let v = raw & mask;
            let mut w = BitWriter::new();
            w.write_bits(v, n as usize).unwrap();
            let bytes = w.into_bytes();
            let mut r = BitReader::new(&bytes);
            assert_eq!(r.read_bits(n as usize).unwrap(), v);
        }
    }
}

#[test]
fn round_trip_mixed_widths_in_sequence() {
    let mut w = BitWriter::new();
    let fields: Vec<(u32, usize)> = (1..=32usize).map(|n| {
        let mask: u32 = if n == 32 { u32::MAX } else { (1u32 << n) - 1 };
        (0xDEAD_BEEFu32 & mask, n)
    }).collect();
    for &(v, n) in &fields {
        w.write_bits(v, n).unwrap();
    }
    let bytes = w.into_bytes();
    let mut r = BitReader::new(&bytes);
    for &(v, n) in &fields {
        assert_eq!(r.read_bits(n).unwrap(), v);
    }
}

#[test]
fn varint32_round_trip_sequence() {
    let values = [0u32, 1, 127, 128, 300, 16383, 16384, 1 << 21, u32::MAX];
    let mut w = BitWriter::new();
    for &v in &values {
        w.write_varint32(v).unwrap();
    }
    let bytes = w.into_bytes();
    let mut r = BitReader::new(&bytes);
    for &v in &values {
        assert_eq!(r.read_varint32().unwrap(), v);
    }
}

#[test]
fn varint32_known_bytes() {
    // 300 = 0b10_0101100: low seven bits 0b0101100 with the
    // continuation bit, then 0b10
    let bytes = vec![0xACu8, 0x02];
    let mut r = BitReader::new(&bytes);
    assert_eq!(r.read_varint32().unwrap(), 300);
}

#[test]
fn varint64_round_trip_via_bytes() {
    let values = [0u64, 127, 128, 300, 1 << 32, (1 << 40) + 5, u64::MAX];
    for &v in &values {
        // encode by hand, byte by byte
        let mut enc: Vec<u8> = Vec::new();
        let mut x = v;
        while x >= 128 {
            enc.push(((x & 0x7F) as u8) | 0x80);
            x >>= 7;
        }
        enc.push(x as u8);
        let mut w = BitWriter::new();
        w.write_bytes(&enc).unwrap();
        let bytes = w.into_bytes();
        let mut r = BitReader::new(&bytes);
        assert_eq!(r.read_varint64().unwrap(), v);
    }
}

#[test]
fn ubitvar_round_trip() {
    let values = [0u32, 15, 16, 255, 256, 4095, 4096, 123_456_789, u32::MAX];
    let mut w = BitWriter::new();
    for &v in &values {
        w.write_ubitvar(v).unwrap();
    }
    let bytes = w.into_bytes();
    let mut r = BitReader::new(&bytes);
    for &v in &values {
        assert_eq!(r.read_ubitvar().unwrap(), v);
    }
}

#[test]
fn reading_past_the_end_fails() {
    let bytes = vec![0xFFu8];
    let mut r = BitReader::new(&bytes);
    assert_eq!(r.read_bits(9), Err(DemoError::Truncated));
    // the failed read moved nothing: all eight bits are still there
    assert_eq!(r.read_bits(8).unwrap(), 0xFF);
    assert_eq!(r.read_bits(1), Err(DemoError::Truncated));
}

#[test]
fn truncated_varint_fails() {
    // a continuation bit with no byte after it
    let bytes = vec![0x80u8];
    let mut r = BitReader::new(&bytes);
    assert_eq!(r.read_varint32(), Err(DemoError::Truncated));
}

#[test]
fn oversized_varint_is_malformed() {
    // six continuation bytes exceed the 32-bit group limit
    let bytes = vec![0x80u8, 0x80, 0x80, 0x80, 0x80, 0x01];
    let mut r = BitReader::new(&bytes);
    assert_eq!(r.read_varint32(), Err(DemoError::MalformedVarint));
}

#[test]
fn read_bytes_is_exact() {
    let bytes = vec![1u8, 2, 3, 4];
    let mut r = BitReader::new(&bytes);
    let out = r.read_bytes(4).unwrap();
    assert_eq!(out, bytes);
    assert_eq!(r.read_bytes(1), Err(DemoError::Truncated));
}

#[test]
fn read_bytes_unaligned() {
    let mut w = BitWriter::new();
    w.write_bits(1, 3).unwrap();
    w.write_bytes(&vec![0xAB, 0xCD]).unwrap();
    let bytes = w.into_bytes();
    let mut r = BitReader::new(&bytes);
    assert_eq!(r.read_bits(3).unwrap(), 1);
    assert_eq!(r.read_bytes(2).unwrap(), vec![0xAB, 0xCD]);
}
