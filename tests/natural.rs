use simplicity_core::bits::{BitReader, BitWriter};
use simplicity_core::natural::{decode_natural, encode_natural, NaturalDecodeError};

fn do_test(data: &[u8]) {
    let mut iter = BitReader::new(data.to_vec());

    if let Ok(natural) = decode_natural(&mut iter, None) {
        let bit_len = iter.n_total_read();

        let mut w = BitWriter::new();
        encode_natural(natural, &mut w);
        assert_eq!(w.n_total_written(), bit_len);
        let mut sink = w.into_bytes();

        // decoding may stop mid-byte: copy trailing bits from `data` to `sink`
        if bit_len % 8 != 0 {
            let mask = !(1u8 << (8 - (bit_len % 8)));
            let idx = sink.len() - 1;
            sink[idx] |= data[idx] & mask;
        }
        assert_eq!(sink, &data[0..sink.len()]);
    }
}

fn extend_vec_from_hex(hex: &str, out: &mut Vec<u8>) {
    let mut b = 0;
    for (idx, c) in hex.as_bytes().iter().enumerate() {
        b <<= 4;
        match *c {
            b'A'..=b'F' => b |= c - b'A' + 10,
            b'a'..=b'f' => b |= c - b'a' + 10,
            b'0'..=b'9' => b |= c - b'0',
            _ => panic!("Bad hex"),
        }
        if (idx & 1) == 1 {
            out.push(b);
            b = 0;
        }
    }
}

#[test]
fn duplicate_crash() {
    let mut a = Vec::new();
    extend_vec_from_hex("00", &mut a);
    do_test(&a);
}

fn encode(n: u64) -> (Vec<u8>, usize) {
    let mut w = BitWriter::new();
    encode_natural(n, &mut w);
    let len = w.n_total_written();
    (w.into_bytes(), len)
}

#[test]
fn small_codes() {
    assert_eq!(encode(1), (vec![0x00], 1));
    // 1, code(1) = 0, low bit of 2 = 0: 100
    assert_eq!(encode(2), (vec![0x80], 3));
    assert_eq!(encode(3), (vec![0xA0], 3));
    // 1, code(2) = 100, low bits of 4 = 00: 110000
    assert_eq!(encode(4), (vec![0xC0], 6));
    assert_eq!(encode(7), (vec![0xCC], 6));
}

#[test]
fn round_trip_many() {
    let mut values: Vec<u64> = (1..2000).collect();
    values.extend_from_slice(&[u32::MAX as u64, 1 << 40, u64::MAX - 1, u64::MAX]);
    for n in values {
        let (bytes, len) = encode(n);
        let mut r = BitReader::new(bytes);
        assert_eq!(decode_natural(&mut r, None), Ok(n));
        assert_eq!(r.n_total_read(), len);
    }
}

#[test]
fn decode_stops_mid_byte() {
    // code(1) then code(3): 0 101 ....
    let mut r = BitReader::new(vec![0b0101_0000]);
    assert_eq!(decode_natural(&mut r, None), Ok(1));
    assert_eq!(r.n_total_read(), 1);
    assert_eq!(decode_natural(&mut r, None), Ok(3));
    assert_eq!(r.n_total_read(), 4);
}

#[test]
fn end_of_input() {
    let mut r = BitReader::new(vec![]);
    assert_eq!(decode_natural(&mut r, None), Err(NaturalDecodeError::EndOfInput));
    let mut r = BitReader::new(vec![0xFF]);
    assert_eq!(decode_natural(&mut r, None), Err(NaturalDecodeError::EndOfInput));
    // 110000 is 4; cut after 5 bits it is incomplete.
    let mut r = BitReader::new(vec![0b1100_0000]);
    assert_eq!(decode_natural(&mut r, Some(100)), Ok(4));
}

#[test]
fn bound_exceeded() {
    let (bytes, _) = encode(5);
    let mut r = BitReader::new(bytes.clone());
    assert_eq!(decode_natural(&mut r, Some(4)), Err(NaturalDecodeError::BoundExceeded));
    let mut r = BitReader::new(bytes);
    assert_eq!(decode_natural(&mut r, Some(5)), Ok(5));
}

#[test]
fn too_wide_for_u64() {
    // 1110 then code 64 bits long for the inner length: the length 64 is
    // already too wide, whatever follows.
    // code(64): 1, code(6), 000000; code(6): 1, code(2), 10; code(2): 100.
    let mut w = BitWriter::new();
    w.write_bit(true);
    encode_natural(64, &mut w);
    for _ in 0..64 {
        w.write_bit(false);
    }
    let mut r = BitReader::new(w.into_bytes());
    assert_eq!(decode_natural(&mut r, None), Err(NaturalDecodeError::BoundExceeded));
}
