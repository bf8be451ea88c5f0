use simplicity_core::term::{read_scribed_value, TermDag};
use simplicity_core::value::{Value, ValueError};

#[test]
fn canonical_width_u8() {
    assert_eq!(Value::u8(0x4B).try_to_bytes(), Ok(vec![0x4B]));
}

#[test]
fn canonical_width_u16() {
    assert_eq!(Value::u16(300).try_to_bytes(), Ok(vec![0x01, 0x2C]));
}

#[test]
fn canonical_width_u32_u64() {
    assert_eq!(
        Value::u32(0xDEAD_BEEF).try_to_bytes(),
        Ok(vec![0xDE, 0xAD, 0xBE, 0xEF])
    );
    assert_eq!(
        Value::u64(0x0102_0304_0506_0708).try_to_bytes(),
        Ok(vec![1, 2, 3, 4, 5, 6, 7, 8])
    );
}

#[test]
fn range_enforcement() {
    assert_eq!(Value::u1(2), Err(ValueError::OutOfRange));
    assert_eq!(Value::u2(4), Err(ValueError::OutOfRange));
    assert_eq!(Value::u4(16), Err(ValueError::OutOfRange));
    assert_eq!(Value::u1(255), Err(ValueError::OutOfRange));
}

#[test]
fn small_widths_in_range() {
    assert_eq!(Value::u1(0), Ok(Value::sum_l(Value::Unit)));
    assert_eq!(Value::u1(1), Ok(Value::sum_r(Value::Unit)));
    assert_eq!(
        Value::u2(2),
        Ok(Value::prod(Value::sum_r(Value::Unit), Value::sum_l(Value::Unit)))
    );
    let v = Value::u4(15).unwrap();
    assert_eq!(v.to_bytes_len(), (vec![0xF0], 4));
}

#[test]
fn not_byte_aligned() {
    let v = Value::u1(1).unwrap();
    assert_eq!(v.try_to_bytes(), Err(ValueError::NotByteAligned));
    assert_eq!(v.to_bytes_len(), (vec![0x80], 1));
    let w = Value::u2(3).unwrap();
    assert_eq!(w.try_to_bytes(), Err(ValueError::NotByteAligned));
}

#[test]
fn unit_encodes_to_nothing() {
    assert_eq!(Value::Unit.len(), 0);
    assert_eq!(Value::Unit.to_bytes_len(), (vec![], 0));
    assert_eq!(Value::Unit.try_to_bytes(), Ok(vec![]));
}

#[test]
fn bit_length_matches_encoding() {
    let values = vec![
        Value::Unit,
        Value::u1(1).unwrap(),
        Value::u4(9).unwrap(),
        Value::u8(200),
        Value::u16(0xABCD),
        Value::prod(Value::sum_l(Value::u8(7)), Value::sum_r(Value::Unit)),
        Value::sum_r(Value::sum_r(Value::sum_l(Value::Unit))),
    ];
    let expected = [0usize, 1, 4, 8, 16, 10, 3];
    for (v, e) in values.iter().zip(expected.iter()) {
        assert_eq!(v.len(), *e);
        assert_eq!(v.to_bytes_len().1, *e);
    }
}

#[test]
fn preorder_packing() {
    // SumR(Prod(SumL(Unit), SumR(Unit))) gives bits 1 0 1.
    let v = Value::sum_r(Value::prod(
        Value::sum_l(Value::Unit),
        Value::sum_r(Value::Unit),
    ));
    assert_eq!(v.to_bytes_len(), (vec![0xA0], 3));
}

#[test]
fn deep_value_does_not_overflow_stack() {
    let mut v = Value::Unit;
    for _ in 0..100_000 {
        v = Value::sum_r(v);
    }
    let (bytes, n) = v.to_bytes_len();
    assert_eq!(n, 100_000);
    assert_eq!(bytes.len(), 12_500);
    assert!(bytes.iter().all(|b| *b == 0xFF));
    std::mem::forget(v);
}

#[test]
fn u256_end_to_end() {
    let v = Value::u256_from_slice(&[0x00; 32]);
    assert_eq!(v.len(), 256);
    assert_eq!(v.try_to_bytes(), Ok(vec![0u8; 32]));
}

#[test]
fn u256_and_u512_round_bytes() {
    let bytes: Vec<u8> = (0u8..64).collect();
    let v = Value::u256_from_slice(&bytes[0..32]);
    assert_eq!(v.try_to_bytes(), Ok(bytes[0..32].to_vec()));
    let w = Value::u512_from_slice(&bytes);
    assert_eq!(w.len(), 512);
    assert_eq!(w.try_to_bytes(), Ok(bytes.clone()));
}

#[test]
fn display_forms() {
    assert_eq!(Value::Unit.to_string(), "ε");
    assert_eq!(Value::u1(0).unwrap().to_string(), "0");
    assert_eq!(Value::u2(2).unwrap().to_string(), "(1,0)");
    assert_eq!(Value::sum_l(Value::sum_r(Value::Unit)).to_string(), "01");
    assert_eq!(Value::prod(Value::Unit, Value::Unit).to_string(), "(ε,ε)");
}

#[test]
fn read_scribe() {
    let t = TermDag::Pair(
        Box::new(TermDag::InjL(Box::new(TermDag::Unit))),
        Box::new(TermDag::InjR(Box::new(TermDag::Unit))),
    );
    assert_eq!(
        read_scribed_value(&t),
        Some(Value::prod(Value::sum_l(Value::Unit), Value::sum_r(Value::Unit)))
    );
    assert_eq!(read_scribed_value(&TermDag::Unit), Some(Value::Unit));
}

#[test]
fn read_scribe_rejects_other_terms() {
    assert_eq!(read_scribed_value(&TermDag::Iden), None);
    let t = TermDag::InjL(Box::new(TermDag::Pair(
        Box::new(TermDag::Unit),
        Box::new(TermDag::Witness),
    )));
    assert_eq!(read_scribed_value(&t), None);
}

#[test]
fn clone_keeps_structure() {
    let v = Value::prod(Value::u8(9), Value::sum_l(Value::u2(1).unwrap()));
    let w = v.clone();
    assert_eq!(v, w);
    assert_eq!(w.to_bytes_len(), v.to_bytes_len());
}

#[test]
fn values_are_ordered_and_hashable() {
    let mut set = std::collections::HashSet::new();
    set.insert(Value::u8(1));
    set.insert(Value::u8(1));
    set.insert(Value::u8(2));
    assert_eq!(set.len(), 2);
    assert!(Value::Unit < Value::sum_l(Value::Unit));
}
