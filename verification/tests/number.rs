use powdr::number::{log2_exact, BigUint};

fn big(v: u64) -> BigUint {
    BigUint::from_u64(v)
}

#[test]
fn log2_exact_function() {
    assert_eq!(log2_exact(&big(0)), None);
    assert_eq!(log2_exact(&big(1)), Some(0));
    assert_eq!(log2_exact(&big(2)), Some(1));
    assert_eq!(log2_exact(&big(4)), Some(2));
    let shifted = ibig::UBig::from(1u32) << 300usize;
    assert_eq!(log2_exact(&BigUint { bytes: shifted.to_le_bytes() }), Some(300));
    assert_eq!(log2_exact(&big(17)), None);
}

#[test]
fn log2_exact_with_trailing_zero_bytes() {
    // 2^8 written with extra zero bytes at the top.
    assert_eq!(log2_exact(&BigUint { bytes: vec![0, 1, 0, 0] }), Some(8));
    assert_eq!(log2_exact(&BigUint { bytes: vec![0, 0, 0] }), None);
    assert_eq!(log2_exact(&BigUint { bytes: vec![] }), None);
    assert_eq!(log2_exact(&big(1 << 63)), Some(63));
    assert_eq!(log2_exact(&big((1 << 63) + 1)), None);
    assert_eq!(log2_exact(&big(u64::MAX)), None);
}

#[test]
fn from_u64_bytes() {
    assert_eq!(big(0).bytes, Vec::<u8>::new());
    assert_eq!(big(0x0102).bytes, vec![2, 1]);
}
