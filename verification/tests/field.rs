use tensorcode::field::{Field, Ft127, Ft32};

#[test]
fn ft32_add_wraps_at_modulus() {
    let a = Ft32::from_word(2147483646);
    let b = Ft32::from_word(5);
    assert_eq!(a.add(b), Ft32::from_word(4));
}

#[test]
fn ft32_sub_wraps_below_zero() {
    let a = Ft32::from_word(5);
    let b = Ft32::from_word(9);
    assert_eq!(a.sub(b), Ft32::from_word(2147483643));
}

#[test]
fn ft32_mul_known_value() {
    let a = Ft32::from_word(123456789);
    let b = Ft32::from_word(987654321);
    assert_eq!(a.mul(b), Ft32::from_word(2137109934));
}

#[test]
fn ft32_from_word_reduces() {
    // 2^32 - 1 = 2 * (2^31 - 1) + 1, so it reduces to 1
    assert_eq!(Ft32::from_word(u32::MAX as u64), Ft32::from_word(1));
}

#[test]
fn ft32_nonzero_from_word_is_nonzero() {
    let z = Ft32::from_word(0);
    for w in [0u64, 1, 2146435072, u64::MAX] {
        assert!(Ft32::nonzero_from_word(w) != z);
    }
}

#[test]
fn ft32_repr_is_little_endian_and_eight_bytes() {
    let a = Ft32::from_word(0x01020304);
    let r = a.repr_bytes();
    assert_eq!(r, vec![0x04, 0x03, 0x02, 0x01, 0, 0, 0, 0]);
}

#[test]
fn ft127_mul_known_value() {
    // (2^63 + 11) * (2^64 - 1) mod p, computed independently
    let a = Ft127::from_word(1u64 << 63).add(Ft127::from_word(11));
    let b = Ft127::from_word(u64::MAX);
    let expected_lo = 23317295096408778917017374282968203252u128;
    // compare via the canonical byte representation
    let mut expected_bytes = Vec::new();
    let mut v = expected_lo;
    for _ in 0..16 {
        expected_bytes.push((v % 256) as u8);
        v /= 256;
    }
    assert_eq!(a.mul(b).repr_bytes(), expected_bytes);
}

#[test]
fn ft127_add_and_sub_roundtrip() {
    let a = Ft127::from_word(77777777777);
    let b = Ft127::from_word(123456789123456789);
    assert_eq!(a.add(b).sub(b), a);
    assert_eq!(a.sub(b).add(b), a);
}

#[test]
fn ft127_zero_one_identities() {
    let a = Ft127::from_word(424242424242);
    assert_eq!(a.add(Ft127::zero()), a);
    assert_eq!(a.mul(Ft127::one()), a);
    assert_eq!(a.mul(Ft127::zero()), Ft127::zero());
}

#[test]
fn ft32_eq_elt_matches_equality() {
    let a = Ft32::from_word(12345);
    let b = Ft32::from_word(12345);
    let c = Ft32::from_word(54321);
    assert!(a.eq_elt(b));
    assert!(!a.eq_elt(c));
}
