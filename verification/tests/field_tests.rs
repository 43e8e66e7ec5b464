use fri::field::{Felt, FIELD_MODULUS};
use fri::fold::domain_generator;

#[test]
fn field_ops_exact_values() {
    assert_eq!(Felt::new(3).mul(Felt::new(5)).as_u64(), 15);
    assert_eq!(Felt::new(3).exp(5).as_u64(), 243);
    assert_eq!(Felt::new(FIELD_MODULUS).as_u64(), 0);
    assert_eq!(Felt::new(u64::MAX).as_u64(), u64::MAX - FIELD_MODULUS);
    // wrap-around at the modulus
    assert_eq!(Felt::new(FIELD_MODULUS - 1).add(Felt::one()).as_u64(), 0);
    assert_eq!(Felt::zero().sub(Felt::one()).as_u64(), FIELD_MODULUS - 1);
}

#[test]
fn field_inverse() {
    let a = Felt::new(7);
    assert_eq!(a.mul(a.inv()).as_u64(), 1);
    let b = Felt::new(123456789123456789);
    assert_eq!(b.inv().mul(b).as_u64(), 1);
}

#[test]
fn domain_generator_order() {
    // the generator of a size-8 domain has multiplicative order exactly 8
    let w = domain_generator(8);
    assert_eq!(w.exp(8).as_u64(), 1);
    assert_ne!(w.exp(4).as_u64(), 1);
    assert_ne!(w.exp(2).as_u64(), 1);
}
