use big_uint::BigUint;

#[test]
fn init() {
    let int = BigUint::new();
    assert_eq!(int.limbs, vec![]);

    let int = BigUint::from(0x12345678);
    assert_eq!(int.limbs, vec![0x12345678]);

    let int = BigUint::from_limbs(&[0x1234, 5678]);
    assert_eq!(int.limbs, vec![0x1234, 5678]);
}

#[test]
fn add_and_sub() {
    let a = BigUint::from_limbs(&[0xfedcba9876543210, 0xffffffffffffffff]);
    let b = BigUint::from_limbs(&[0x2234567898765432]);
    let sum = &a + &b;
    assert_eq!(sum.limbs, &[0x211111110ECA8642, 0x0000000000000000, 1]);
    assert_eq!((&sum - &b).limbs, a.limbs);
    assert_eq!((&sum - &a).limbs, b.limbs);

    let a = BigUint::from_limbs(&[0x2234567898765432]);
    let b = BigUint::from_limbs(&[0xfedcba9876543210, 0xffffffffffffffff]);
    let sum = &a + &b;
    assert_eq!(sum.limbs, &[0x211111110ECA8642, 0x0000000000000000, 1]);
    assert_eq!((&sum - &b).limbs, a.limbs);
    assert_eq!((&sum - &a).limbs, b.limbs);
}

#[test]
fn zero_from_word_keeps_its_limb() {
    let empty = BigUint::new();
    let one_limb = BigUint::from(0);
    assert_eq!(empty.limbs, Vec::<u64>::new());
    assert_eq!(one_limb.limbs, vec![0]);
    assert_ne!(empty.limbs, one_limb.limbs);
}

#[test]
fn sum_of_zeros_is_canonical_zero() {
    let sum = BigUint::from(0) + BigUint::from(0);
    assert_eq!(sum.limbs, Vec::<u64>::new());
}

#[test]
fn carry_runs_through_every_limb() {
    let a = BigUint::from_limbs(&[u64::MAX, u64::MAX, u64::MAX]);
    let b = BigUint::from(1);
    assert_eq!((&a + &b).limbs, vec![0, 0, 0, 1]);
    assert_eq!((&b + &a).limbs, vec![0, 0, 0, 1]);
}

#[test]
fn borrow_runs_through_every_limb() {
    let a = BigUint::from_limbs(&[0, 0, 1]);
    let b = BigUint::from(1);
    assert_eq!((&a - &b).limbs, vec![u64::MAX, u64::MAX]);
}

#[test]
fn difference_of_equal_values_is_empty() {
    let a = BigUint::from_limbs(&[7, 9]);
    let b = BigUint::from_limbs(&[7, 9, 0]);
    assert_eq!((&a - &b).limbs, Vec::<u64>::new());
}

#[test]
fn addition_commutes() {
    let a = BigUint::from_limbs(&[3, u64::MAX]);
    let b = BigUint::from_limbs(&[u64::MAX - 2, 5, 8]);
    assert_eq!((&a + &b).limbs, (&b + &a).limbs);
    assert_eq!((&a + &b).limbs, vec![0, 5, 9]);
}

#[test]
fn subtraction_undoes_addition() {
    let a = BigUint::from_limbs(&[11, 22, 33]);
    let b = BigUint::from_limbs(&[u64::MAX, u64::MAX]);
    let sum = &a + &b;
    assert_eq!(sum.limbs, vec![10, 22, 34]);
    assert_eq!((&sum - &b).limbs, a.limbs);
    assert_eq!((&sum - &a).limbs, b.limbs);
}

#[test]
fn normalizing_twice_changes_nothing() {
    let a = BigUint::from_limbs(&[5, 0, 0]);
    let once = a + BigUint::new();
    assert_eq!(once.limbs, vec![5]);
    let twice = &once + &BigUint::new();
    assert_eq!(twice.limbs, once.limbs);
}

#[test]
fn consuming_forms_match_borrowing_forms() {
    let a = BigUint::from_limbs(&[1, 2]);
    let b = BigUint::from_limbs(&[3]);
    let by_ref = &a + &b;
    let by_value = BigUint::from_limbs(&[1, 2]) + BigUint::from_limbs(&[3]);
    assert_eq!(by_ref.limbs, by_value.limbs);
    let diff = by_value - BigUint::from_limbs(&[1, 2]);
    assert_eq!(diff.limbs, vec![3]);
}
