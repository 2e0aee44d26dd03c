use pasta_srs::field::{limbs_equal, limbs_less_than, Scalar};

const ORDER: [u64; 4] = [0x992d30ed00000001, 0x224698fc094cf91b, 0, 0x4000000000000000];
const ORDER_MINUS_ONE: [u64; 4] = [0x992d30ed00000000, 0x224698fc094cf91b, 0, 0x4000000000000000];

#[test]
fn scalar_from_limbs_rejects_the_field_order() {
    assert!(Scalar::from_limbs(ORDER).is_none());
    assert!(Scalar::from_limbs([u64::MAX; 4]).is_none());
    assert!(Scalar::from_limbs([0, 0, 1, 0x4000000000000000]).is_none());
}

#[test]
fn scalar_from_limbs_keeps_reduced_limbs() {
    assert_eq!(Scalar::from_limbs(ORDER_MINUS_ONE).unwrap().limbs, ORDER_MINUS_ONE);
    assert_eq!(Scalar::from_limbs([0; 4]).unwrap(), Scalar::zero());
    assert_eq!(Scalar::from_limbs([u64::MAX, u64::MAX, u64::MAX, 0x3fffffffffffffff]).unwrap().limbs[3], 0x3fffffffffffffff);
}

#[test]
fn scalar_from_u64_fills_the_lowest_limb() {
    assert_eq!(Scalar::from_u64(7).limbs, [7, 0, 0, 0]);
    assert_eq!(Scalar::one().limbs, [1, 0, 0, 0]);
    assert_eq!(Scalar::zero().limbs, [0, 0, 0, 0]);
    assert!(Scalar::from_u64(u64::MAX).is_valid());
}

#[test]
fn scalar_is_valid_tells_reduced_limbs() {
    assert!(Scalar { limbs: ORDER_MINUS_ONE }.is_valid());
    assert!(!Scalar { limbs: ORDER }.is_valid());
}

#[test]
fn scalar_equals_compares_all_limbs() {
    let a = Scalar::from_limbs([1, 2, 3, 4]).unwrap();
    assert!(a.equals(&Scalar::from_limbs([1, 2, 3, 4]).unwrap()));
    assert!(!a.equals(&Scalar::from_limbs([1, 2, 3, 5]).unwrap()));
    assert!(!a.equals(&Scalar::from_limbs([0, 2, 3, 4]).unwrap()));
}

#[test]
fn limbs_are_compared_from_the_highest_down() {
    assert!(limbs_less_than(&[9, 9, 9, 1], &[0, 0, 0, 2]));
    assert!(!limbs_less_than(&[0, 0, 0, 2], &[9, 9, 9, 1]));
    assert!(limbs_less_than(&[1, 5, 0, 0], &[2, 5, 0, 0]));
    assert!(!limbs_less_than(&[2, 5, 0, 0], &[2, 5, 0, 0]));
    assert!(limbs_equal(&[2, 5, 0, 0], &[2, 5, 0, 0]));
    assert!(!limbs_equal(&[2, 5, 0, 0], &[2, 5, 0, 1]));
}
