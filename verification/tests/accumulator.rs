use pasta_srs::{
    caml_pasta_fp_urs_b_poly_commitment, caml_pasta_fp_urs_batch_accumulator_check, caml_pasta_fp_urs_create,
    GroupElement, Scalar, Srs,
};

fn challenges(seed: u64, rounds: usize) -> Vec<Scalar> {
    (0..rounds as u64).map(|j| Scalar::from_u64(seed * 1000 + 17 * j + 2)).collect()
}

fn accumulator(srs: &Srs, chals: &[Scalar]) -> GroupElement {
    let c = caml_pasta_fp_urs_b_poly_commitment(srs, chals.to_vec()).unwrap();
    assert_eq!(c.chunks.len(), 1);
    c.chunks[0]
}

/// A batch of `k` accumulators of `rounds` challenges each.
fn batch(srs: &Srs, k: usize, rounds: usize) -> (Vec<GroupElement>, Vec<Scalar>) {
    let mut comms = Vec::new();
    let mut chals = Vec::new();
    for i in 0..k {
        let own = challenges(i as u64 + 1, rounds);
        comms.push(accumulator(srs, &own));
        chals.extend(own);
    }
    (comms, chals)
}

#[test]
fn the_empty_batch_passes() {
    let srs = caml_pasta_fp_urs_create(4).unwrap();
    assert!(caml_pasta_fp_urs_batch_accumulator_check(&srs, vec![], vec![]));
}

#[test]
fn challenges_without_commitments_fail() {
    let srs = caml_pasta_fp_urs_create(4).unwrap();
    assert!(!caml_pasta_fp_urs_batch_accumulator_check(&srs, vec![], challenges(1, 2)));
}

#[test]
fn a_batch_of_b_poly_commitments_passes() {
    let srs = caml_pasta_fp_urs_create(8).unwrap();
    for k in 1..4 {
        for rounds in 0..4 {
            let (comms, chals) = batch(&srs, k, rounds);
            assert!(caml_pasta_fp_urs_batch_accumulator_check(&srs, comms, chals));
        }
    }
}

#[test]
fn without_challenges_each_commitment_is_the_first_basis_point() {
    let srs = caml_pasta_fp_urs_create(4).unwrap();
    assert!(caml_pasta_fp_urs_batch_accumulator_check(&srs, vec![srs.g[0], srs.g[0]], vec![]));
    assert!(!caml_pasta_fp_urs_batch_accumulator_check(&srs, vec![srs.g[0], srs.g[1]], vec![]));
}

#[test]
fn a_changed_commitment_fails() {
    let srs = caml_pasta_fp_urs_create(8).unwrap();
    let (comms, chals) = batch(&srs, 3, 3);
    for j in 0..3 {
        let mut changed = comms.clone();
        changed[j] = srs.h;
        assert!(!caml_pasta_fp_urs_batch_accumulator_check(&srs, changed, chals.clone()));
        let mut changed = comms.clone();
        changed[j] = GroupElement::identity();
        assert!(!caml_pasta_fp_urs_batch_accumulator_check(&srs, changed, chals.clone()));
    }
    let mut swapped = comms.clone();
    swapped.swap(0, 2);
    assert!(!caml_pasta_fp_urs_batch_accumulator_check(&srs, swapped, chals));
}

#[test]
fn a_changed_challenge_fails() {
    let srs = caml_pasta_fp_urs_create(8).unwrap();
    let (comms, chals) = batch(&srs, 3, 3);
    for j in 0..chals.len() {
        let mut changed = chals.clone();
        changed[j] = Scalar::from_u64(changed[j].limbs[0] + 1);
        assert!(!caml_pasta_fp_urs_batch_accumulator_check(&srs, comms.clone(), changed));
    }
}

#[test]
fn challenges_that_do_not_divide_evenly_fail() {
    let srs = caml_pasta_fp_urs_create(8).unwrap();
    let (comms, mut chals) = batch(&srs, 2, 2);
    chals.push(Scalar::one());
    assert!(!caml_pasta_fp_urs_batch_accumulator_check(&srs, comms.clone(), chals.clone()));
    chals.pop();
    chals.pop();
    assert!(!caml_pasta_fp_urs_batch_accumulator_check(&srs, comms, chals));
}

#[test]
fn more_rounds_than_the_depth_holds_fail() {
    let srs = caml_pasta_fp_urs_create(4).unwrap();
    let large = caml_pasta_fp_urs_create(8).unwrap();
    let (comms, chals) = batch(&large, 2, 3);
    assert!(caml_pasta_fp_urs_batch_accumulator_check(&large, comms.clone(), chals.clone()));
    assert!(!caml_pasta_fp_urs_batch_accumulator_check(&srs, comms, chals));
    let many = vec![Scalar::one(); 200];
    assert!(!caml_pasta_fp_urs_batch_accumulator_check(&srs, vec![srs.g[0]], many));
}

#[test]
fn fewer_rounds_than_the_depth_holds_use_the_first_basis_points() {
    let small = caml_pasta_fp_urs_create(4).unwrap();
    let large = caml_pasta_fp_urs_create(16).unwrap();
    let (comms, chals) = batch(&small, 2, 2);
    assert!(caml_pasta_fp_urs_batch_accumulator_check(&large, comms, chals));
}
