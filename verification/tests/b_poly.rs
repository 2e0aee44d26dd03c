use pasta_srs::{b_poly_coefficients, caml_pasta_fp_urs_b_poly_commitment, caml_pasta_fp_urs_create, Scalar};

const MINUS_ONE: [u64; 4] = [0x992d30ed00000000, 0x224698fc094cf91b, 0, 0x4000000000000000];

fn small(values: &[u64]) -> Vec<Scalar> {
    values.iter().map(|v| Scalar::from_u64(*v)).collect()
}

#[test]
fn no_challenges_give_the_constant_one() {
    assert_eq!(b_poly_coefficients(&vec![]), small(&[1]));
}

#[test]
fn one_challenge_gives_two_coefficients() {
    assert_eq!(b_poly_coefficients(&small(&[7])), small(&[1, 7]));
}

#[test]
fn two_challenges_give_four_coefficients() {
    assert_eq!(b_poly_coefficients(&small(&[3, 5])), small(&[1, 5, 3, 15]));
}

#[test]
fn three_challenges_give_eight_coefficients() {
    assert_eq!(
        b_poly_coefficients(&small(&[2, 3, 5])),
        small(&[1, 5, 3, 15, 2, 10, 6, 30])
    );
}

#[test]
fn b_poly_length_is_two_to_the_number_of_challenges() {
    for k in 0..8usize {
        let chals: Vec<Scalar> = (0..k as u64).map(|j| Scalar::from_u64(j + 2)).collect();
        assert_eq!(b_poly_coefficients(&chals).len(), 1 << k);
    }
}

#[test]
fn b_poly_products_are_reduced() {
    let minus_one = Scalar::from_limbs(MINUS_ONE).unwrap();
    let s = b_poly_coefficients(&vec![minus_one, minus_one]);
    assert_eq!(s, vec![Scalar::one(), minus_one, minus_one, Scalar::one()]);
    let s = b_poly_coefficients(&vec![minus_one, Scalar::from_u64(2)]);
    let minus_two = Scalar::from_limbs([MINUS_ONE[0] - 1, MINUS_ONE[1], MINUS_ONE[2], MINUS_ONE[3]]).unwrap();
    assert_eq!(s, vec![Scalar::one(), Scalar::from_u64(2), minus_one, minus_two]);
}

#[test]
fn a_zero_challenge_clears_its_half() {
    assert_eq!(b_poly_coefficients(&small(&[0, 5])), small(&[1, 5, 0, 0]));
}

#[test]
fn b_poly_commitment_commits_to_the_coefficients() {
    let srs = caml_pasta_fp_urs_create(4).unwrap();
    for k in 0..4usize {
        let chals: Vec<Scalar> = (0..k as u64).map(|j| Scalar::from_u64(3 * j + 2)).collect();
        let coeffs = b_poly_coefficients(&chals);
        assert_eq!(coeffs.len(), 1 << k);
        let direct = srs.commit_non_hiding(&coeffs, None);
        let through = caml_pasta_fp_urs_b_poly_commitment(&srs, chals).unwrap();
        assert_eq!(direct, through);
        assert_eq!(through.chunks.len(), if k == 3 { 2 } else { 1 });
    }
}

#[test]
fn too_many_challenges_are_a_config_error() {
    let srs = caml_pasta_fp_urs_create(1).unwrap();
    let chals = vec![Scalar::one(); usize::BITS as usize];
    assert_eq!(
        caml_pasta_fp_urs_b_poly_commitment(&srs, chals),
        Err(pasta_srs::SrsError::ConfigError)
    );
}
