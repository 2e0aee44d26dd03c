use pasta_srs::evaluations::is_valid_domain_size;
use pasta_srs::{
    caml_pasta_fp_urs_commit_evaluations, caml_pasta_fp_urs_create, caml_pasta_fp_urs_lagrange_commitment,
    PolyComm, Scalar, SrsError,
};

const HALF: [u64; 4] = [0xcc96987680000001, 0x11234c7e04a67c8d, 0, 0x2000000000000000];
const MINUS_ONE: [u64; 4] = [0x992d30ed00000000, 0x224698fc094cf91b, 0, 0x4000000000000000];

fn indicator(n: usize, i: usize) -> Vec<Scalar> {
    (0..n).map(|j| if j == i { Scalar::one() } else { Scalar::zero() }).collect()
}

#[test]
fn domain_sizes_are_the_powers_of_two_up_to_two_to_the_32() {
    for k in 0..=32u32 {
        assert!(is_valid_domain_size(1isize << k));
    }
    for n in [0isize, -1, -2, -4, 3, 5, 6, 7, 12, 1000, (1 << 32) + 1, 1 << 33, 1 << 40, isize::MAX, isize::MIN] {
        assert!(!is_valid_domain_size(n));
    }
}

#[test]
fn lagrange_commitment_refuses_a_size_without_a_domain() {
    let srs = caml_pasta_fp_urs_create(4).unwrap();
    for n in [0isize, 3, 6, -4, 1 << 33] {
        assert_eq!(caml_pasta_fp_urs_lagrange_commitment(&srs, n, 0), Err(SrsError::ConfigError));
        assert_eq!(
            caml_pasta_fp_urs_commit_evaluations(&srs, n, vec![Scalar::one(); 3]),
            Err(SrsError::ConfigError)
        );
    }
}

#[test]
fn commit_evaluations_refuses_the_wrong_number_of_values() {
    let srs = caml_pasta_fp_urs_create(4).unwrap();
    assert_eq!(
        caml_pasta_fp_urs_commit_evaluations(&srs, 4, vec![Scalar::one(); 3]),
        Err(SrsError::ConfigError)
    );
    assert_eq!(
        caml_pasta_fp_urs_commit_evaluations(&srs, 4, vec![Scalar::one(); 5]),
        Err(SrsError::ConfigError)
    );
    assert_eq!(caml_pasta_fp_urs_commit_evaluations(&srs, 1, vec![]), Err(SrsError::ConfigError));
    assert!(caml_pasta_fp_urs_commit_evaluations(&srs, 4, vec![Scalar::one(); 4]).is_ok());
}

#[test]
fn the_lagrange_commitment_is_the_commitment_to_the_indicator() {
    for depth in [1isize, 4, 16] {
        let srs = caml_pasta_fp_urs_create(depth).unwrap();
        for n in [1usize, 2, 4, 8] {
            for i in 0..n {
                let direct = caml_pasta_fp_urs_lagrange_commitment(&srs, n as isize, i as isize).unwrap();
                let through =
                    caml_pasta_fp_urs_commit_evaluations(&srs, n as isize, indicator(n, i)).unwrap();
                assert_eq!(direct, through);
                assert!(!direct.chunks.is_empty());
            }
        }
    }
}

#[test]
fn on_the_domain_of_one_element_values_are_coefficients() {
    let srs = caml_pasta_fp_urs_create(4).unwrap();
    assert_eq!(
        caml_pasta_fp_urs_lagrange_commitment(&srs, 1, 0),
        Ok(PolyComm { chunks: vec![srs.g[0]] })
    );
    assert_eq!(
        caml_pasta_fp_urs_commit_evaluations(&srs, 1, vec![Scalar::from_u64(9)]),
        Ok(srs.commit_non_hiding(&vec![Scalar::from_u64(9)], None))
    );
}

#[test]
fn on_the_domain_of_two_elements_the_basis_polynomials_are_halves() {
    let srs = caml_pasta_fp_urs_create(4).unwrap();
    let half = Scalar::from_limbs(HALF).unwrap();
    let minus_half = Scalar::from_limbs([HALF[0] - 1, HALF[1], HALF[2], HALF[3]]).unwrap();
    assert_eq!(
        caml_pasta_fp_urs_lagrange_commitment(&srs, 2, 0),
        Ok(srs.commit_non_hiding(&vec![half, half], None))
    );
    assert_eq!(
        caml_pasta_fp_urs_lagrange_commitment(&srs, 2, 1),
        Ok(srs.commit_non_hiding(&vec![half, minus_half], None))
    );
}

#[test]
fn values_of_a_known_polynomial_commit_to_it() {
    let srs = caml_pasta_fp_urs_create(4).unwrap();
    let minus_one = Scalar::from_limbs(MINUS_ONE).unwrap();
    assert_eq!(
        caml_pasta_fp_urs_commit_evaluations(&srs, 2, vec![Scalar::one(), minus_one]),
        Ok(PolyComm { chunks: vec![srs.g[1]] })
    );
    assert_eq!(
        caml_pasta_fp_urs_commit_evaluations(&srs, 4, vec![Scalar::from_u64(7); 4]),
        Ok(srs.commit_non_hiding(&vec![Scalar::from_u64(7)], None))
    );
    assert_eq!(
        caml_pasta_fp_urs_commit_evaluations(&srs, 2, vec![Scalar::from_u64(5), Scalar::from_u64(3)]),
        Ok(srs.commit_non_hiding(&vec![Scalar::from_u64(4), Scalar::one()], None))
    );
}

#[test]
fn a_domain_larger_than_the_depth_gives_several_chunks() {
    let srs = caml_pasta_fp_urs_create(2).unwrap();
    let c = caml_pasta_fp_urs_lagrange_commitment(&srs, 8, 3).unwrap();
    assert_eq!(c.chunks.len(), 4);
}

#[test]
fn an_index_outside_the_domain_commits_to_zero() {
    let srs = caml_pasta_fp_urs_create(4).unwrap();
    let zero = caml_pasta_fp_urs_commit_evaluations(&srs, 4, vec![Scalar::zero(); 4]);
    assert_eq!(caml_pasta_fp_urs_lagrange_commitment(&srs, 4, 4), zero);
    assert_eq!(caml_pasta_fp_urs_lagrange_commitment(&srs, 4, -1), zero);
    assert_eq!(zero, Ok(PolyComm { chunks: vec![] }));
}
