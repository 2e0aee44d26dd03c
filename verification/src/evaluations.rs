//! Commitments to polynomials given by their values on an evaluation
//! domain.
//!
//! An evaluation domain is the group of the roots of unity of some order
//! in the scalar field. The library takes those of an order that is a
//! power of two, up to `2^32`: the scalar field has a root of unity of
//! order `2^32` and none of order `2^33`.

use crate::commitment::{commitment, result_view, PolyComm};
use crate::error::SrsError;
use crate::field::{scalar_values, scalars_wf, Scalar};
use crate::group::point_views;
use crate::srs::Srs;
use ark_ff::{BigInteger256, PrimeField};
use ark_poly::{EvaluationDomain, Evaluations, GeneralEvaluationDomain};
use ark_vesta::Fr;
use vstd::arithmetic::power2::{lemma_pow2_strictly_increases, lemma_pow2_unfold, pow2};
use vstd::prelude::*;

verus! {

/// The logarithm of the largest domain size.
pub const MAX_LOG_DOMAIN_SIZE: u64 = 32;

/// There is an evaluation domain of `n` elements.
pub open spec fn valid_domain_size(n: int) -> bool {
    exists|k: nat| k <= MAX_LOG_DOMAIN_SIZE && n == #[trigger] pow2(k)
}

/// Whether there is an evaluation domain of `n` elements.
pub fn is_valid_domain_size(n: isize) -> (r: bool)
    ensures
        r == valid_domain_size(n as int),
{
    proof {
        vstd::arithmetic::power2::lemma2_to64();
    }
    if n <= 0 {
        proof {
            assert forall|k: nat| n != #[trigger] pow2(k) by {
                vstd::arithmetic::power2::lemma_pow2_pos(k);
            }
        }
        return false;
    }
    let m = n as u64;
    let mut p: u64 = 1;
    let mut k: u64 = 0;
    while k < MAX_LOG_DOMAIN_SIZE
        invariant
            k <= MAX_LOG_DOMAIN_SIZE,
            p == pow2(k as nat),
            p <= 0x1_0000_0000,
            m == n,
            forall|j: nat| j < k ==> n != #[trigger] pow2(j),
        decreases MAX_LOG_DOMAIN_SIZE - k,
    {
        if m == p {
            return true;
        }
        proof {
            vstd::arithmetic::power2::lemma2_to64();
            lemma_pow2_unfold((k + 1) as nat);
            if k + 1 < MAX_LOG_DOMAIN_SIZE {
                lemma_pow2_strictly_increases((k + 1) as nat, MAX_LOG_DOMAIN_SIZE as nat);
            }
        }
        p = p * 2;
        k = k + 1;
    }
    m == p
}

/// The coefficients, lowest degree first and without zeros at the upper
/// end, of the polynomial of degree below `evals.len()` that takes the
/// value `evals[j]` at the `j`-th power of the generator of the domain of
/// `evals.len()` elements, as `ark_poly` computes them.
pub uninterp spec fn interpolation(evals: Seq<nat>) -> Seq<nat>;

/// The polynomial that takes the given values on the domain of their
/// number.
///
/// Calls `GeneralEvaluationDomain::new` for the domain, which exists for
/// the sizes that the contract admits, and `Evaluations::interpolate`. The
/// contract names the result after the values and says that the
/// coefficients are canonical.
#[verifier::external_body]
pub(crate) fn interpolate(evals: &Vec<Scalar>) -> (r: Vec<Scalar>)
    requires
        valid_domain_size(evals.len() as int),
        scalars_wf(evals@),
    ensures
        scalars_wf(r@),
        scalar_values(r@) == interpolation(scalar_values(evals@)),
{
    let domain = GeneralEvaluationDomain::<Fr>::new(evals.len()).unwrap();
    let values: Vec<Fr> = evals.iter().map(|s| Fr::from_repr(BigInteger256(s.limbs)).unwrap()).collect();
    let p = Evaluations::from_vec_and_domain(values, domain).interpolate();
    p.coeffs.iter().map(|c| Scalar { limbs: c.into_repr().0 }).collect()
}

/// The values of the `i`-th Lagrange basis polynomial on a domain of `n`
/// elements: one at position `i`, zero elsewhere.
pub open spec fn indicator(n: nat, i: int) -> Seq<nat> {
    Seq::new(n, |j: int| if j == i { 1nat } else { 0nat })
}

/// What committing to the values `evals` on a domain of `domain_size`
/// elements gives.
pub open spec fn evaluations_commitment(
    basis: Seq<Option<(nat, nat)>>,
    domain_size: int,
    evals: Seq<nat>,
) -> Result<Seq<Option<(nat, nat)>>, SrsError> {
    if valid_domain_size(domain_size) && evals.len() == domain_size {
        Ok(commitment(basis, interpolation(evals)))
    } else {
        Err(SrsError::ConfigError)
    }
}

/// What committing to the `i`-th Lagrange basis polynomial of a domain of
/// `domain_size` elements gives.
pub open spec fn lagrange_commitment(basis: Seq<Option<(nat, nat)>>, domain_size: int, i: int) -> Result<
    Seq<Option<(nat, nat)>>,
    SrsError,
> {
    if valid_domain_size(domain_size) {
        Ok(commitment(basis, interpolation(indicator(domain_size as nat, i))))
    } else {
        Err(SrsError::ConfigError)
    }
}

/// Committing to the values of a Lagrange basis polynomial is committing
/// to that polynomial: for every domain size and every index, the
/// commitment to the indicator of the index is the Lagrange commitment at
/// the index. For a size without a domain both fail alike.
pub proof fn lemma_lagrange_commitment_is_commitment_to_indicator(
    basis: Seq<Option<(nat, nat)>>,
    domain_size: int,
    i: int,
)
    ensures
        lagrange_commitment(basis, domain_size, i) == evaluations_commitment(
            basis,
            domain_size,
            indicator(domain_size as nat, i),
        ),
{
    if valid_domain_size(domain_size) {
        let k = choose|k: nat| k <= MAX_LOG_DOMAIN_SIZE && domain_size == #[trigger] pow2(k);
        vstd::arithmetic::power2::lemma_pow2_pos(k);
    }
}

/// The commitment to the `i`-th Lagrange basis polynomial of the domain of
/// `domain_size` elements.
///
/// Fails with `ConfigError` if and only if there is no domain of that
/// size. An index outside the domain gives the commitment to the values
/// that are zero everywhere.
pub fn caml_pasta_fp_urs_lagrange_commitment(urs: &Srs, domain_size: isize, i: isize) -> (r: Result<
    PolyComm,
    SrsError,
>)
    requires
        urs.wf(),
    ensures
        r is Ok ==> r.unwrap().wf(),
        result_view(r) == lagrange_commitment(point_views(urs.g@), domain_size as int, i as int),
{
    if !is_valid_domain_size(domain_size) {
        return Err(SrsError::ConfigError);
    }
    let mut evals: Vec<Scalar> = Vec::new();
    let mut j: isize = 0;
    while j < domain_size
        invariant
            0 <= j <= domain_size,
            evals.len() == j,
            scalars_wf(evals@),
            scalar_values(evals@) == indicator(j as nat, i as int),
        decreases domain_size - j,
    {
        let e = if j == i {
            Scalar::one()
        } else {
            Scalar::zero()
        };
        let ghost before = evals@;
        evals.push(e);
        proof {
            assert forall|t: int| 0 <= t < j + 1 implies scalar_values(evals@)[t] == indicator(
                (j + 1) as nat,
                i as int,
            )[t] by {
                if t < j {
                    assert(evals@[t] == before[t]);
                    assert(scalar_values(before)[t] == indicator(j as nat, i as int)[t]);
                }
            }
            assert(scalar_values(evals@) =~= indicator((j + 1) as nat, i as int));
        }
        j = j + 1;
    }
    let coeffs = interpolate(&evals);
    Ok(urs.commit_non_hiding(&coeffs, None))
}

/// The commitment to the polynomial that takes the values `evals` on the
/// domain of `domain_size` elements.
///
/// Fails with `ConfigError` if and only if there is no domain of that
/// size or the number of values is not the size.
pub fn caml_pasta_fp_urs_commit_evaluations(urs: &Srs, domain_size: isize, evals: Vec<Scalar>) -> (r:
    Result<PolyComm, SrsError>)
    requires
        urs.wf(),
        scalars_wf(evals@),
    ensures
        r is Ok ==> r.unwrap().wf(),
        result_view(r) == evaluations_commitment(
            point_views(urs.g@),
            domain_size as int,
            scalar_values(evals@),
        ),
{
    if !is_valid_domain_size(domain_size) {
        return Err(SrsError::ConfigError);
    }
    if evals.len() != domain_size as usize {
        return Err(SrsError::ConfigError);
    }
    let coeffs = interpolate(&evals);
    Ok(urs.commit_non_hiding(&coeffs, None))
}

} // verus!
