//! The b-polynomial of a sequence of folding challenges.
//!
//! For challenges `c_0, .., c_{k-1}` it is the product of the factors
//! `1 + c_j * X^(2^(k-1-j))`: the first challenge decides between the lower
//! and the upper half of the coefficients, the second between the quarters
//! of each half, and so on. Coefficient `i` is the product of the
//! challenges `c_{k-1-b}` over the bits `b` that are set in `i`.

use crate::commitment::{capped_commitment, commitment, result_view, PolyComm};
use crate::error::SrsError;
use crate::field::{field_mul, scalar_modulus, scalar_values, scalars_wf, Scalar};
use crate::group::point_views;
use crate::srs::Srs;
use vstd::arithmetic::power2::{lemma_pow2_pos, lemma_pow2_strictly_increases, lemma_pow2_unfold, pow2};
use vstd::prelude::*;

verus! {

/// Coefficient `i` of the b-polynomial of `chals`, by bisection: in the
/// lower half the first challenge is left out, in the upper half it
/// multiplies the coefficient that the remaining challenges give.
pub open spec fn b_poly_coefficient(chals: Seq<nat>, i: nat) -> nat
    decreases chals.len(),
{
    if chals.len() == 0 {
        1
    } else {
        let half = pow2((chals.len() - 1) as nat);
        if i < half {
            b_poly_coefficient(chals.skip(1), i)
        } else {
            (b_poly_coefficient(chals.skip(1), (i - half) as nat) * chals[0]) % scalar_modulus()
        }
    }
}

/// The coefficients of the b-polynomial of `chals`, lowest degree first.
pub open spec fn b_poly(chals: Seq<nat>) -> Seq<nat> {
    Seq::new(pow2(chals.len()), |i: int| b_poly_coefficient(chals, i as nat))
}

/// A coefficient below `2^(len - m)` does not depend on the first `m`
/// challenges.
pub proof fn lemma_leading_challenges_unused(chals: Seq<nat>, m: nat, i: nat)
    requires
        m <= chals.len(),
        i < pow2((chals.len() - m) as nat),
    ensures
        b_poly_coefficient(chals, i) == b_poly_coefficient(chals.skip(m as int), i),
    decreases m,
{
    if m == 0 {
        assert(chals.skip(0) =~= chals);
    } else {
        let len = chals.len();
        if m > 1 {
            lemma_pow2_strictly_increases((len - m) as nat, (len - 1) as nat);
        }
        assert(i < pow2((len - 1) as nat));
        lemma_leading_challenges_unused(chals.skip(1), (m - 1) as nat, i);
        assert(chals.skip(1).skip(m - 1) =~= chals.skip(m as int));
    }
}

/// A coefficient whose highest set bit is bit `k - 1` is the coefficient
/// without that bit, times the challenge that belongs to the bit.
pub proof fn lemma_highest_bit(chals: Seq<nat>, k: nat, i: nat)
    requires
        1 <= k <= chals.len(),
        pow2((k - 1) as nat) <= i < pow2(k),
    ensures
        b_poly_coefficient(chals, i) == (b_poly_coefficient(
            chals,
            (i - pow2((k - 1) as nat)) as nat,
        ) * chals[chals.len() - k]) % scalar_modulus(),
{
    let len = chals.len();
    let m = (len - k) as nat;
    let half = pow2((k - 1) as nat);
    let tail = chals.skip(m as int);
    lemma_leading_challenges_unused(chals, m, i);
    assert(tail.len() == k);
    assert(tail[0] == chals[len - k]);
    assert(tail.skip(1) =~= chals.skip((m + 1) as int));
    lemma_pow2_unfold(k);
    lemma_leading_challenges_unused(chals, m + 1, (i - half) as nat);
}

/// Two to the power of `e`, if it fits.
pub fn checked_power_of_two(e: usize) -> (r: Option<usize>)
    ensures
        r is Some <==> pow2(e as nat) <= usize::MAX,
        r is Some ==> r.unwrap() == pow2(e as nat),
{
    let mut r: usize = 1;
    let mut j: usize = 0;
    proof {
        vstd::arithmetic::power2::lemma2_to64();
    }
    while j < e
        invariant
            j <= e,
            r == pow2(j as nat),
        decreases e - j,
    {
        proof {
            lemma_pow2_unfold((j + 1) as nat);
            if j + 1 < e {
                lemma_pow2_strictly_increases((j + 1) as nat, e as nat);
            }
        }
        if r > usize::MAX / 2 {
            return None;
        }
        r = r * 2;
        j = j + 1;
    }
    Some(r)
}

/// The coefficients of the b-polynomial of `chals`, lowest degree first:
/// `2^k` of them for `k` challenges.
pub fn b_poly_coefficients(chals: &Vec<Scalar>) -> (s: Vec<Scalar>)
    requires
        scalars_wf(chals@),
        pow2(chals.len() as nat) <= usize::MAX,
    ensures
        scalars_wf(s@),
        s.len() == pow2(chals.len() as nat),
        scalar_values(s@) == b_poly(scalar_values(chals@)),
{
    let rounds = chals.len();
    let s_length = checked_power_of_two(rounds).unwrap();
    let ghost cv = scalar_values(chals@);
    let mut s: Vec<Scalar> = Vec::new();
    s.push(Scalar::one());
    let mut k: usize = 0;
    let mut pow: usize = 1;
    let mut i: usize = 1;
    proof {
        vstd::arithmetic::power2::lemma2_to64();
        lemma_pow2_pos(rounds as nat);
        lemma_leading_challenges_unused(cv, cv.len(), 0);
        assert(b_poly_coefficient(cv.skip(cv.len() as int), 0) == 1);
    }
    while i < s_length
        invariant
            rounds == chals.len(),
            cv == scalar_values(chals@),
            scalars_wf(chals@),
            s_length == pow2(rounds as nat),
            1 <= i <= s_length,
            s.len() == i,
            k <= rounds,
            pow == pow2(k as nat),
            i <= pow,
            k >= 1 ==> pow2((k - 1) as nat) < i,
            k == 0 ==> i == 1,
            scalars_wf(s@),
            forall|j: int| 0 <= j < i ==> (#[trigger] s[j]).value() == b_poly_coefficient(cv, j as nat),
        decreases s_length - i,
    {
        proof {
            vstd::arithmetic::power2::lemma2_to64();
        }
        if i == pow {
            proof {
                lemma_pow2_unfold((k + 1) as nat);
                if k + 1 < rounds {
                    lemma_pow2_strictly_increases((k + 1) as nat, rounds as nat);
                }
            }
            k = k + 1;
            pow = pow * 2;
        }
        proof {
            lemma_pow2_unfold(k as nat);
        }
        let half = pow / 2;
        let c = field_mul(&s[i - half], &chals[rounds - k]);
        proof {
            lemma_highest_bit(cv, k as nat, i as nat);
            assert(cv[rounds - k] == chals[rounds - k].value());
        }
        s.push(c);
        i = i + 1;
    }
    proof {
        assert(scalar_values(s@) =~= b_poly(cv));
    }
    s
}

/// What committing to the b-polynomial of `chals` gives.
pub open spec fn b_poly_commitment(basis: Seq<Option<(nat, nat)>>, chals: Seq<nat>) -> Result<
    Seq<Option<(nat, nat)>>,
    SrsError,
> {
    if pow2(chals.len()) <= usize::MAX {
        Ok(commitment(basis, b_poly(chals)))
    } else {
        Err(SrsError::ConfigError)
    }
}

/// The commitment to the b-polynomial is the commitment, without a limit
/// on its chunks, to the coefficients of the b-polynomial.
pub proof fn lemma_b_poly_commitment_is_commitment_to_coefficients(
    basis: Seq<Option<(nat, nat)>>,
    chals: Seq<nat>,
)
    requires
        pow2(chals.len()) <= usize::MAX,
    ensures
        b_poly(chals).len() == pow2(chals.len()),
        b_poly_commitment(basis, chals) == Ok::<Seq<Option<(nat, nat)>>, SrsError>(
            capped_commitment(basis, b_poly(chals), None),
        ),
{
}

/// The commitment to the b-polynomial of `chals`: the commitment to the
/// coefficients that `b_poly_coefficients` gives.
///
/// Fails with `ConfigError` if and only if the number of coefficients,
/// two to the number of challenges, does not fit the machine word.
pub fn caml_pasta_fp_urs_b_poly_commitment(urs: &Srs, chals: Vec<Scalar>) -> (r: Result<
    PolyComm,
    SrsError,
>)
    requires
        urs.wf(),
        scalars_wf(chals@),
    ensures
        r is Ok ==> r.unwrap().wf(),
        result_view(r) == b_poly_commitment(point_views(urs.g@), scalar_values(chals@)),
{
    if checked_power_of_two(chals.len()).is_none() {
        return Err(SrsError::ConfigError);
    }
    let coeffs = b_poly_coefficients(&chals);
    Ok(urs.commit_non_hiding(&coeffs, None))
}

} // verus!
