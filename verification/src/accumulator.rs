//! The check of a batch of accumulators.
//!
//! An accumulator is a commitment together with the challenges of the
//! rounds that folded it. It is consistent with the reference string if
//! the commitment is the commitment to the b-polynomial of its challenges,
//! in one chunk. A batch holds the commitments of its accumulators and,
//! one after the other, their challenges, the same number for each.

use crate::b_poly::{b_poly, b_poly_coefficients, checked_power_of_two};
use crate::commitment::{chunk_count, commitment, lemma_single_chunk, segment};
use crate::field::{scalar_values, scalars_wf, Scalar};
use crate::group::{lemma_view_injective, point_views, points_wf, GroupElement};
use crate::srs::Srs;
use vstd::arithmetic::power2::pow2;
use vstd::prelude::*;

verus! {

/// The challenges of accumulator `i` in a batch of `rounds` challenges
/// each.
pub open spec fn challenges_of(chals: Seq<nat>, rounds: int, i: int) -> Seq<nat> {
    chals.subrange(i * rounds, i * rounds + rounds)
}

/// The commitments `comms` are those of the accumulators whose challenges
/// are `chals`.
pub open spec fn accumulators_consistent(
    basis: Seq<Option<(nat, nat)>>,
    comms: Seq<Option<(nat, nat)>>,
    chals: Seq<nat>,
) -> bool {
    if comms.len() == 0 {
        chals.len() == 0
    } else {
        let rounds = chals.len() as int / comms.len() as int;
        &&& chals.len() % comms.len() == 0
        &&& forall|i: int|
            0 <= i < comms.len() ==> commitment(basis, b_poly(#[trigger] challenges_of(chals, rounds, i)))
                == seq![comms[i]]
    }
}

/// A batch that passes the check fails it as soon as one of its
/// commitments is replaced by another point.
pub proof fn lemma_changed_commitment_fails(
    basis: Seq<Option<(nat, nat)>>,
    comms: Seq<GroupElement>,
    changed: Seq<GroupElement>,
    chals: Seq<nat>,
    j: int,
)
    requires
        points_wf(comms),
        points_wf(changed),
        accumulators_consistent(basis, point_views(comms), chals),
        changed.len() == comms.len(),
        0 <= j < comms.len(),
        changed[j] != comms[j],
    ensures
        !accumulators_consistent(basis, point_views(changed), chals),
{
    let rounds = chals.len() as int / comms.len() as int;
    let expected = commitment(basis, b_poly(challenges_of(chals, rounds, j)));
    if comms[j]@ == changed[j]@ {
        lemma_view_injective(comms[j], changed[j]);
    }
    assert(expected == seq![point_views(comms)[j]]);
    assert(seq![point_views(comms)[j]][0] == comms[j]@);
    assert(seq![point_views(changed)[j]][0] == changed[j]@);
}

/// The commitment to the b-polynomial of some challenges, where it has one
/// chunk, passes the check as a batch of one together with these
/// challenges.
pub proof fn lemma_b_poly_commitment_is_consistent(basis: Seq<Option<(nat, nat)>>, chals: Seq<nat>)
    requires
        pow2(chals.len()) <= basis.len(),
    ensures
        commitment(basis, b_poly(chals)).len() == 1,
        accumulators_consistent(basis, commitment(basis, b_poly(chals)), chals),
{
    vstd::arithmetic::power2::lemma_pow2_pos(chals.len());
    lemma_single_chunk(pow2(chals.len()), basis.len());
    let comms = commitment(basis, b_poly(chals));
    assert(comms =~= seq![comms[0]]);
    assert forall|i: int| 0 <= i < comms.len() implies commitment(
        basis,
        b_poly(#[trigger] challenges_of(chals, chals.len() as int, i)),
    ) == seq![comms[i]] by {
        assert(challenges_of(chals, chals.len() as int, 0) =~= chals);
    }
}

/// Whether the commitments `comms` are those of the accumulators whose
/// challenges are `chals`. A batch without commitments passes if it has no
/// challenges either. Otherwise the challenges must divide evenly among
/// the commitments, and each commitment must be the commitment to the
/// b-polynomial of its challenges, in one chunk.
pub fn caml_pasta_fp_urs_batch_accumulator_check(
    urs: &Srs,
    comms: Vec<GroupElement>,
    chals: Vec<Scalar>,
) -> (r: bool)
    requires
        urs.wf(),
        points_wf(comms@),
        scalars_wf(chals@),
    ensures
        r == accumulators_consistent(
            point_views(urs.g@),
            point_views(comms@),
            scalar_values(chals@),
        ),
{
    let k = comms.len();
    if k == 0 {
        return chals.len() == 0;
    }
    if chals.len() % k != 0 {
        return false;
    }
    let rounds = chals.len() / k;
    let ghost basis = point_views(urs.g@);
    let ghost cv = scalar_values(chals@);
    let ghost pv = point_views(comms@);
    proof {
        vstd::arithmetic::div_mod::lemma_fundamental_div_mod(chals.len() as int, k as int);
        assert(challenges_of(cv, rounds as int, 0).len() == rounds) by {
            assert(0 * rounds + rounds <= k * rounds) by (nonlinear_arith)
                requires
                    k >= 1,
                    rounds >= 0,
            ;
        }
        lemma_single_chunk(pow2(rounds as nat), urs.g@.len());
        vstd::arithmetic::power2::lemma_pow2_pos(rounds as nat);
    }
    let fits = match checked_power_of_two(rounds) {
        Some(size) => size <= urs.g.len(),
        None => false,
    };
    if !fits {
        proof {
            let first = commitment(basis, b_poly(challenges_of(cv, rounds as int, 0)));
            assert(basis.len() == urs.g.len());
            assert(first.len() == chunk_count(pow2(rounds as nat), basis.len()));
            assert(first.len() != 1);
            assert(seq![pv[0]].len() == 1);
        }
        return false;
    }
    let mut i: usize = 0;
    while i < k
        invariant
            urs.wf(),
            points_wf(comms@),
            scalars_wf(chals@),
            basis == point_views(urs.g@),
            cv == scalar_values(chals@),
            pv == point_views(comms@),
            k == comms.len(),
            k > 0,
            chals.len() == k * rounds,
            rounds == chals.len() / k,
            chals.len() % k == 0,
            0 < pow2(rounds as nat) <= urs.g@.len(),
            i <= k,
            forall|j: int|
                0 <= j < i ==> commitment(basis, b_poly(#[trigger] challenges_of(cv, rounds as int, j)))
                    == seq![pv[j]],
        decreases k - i,
    {
        proof {
            assert(i * rounds + rounds <= k * rounds) by (nonlinear_arith)
                requires
                    i < k,
                    rounds >= 0,
            ;
            assert(i * rounds >= 0) by (nonlinear_arith)
                requires
                    i >= 0,
                    rounds >= 0,
            ;
        }
        let lo = i * rounds;
        let own = segment(&chals, lo, lo + rounds);
        proof {
            assert(scalar_values(own@) =~= challenges_of(cv, rounds as int, i as int));
        }
        assert(own@.len() == rounds);
        assert(urs.g@.len() == urs.g.len());
        let coeffs = b_poly_coefficients(&own);
        let c = urs.commit_non_hiding(&coeffs, None);
        proof {
            lemma_single_chunk(pow2(rounds as nat), urs.g@.len());
            assert(basis.len() == urs.g@.len());
            assert(scalar_values(coeffs@).len() == pow2(rounds as nat));
            assert(c@.len() == chunk_count(pow2(rounds as nat), basis.len()));
            assert(c@.len() == 1);
            assert(c@ =~= seq![c.chunks@[0]@]);
            if c.chunks@[0]@ == comms@[i as int]@ {
                lemma_view_injective(c.chunks@[0], comms@[i as int]);
            }
        }
        if !c.chunks[0].equals(&comms[i]) {
            proof {
                assert(cv.len() == chals.len() && pv.len() == k);
                assert(seq![pv[i as int]][0] == pv[i as int]);
                assert(seq![c.chunks@[0]@][0] == c.chunks@[0]@);
            }
            return false;
        }
        i = i + 1;
    }
    true
}

} // verus!
