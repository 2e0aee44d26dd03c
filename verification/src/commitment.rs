//! Commitments without blinding to polynomials over the scalar field.
//!
//! A polynomial is cut into chunks of as many coefficients as the
//! reference string has basis points. Each chunk is committed to by the
//! linear combination of the first basis points with its coefficients.

use crate::error::SrsError;
use crate::field::{scalar_values, scalars_wf, Scalar};
use crate::group::{lemma_point_views_injective, msm, msm_value, point_views, points_wf, GroupElement};
use crate::srs::Srs;
use vstd::prelude::*;

verus! {

/// A commitment: one curve point for each chunk of the polynomial, in the
/// order of the chunks.
#[derive(Clone, Debug, PartialEq, Eq)]
pub struct PolyComm {
    pub chunks: Vec<GroupElement>,
}

impl View for PolyComm {
    type V = Seq<Option<(nat, nat)>>;

    open spec fn view(&self) -> Seq<Option<(nat, nat)>> {
        point_views(self.chunks@)
    }
}

impl PolyComm {
    /// Every point of the commitment is canonical.
    pub open spec fn wf(self) -> bool {
        points_wf(self.chunks@)
    }
}

/// The view of a commitment that may have failed.
pub open spec fn result_view(r: Result<PolyComm, SrsError>) -> Result<
    Seq<Option<(nat, nat)>>,
    SrsError,
> {
    match r {
        Ok(c) => Ok(c@),
        Err(e) => Err(e),
    }
}

/// Two commitments of canonical points with the same view hold the same
/// points: what a contract says of the view of a commitment, it says of the
/// commitment.
pub proof fn lemma_commitment_determined_by_view(a: PolyComm, b: PolyComm)
    requires
        a.wf(),
        b.wf(),
        a@ == b@,
    ensures
        a.chunks@ == b.chunks@,
{
    lemma_point_views_injective(a.chunks@, b.chunks@);
}

/// The number of chunks of `len` coefficients for a basis of `depth`
/// points: `len / depth`, rounded up.
pub open spec fn chunk_count(len: nat, depth: nat) -> nat {
    if depth == 0 {
        0
    } else if len % depth == 0 {
        len / depth
    } else {
        len / depth + 1
    }
}

/// Where chunk `i` ends in a polynomial of `len` coefficients.
pub open spec fn chunk_end(len: nat, depth: nat, i: int) -> int {
    if len - i * depth < depth {
        len as int
    } else {
        i * depth + depth
    }
}

/// The commitment to chunk `i` of `coeffs`: the combination of the first
/// basis points with the coefficients of the chunk.
pub open spec fn chunk_commitment(basis: Seq<Option<(nat, nat)>>, coeffs: Seq<nat>, i: int) -> Option<
    (nat, nat),
> {
    let lo = i * basis.len();
    let hi = chunk_end(coeffs.len(), basis.len(), i);
    msm_value(basis.take(hi - lo), coeffs.subrange(lo, hi))
}

/// The commitment to the polynomial with the coefficients `coeffs`.
pub open spec fn commitment(basis: Seq<Option<(nat, nat)>>, coeffs: Seq<nat>) -> Seq<
    Option<(nat, nat)>,
> {
    Seq::new(chunk_count(coeffs.len(), basis.len()), |i: int| chunk_commitment(basis, coeffs, i))
}

/// The commitment to `coeffs`, cut down to its first `max_chunks` chunks
/// where it has more.
pub open spec fn capped_commitment(
    basis: Seq<Option<(nat, nat)>>,
    coeffs: Seq<nat>,
    max_chunks: Option<usize>,
) -> Seq<Option<(nat, nat)>> {
    let whole = commitment(basis, coeffs);
    match max_chunks {
        Some(m) if m < whole.len() => whole.take(m as int),
        _ => whole,
    }
}

/// Every chunk but the last is full, and every chunk starts inside the
/// polynomial.
pub proof fn lemma_chunk_bounds(len: nat, depth: nat, i: nat)
    requires
        depth > 0,
        i < chunk_count(len, depth),
    ensures
        i * depth < len,
        i * depth < chunk_end(len, depth, i as int) <= len,
        chunk_end(len, depth, i as int) - i * depth <= depth,
{
    let q = len / depth;
    vstd::arithmetic::div_mod::lemma_fundamental_div_mod(len as int, depth as int);
    vstd::arithmetic::div_mod::lemma_mod_bound(len as int, depth as int);
    vstd::arithmetic::mul::lemma_mul_is_commutative(depth as int, q as int);
    if len % depth == 0 {
        vstd::arithmetic::mul::lemma_mul_inequality(i as int, q - 1, depth as int);
        vstd::arithmetic::mul::lemma_mul_is_distributive_sub_other_way(depth as int, q as int, 1);
    } else {
        vstd::arithmetic::mul::lemma_mul_inequality(i as int, q as int, depth as int);
    }
}

/// A polynomial that is not empty and has no more coefficients than the
/// basis has points is committed to in one chunk, and no other is.
pub proof fn lemma_single_chunk(len: nat, depth: nat)
    requires
        depth > 0,
    ensures
        chunk_count(len, depth) == 1 <==> 0 < len <= depth,
{
    let q = len / depth;
    vstd::arithmetic::div_mod::lemma_fundamental_div_mod(len as int, depth as int);
    vstd::arithmetic::div_mod::lemma_mod_bound(len as int, depth as int);
    if q == 0 {
        assert(depth * q == 0) by (nonlinear_arith)
            requires
                q == 0,
        ;
    } else if q == 1 {
        assert(depth * q == depth) by (nonlinear_arith)
            requires
                q == 1,
        ;
    } else {
        assert(depth * q >= 2 * depth) by (nonlinear_arith)
            requires
                q >= 2,
                depth > 0,
        ;
    }
}

/// Where `depth` does not divide `len`, the quotient is below `len`.
proof fn lemma_quotient_below(len: nat, depth: nat)
    requires
        depth > 0,
    ensures
        len % depth != 0 ==> len / depth < len,
{
    let q = len / depth;
    vstd::arithmetic::div_mod::lemma_fundamental_div_mod(len as int, depth as int);
    vstd::arithmetic::mul::lemma_mul_inequality(1, depth as int, q as int);
    vstd::arithmetic::mul::lemma_mul_is_commutative(depth as int, q as int);
}

/// The coefficients `lo` to `hi - 1` of `coeffs`.
pub(crate) fn segment(coeffs: &Vec<Scalar>, lo: usize, hi: usize) -> (r: Vec<Scalar>)
    requires
        lo <= hi <= coeffs.len(),
    ensures
        r@ == coeffs@.subrange(lo as int, hi as int),
{
    let mut r: Vec<Scalar> = Vec::new();
    let mut j: usize = lo;
    while j < hi
        invariant
            lo <= j <= hi <= coeffs.len(),
            r@ == coeffs@.subrange(lo as int, j as int),
        decreases hi - j,
    {
        r.push(coeffs[j]);
        j = j + 1;
    }
    r
}

/// The first `n` points of `basis`.
fn prefix(basis: &Vec<GroupElement>, n: usize) -> (r: Vec<GroupElement>)
    requires
        n <= basis.len(),
    ensures
        r@ == basis@.take(n as int),
{
    let mut r: Vec<GroupElement> = Vec::new();
    let mut j: usize = 0;
    while j < n
        invariant
            j <= n <= basis.len(),
            r@ == basis@.take(j as int),
        decreases n - j,
    {
        r.push(basis[j]);
        j = j + 1;
    }
    r
}

impl Srs {
    /// The commitment to the polynomial with the coefficients `coeffs`,
    /// lowest degree first. It has one point for each `depth` coefficients,
    /// rounded up, and at most `max_chunks` points where that is given:
    /// the coefficients of further chunks are left out.
    pub fn commit_non_hiding(&self, coeffs: &Vec<Scalar>, max_chunks: Option<usize>) -> (r:
        PolyComm)
        requires
            self.wf(),
            scalars_wf(coeffs@),
        ensures
            r.wf(),
            r@ == capped_commitment(point_views(self.g@), scalar_values(coeffs@), max_chunks),
            max_chunks is None ==> r.chunks@.len() == chunk_count(coeffs@.len(), self.depth()),
    {
        let depth = self.g.len();
        let len = coeffs.len();
        proof {
            lemma_quotient_below(len as nat, depth as nat);
        }
        let whole = if len % depth == 0 {
            len / depth
        } else {
            len / depth + 1
        };
        let count = match max_chunks {
            Some(m) => if m < whole {
                m
            } else {
                whole
            },
            None => whole,
        };
        let ghost basis = point_views(self.g@);
        let ghost cv = scalar_values(coeffs@);
        let mut chunks: Vec<GroupElement> = Vec::new();
        let mut i: usize = 0;
        while i < count
            invariant
                self.wf(),
                scalars_wf(coeffs@),
                depth == self.g.len(),
                len == coeffs.len(),
                basis == point_views(self.g@),
                cv == scalar_values(coeffs@),
                i <= count <= whole,
                whole == chunk_count(len as nat, depth as nat),
                chunks.len() == i,
                points_wf(chunks@),
                forall|j: int| 0 <= j < i ==> (#[trigger] chunks@[j])@ == chunk_commitment(basis, cv, j),
            decreases count - i,
        {
            proof {
                lemma_chunk_bounds(len as nat, depth as nat, i as nat);
            }
            let lo = i * depth;
            let hi = if len - lo < depth {
                len
            } else {
                lo + depth
            };
            let scalars = segment(coeffs, lo, hi);
            let bases = prefix(&self.g, hi - lo);
            proof {
                assert(point_views(bases@) =~= basis.take(hi - lo));
                assert(scalar_values(scalars@) =~= cv.subrange(lo as int, hi as int));
            }
            let p = msm(&bases, &scalars);
            chunks.push(p);
            i = i + 1;
        }
        let r = PolyComm { chunks };
        proof {
            assert(r@ =~= capped_commitment(basis, cv, max_chunks));
        }
        r
    }
}

} // verus!
