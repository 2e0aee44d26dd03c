//! The structured reference string: a basis of curve points and one
//! blinding point, all derived from a hash function.
//!
//! Point number `i` comes from the BLAKE2b-256 digest of the index and an
//! attempt counter, both as eight little-endian bytes. The first attempt
//! whose digest yields a finite curve point gives the point. The basis of
//! a string of depth `d` holds the points `0` to `d - 1`, and the blinding
//! point is point `d`.

use crate::error::SrsError;
use crate::group::{point_from_random_bytes, point_views, points_wf, sampled_point, GroupElement};
use blake2::{Blake2b256, Digest};
use vstd::bytes::{spec_u64_to_le_bytes, u64_to_le_bytes};
use vstd::prelude::*;

verus! {

/// A reference string. Its depth, the number of basis points, bounds the
/// number of coefficients that one chunk of a commitment takes.
#[derive(Clone, Debug, PartialEq, Eq)]
pub struct Srs {
    /// The basis.
    pub g: Vec<GroupElement>,
    /// The blinding point.
    pub h: GroupElement,
}

impl Srs {
    /// The basis is not empty and every point is canonical.
    pub open spec fn wf(self) -> bool {
        &&& self.g@.len() > 0
        &&& points_wf(self.g@)
        &&& self.h.wf()
    }

    /// The number of basis points.
    pub open spec fn depth(self) -> nat {
        self.g@.len()
    }

    /// Whether the basis is not empty and every point is canonical.
    pub fn is_valid(&self) -> (r: bool)
        ensures
            r == self.wf(),
    {
        if self.g.len() == 0 || !self.h.is_valid() {
            return false;
        }
        let mut i: usize = 0;
        while i < self.g.len()
            invariant
                i <= self.g.len(),
                forall|j: int| 0 <= j < i ==> (#[trigger] self.g@[j]).wf(),
            decreases self.g.len() - i,
        {
            if !self.g[i].is_valid() {
                return false;
            }
            i = i + 1;
        }
        true
    }
}

/// The number of digests that are tried for one point.
pub const ATTEMPTS: u64 = 256;

/// The 32-byte BLAKE2b digest of a string of bytes.
pub uninterp spec fn blake2b_256_digest(input: Seq<u8>) -> Seq<u8>;

/// The BLAKE2b-256 digest of `input`.
///
/// Calls `Blake2b256::digest` of the `blake2` crate. The contract names the
/// result after the input and says that it has 32 bytes.
#[verifier::external_body]
pub(crate) fn blake2b_256(input: &Vec<u8>) -> (r: Vec<u8>)
    ensures
        r@ == blake2b_256_digest(input@),
        r@.len() == 32,
{
    Blake2b256::digest(input).to_vec()
}

/// What is hashed for attempt `attempt` at point `index`.
pub open spec fn candidate_input(index: u64, attempt: u64) -> Seq<u8> {
    spec_u64_to_le_bytes(index) + spec_u64_to_le_bytes(attempt)
}

/// What attempt `attempt` at point `index` yields.
pub open spec fn candidate(index: u64, attempt: u64) -> Option<Option<(nat, nat)>> {
    sampled_point(blake2b_256_digest(candidate_input(index, attempt)))
}

/// The coordinates of the finite point that an attempt yields, if it
/// yields one: an attempt that yields nothing, or the point at infinity,
/// is passed over.
pub open spec fn accepted(c: Option<Option<(nat, nat)>>) -> Option<(nat, nat)> {
    match c {
        Some(Some(xy)) => Some(xy),
        _ => None,
    }
}

/// The first finite point that the attempts from `attempt` on yield for
/// `index`; the point at infinity if none of them yields one.
pub open spec fn derived_from(index: u64, attempt: nat) -> Option<(nat, nat)>
    decreases ATTEMPTS - attempt,
{
    if attempt >= ATTEMPTS {
        None
    } else if accepted(candidate(index, attempt as u64)) is Some {
        accepted(candidate(index, attempt as u64))
    } else {
        derived_from(index, attempt + 1)
    }
}

/// Point number `index` of the derivation.
pub open spec fn derived_point(index: u64) -> Option<(nat, nat)> {
    derived_from(index, 0)
}

/// The views of the basis points of the reference string of depth
/// `depth`.
pub open spec fn derived_basis(depth: nat) -> Seq<Option<(nat, nat)>> {
    Seq::new(depth, |i: int| derived_point(i as u64))
}

/// The point that an attempt yields, if it is a finite one.
pub fn finite_point(c: Option<GroupElement>) -> (r: Option<GroupElement>)
    ensures
        r == (match c {
            Some(p) if !p.infinity => Some(p),
            _ => None::<GroupElement>,
        }),
{
    match c {
        Some(p) => if p.infinity {
            None
        } else {
            Some(p)
        },
        None => None,
    }
}

/// Point number `index` of the derivation.
pub fn derive_point(index: u64) -> (r: GroupElement)
    ensures
        r.wf(),
        r@ == derived_point(index),
{
    let mut attempt: u64 = 0;
    while attempt < ATTEMPTS
        invariant
            attempt <= ATTEMPTS,
            derived_point(index) == derived_from(index, attempt as nat),
        decreases ATTEMPTS - attempt,
    {
        let mut input = u64_to_le_bytes(index);
        let mut counter = u64_to_le_bytes(attempt);
        input.append(&mut counter);
        assert(input@ == candidate_input(index, attempt));
        let digest = blake2b_256(&input);
        match finite_point(point_from_random_bytes(&digest)) {
            Some(p) => {
                return p;
            },
            None => {},
        }
        attempt = attempt + 1;
    }
    GroupElement::identity()
}

/// The reference string of depth `depth`.
///
/// Fails with `ConfigError` if and only if `depth` is not positive.
/// Otherwise the basis holds the points `0` to `depth - 1` of the
/// derivation and the blinding point is point `depth`, so that the same
/// depth always gives the same string.
pub fn caml_pasta_fp_urs_create(depth: isize) -> (r: Result<Srs, SrsError>)
    ensures
        depth <= 0 <==> r is Err,
        r is Err ==> r == Err::<Srs, SrsError>(SrsError::ConfigError),
        r is Ok ==> {
            let srs = r.unwrap();
            &&& srs.wf()
            &&& srs.depth() == depth
            &&& point_views(srs.g@) == derived_basis(depth as nat)
            &&& srs.h@ == derived_point(depth as u64)
        },
{
    if depth <= 0 {
        return Err(SrsError::ConfigError);
    }
    let n = depth as u64;
    let mut g: Vec<GroupElement> = Vec::new();
    let mut i: u64 = 0;
    while i < n
        invariant
            i <= n,
            n == depth,
            g@.len() == i,
            points_wf(g@),
            forall|j: int| 0 <= j < i ==> (#[trigger] g@[j])@ == derived_point(j as u64),
        decreases n - i,
    {
        let p = derive_point(i);
        g.push(p);
        i = i + 1;
    }
    let h = derive_point(n);
    proof {
        assert(point_views(g@) =~= derived_basis(depth as nat));
    }
    Ok(Srs { g, h })
}

/// The blinding point of the reference string.
pub fn caml_pasta_fp_urs_h(urs: &Srs) -> (r: GroupElement)
    ensures
        r == urs.h,
{
    urs.h
}

} // verus!
