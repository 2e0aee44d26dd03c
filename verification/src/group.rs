//! Points of the Vesta curve `y^2 = x^3 + 5`, in affine coordinates.

use crate::field::{base_modulus, limbs_equal, limbs_less_than, limbs_value, scalar_values, scalars_wf, Scalar};
use ark_ec::msm::VariableBaseMSM;
use ark_ec::{AffineCurve, ProjectiveCurve};
use ark_ff::{BigInteger256, PrimeField};
use ark_vesta::{Affine, Fq};
use vstd::prelude::*;

verus! {

/// Whether the affine coordinates `(x, y)` satisfy the curve equation over
/// the base field.
pub open spec fn on_curve(x: nat, y: nat) -> bool {
    (y * y) % base_modulus() == (x * x * x + 5) % base_modulus()
}

/// A point of the curve group. The coordinates are elements of the base
/// field, each held as four limbs in canonical form. The point at infinity
/// is flagged, and then holds the coordinates `(0, 1)`.
#[derive(Clone, Copy, Debug, PartialEq, Eq)]
pub struct GroupElement {
    pub x: [u64; 4],
    pub y: [u64; 4],
    pub infinity: bool,
}

impl View for GroupElement {
    type V = Option<(nat, nat)>;

    /// `None` for the point at infinity, else the two coordinates.
    open spec fn view(&self) -> Option<(nat, nat)> {
        if self.infinity {
            None
        } else {
            Some((limbs_value(self.x), limbs_value(self.y)))
        }
    }
}

impl GroupElement {
    /// The value is a point of the group in its one canonical form.
    pub open spec fn wf(self) -> bool {
        if self.infinity {
            limbs_value(self.x) == 0 && limbs_value(self.y) == 1
        } else {
            &&& limbs_value(self.x) < base_modulus()
            &&& limbs_value(self.y) < base_modulus()
            &&& on_curve(limbs_value(self.x), limbs_value(self.y))
        }
    }

    /// The point at infinity, the neutral element of the group.
    pub fn identity() -> (r: GroupElement)
        ensures
            r.wf(),
            r@ is None,
    {
        GroupElement { x: [0, 0, 0, 0], y: [1, 0, 0, 0], infinity: true }
    }

    /// The finite point with the given coordinates, if they are reduced and
    /// satisfy the curve equation.
    pub fn new(x: [u64; 4], y: [u64; 4]) -> (r: Option<GroupElement>)
        ensures
            r is Some <==> limbs_value(x) < base_modulus() && limbs_value(y) < base_modulus()
                && on_curve(limbs_value(x), limbs_value(y)),
            r is Some ==> r.unwrap() == (GroupElement { x, y, infinity: false }),
    {
        let p = GroupElement { x, y, infinity: false };
        if p.is_valid() {
            Some(p)
        } else {
            None
        }
    }

    /// Whether the value is a point of the group in canonical form.
    pub fn is_valid(&self) -> (r: bool)
        ensures
            r == self.wf(),
    {
        if self.infinity {
            let zero: [u64; 4] = [0, 0, 0, 0];
            let one: [u64; 4] = [1, 0, 0, 0];
            proof {
                if limbs_value(self.x) == 0 {
                    crate::field::lemma_limbs_value_injective(self.x, zero);
                }
                if limbs_value(self.y) == 1 {
                    crate::field::lemma_limbs_value_injective(self.y, one);
                }
            }
            limbs_equal(&self.x, &zero) && limbs_equal(&self.y, &one)
        } else {
            let order: [u64; 4] = [0x8c46eb2100000001, 0x224698fc0994a8dd, 0, 0x4000000000000000];
            limbs_less_than(&self.x, &order) && limbs_less_than(&self.y, &order)
                && satisfies_curve_equation(&self.x, &self.y)
        }
    }

    /// Whether two points are the same.
    pub fn equals(&self, other: &GroupElement) -> (r: bool)
        ensures
            r == (*self == *other),
    {
        limbs_equal(&self.x, &other.x) && limbs_equal(&self.y, &other.y) && self.infinity
            == other.infinity
    }
}

/// Two canonical points with the same view are the same value.
pub proof fn lemma_view_injective(a: GroupElement, b: GroupElement)
    requires
        a.wf(),
        b.wf(),
        a@ == b@,
    ensures
        a == b,
{
    crate::field::lemma_limbs_value_injective(a.x, b.x);
    crate::field::lemma_limbs_value_injective(a.y, b.y);
}

/// The views of a sequence of points.
pub open spec fn point_views(s: Seq<GroupElement>) -> Seq<Option<(nat, nat)>> {
    s.map_values(|p: GroupElement| p@)
}

/// Every point of the sequence is canonical.
pub open spec fn points_wf(s: Seq<GroupElement>) -> bool {
    forall|i: int| 0 <= i < s.len() ==> (#[trigger] s[i]).wf()
}

/// Two sequences of canonical points with the same views are the same.
pub proof fn lemma_point_views_injective(a: Seq<GroupElement>, b: Seq<GroupElement>)
    requires
        points_wf(a),
        points_wf(b),
        point_views(a) == point_views(b),
    ensures
        a == b,
{
    assert(a.len() == point_views(a).len());
    assert(b.len() == point_views(b).len());
    assert forall|i: int| 0 <= i < a.len() implies a[i] == b[i] by {
        assert(point_views(a)[i] == a[i]@);
        assert(point_views(b)[i] == b[i]@);
        lemma_view_injective(a[i], b[i]);
    }
    assert(a =~= b);
}

/// The curve equation, evaluated by `ark_ec`.
///
/// Calls `GroupAffine::is_on_curve` on the finite point with the given
/// coordinates. For Vesta that method compares `y^2` with `x^3 + 5` in the
/// base field, which is what the contract says.
#[verifier::external_body]
pub(crate) fn satisfies_curve_equation(x: &[u64; 4], y: &[u64; 4]) -> (r: bool)
    requires
        limbs_value(*x) < base_modulus(),
        limbs_value(*y) < base_modulus(),
    ensures
        r == on_curve(limbs_value(*x), limbs_value(*y)),
{
    let fx = Fq::from_repr(BigInteger256(*x)).unwrap();
    let fy = Fq::from_repr(BigInteger256(*y)).unwrap();
    Affine::new(fx, fy, false).is_on_curve()
}

/// The sum of `scalars[i] * bases[i]` in the curve group, as `ark_ec`'s
/// variable-base multi-scalar multiplication computes it. The arguments
/// are the views of the points and the residues of the scalars.
pub uninterp spec fn msm_value(bases: Seq<Option<(nat, nat)>>, scalars: Seq<nat>) -> Option<
    (nat, nat),
>;

/// A linear combination of curve points.
///
/// Calls `VariableBaseMSM::multi_scalar_mul` and brings the result to
/// affine form. The contract names the result after the arguments and says
/// that it is a canonical point.
#[verifier::external_body]
pub(crate) fn msm(bases: &Vec<GroupElement>, scalars: &Vec<Scalar>) -> (r: GroupElement)
    requires
        bases.len() == scalars.len(),
        points_wf(bases@),
        scalars_wf(scalars@),
    ensures
        r.wf(),
        r@ == msm_value(point_views(bases@), scalar_values(scalars@)),
{
    let b: Vec<Affine> = bases.iter().map(|p| Affine::new(
        Fq::from_repr(BigInteger256(p.x)).unwrap(),
        Fq::from_repr(BigInteger256(p.y)).unwrap(),
        p.infinity,
    )).collect();
    let s: Vec<BigInteger256> = scalars.iter().map(|c| BigInteger256(c.limbs)).collect();
    let q = VariableBaseMSM::multi_scalar_mul(&b, &s).into_affine();
    GroupElement { x: q.x.into_repr().0, y: q.y.into_repr().0, infinity: q.infinity }
}

/// The point that `ark_ec` reads out of a string of bytes meant as the
/// output of a hash function, if it reads one: `Some(None)` is the point at
/// infinity, `None` a string that gives no point.
pub uninterp spec fn sampled_point(bytes: Seq<u8>) -> Option<Option<(nat, nat)>>;

/// A curve point from the output of a hash function.
///
/// Calls `AffineCurve::from_random_bytes`, which takes the bytes as an
/// x-coordinate with flags and looks for a matching y-coordinate. The
/// contract names the result after the bytes and says that a point that
/// comes back is canonical.
#[verifier::external_body]
pub(crate) fn point_from_random_bytes(bytes: &Vec<u8>) -> (r: Option<GroupElement>)
    ensures
        r is Some ==> r.unwrap().wf(),
        sampled_point(bytes@) == (match r {
            Some(p) => Some(p@),
            None => None,
        }),
{
    Affine::from_random_bytes(bytes).map(|q| GroupElement {
        x: q.x.into_repr().0,
        y: q.y.into_repr().0,
        infinity: q.infinity,
    })
}

} // verus!
