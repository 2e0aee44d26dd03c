//! Elements of the scalar field of Vesta, held as four 64-bit limbs.

use ark_ff::{BigInteger256, PrimeField};
use ark_vesta::Fr;
use vstd::prelude::*;

verus! {

/// The natural number that four little-endian 64-bit limbs stand for.
pub open spec fn limbs_value(l: [u64; 4]) -> nat {
    (l[0] as nat) + (l[1] as nat) * 0x1_0000_0000_0000_0000nat + (l[2] as nat)
        * 0x1_0000_0000_0000_0000_0000_0000_0000_0000nat + (l[3] as nat)
        * 0x1_0000_0000_0000_0000_0000_0000_0000_0000_0000_0000_0000_0000nat
}

/// The order of the scalar field of Vesta (the base field of Pallas).
pub open spec fn scalar_modulus() -> nat {
    0x40000000000000000000000000000000224698fc094cf91b992d30ed00000001nat
}

/// The order of the base field of Vesta (the scalar field of Pallas).
pub open spec fn base_modulus() -> nat {
    0x40000000000000000000000000000000224698fc0994a8dd8c46eb2100000001nat
}

/// Two limb arrays that stand for the same number are the same array.
pub proof fn lemma_limbs_value_injective(a: [u64; 4], b: [u64; 4])
    requires
        limbs_value(a) == limbs_value(b),
    ensures
        a == b,
{
    assert(a =~= b);
}

/// Whether the number held in `a` is smaller than the one held in `b`.
pub fn limbs_less_than(a: &[u64; 4], b: &[u64; 4]) -> (r: bool)
    ensures
        r == (limbs_value(*a) < limbs_value(*b)),
{
    if a[3] != b[3] {
        a[3] < b[3]
    } else if a[2] != b[2] {
        a[2] < b[2]
    } else if a[1] != b[1] {
        a[1] < b[1]
    } else {
        a[0] < b[0]
    }
}

/// Whether `a` and `b` hold the same limbs.
pub fn limbs_equal(a: &[u64; 4], b: &[u64; 4]) -> (r: bool)
    ensures
        r == (*a == *b),
{
    let same = a[0] == b[0] && a[1] == b[1] && a[2] == b[2] && a[3] == b[3];
    proof {
        if same {
            assert(*a =~= *b);
        }
    }
    same
}

/// An element of the scalar field, in canonical form: the limbs hold the
/// least non-negative residue.
#[derive(Clone, Copy, Debug, PartialEq, Eq)]
pub struct Scalar {
    pub limbs: [u64; 4],
}

impl Scalar {
    /// The residue this element stands for.
    pub open spec fn value(self) -> nat {
        limbs_value(self.limbs)
    }

    /// The limbs are reduced modulo the field order.
    pub open spec fn wf(self) -> bool {
        self.value() < scalar_modulus()
    }

    /// The element with the given limbs, if they are below the field order.
    pub fn from_limbs(limbs: [u64; 4]) -> (r: Option<Scalar>)
        ensures
            r is Some <==> limbs_value(limbs) < scalar_modulus(),
            r is Some ==> r.unwrap().limbs == limbs,
    {
        let order: [u64; 4] = [0x992d30ed00000001, 0x224698fc094cf91b, 0, 0x4000000000000000];
        if limbs_less_than(&limbs, &order) {
            Some(Scalar { limbs })
        } else {
            None
        }
    }

    /// The element that stands for a small number.
    pub fn from_u64(x: u64) -> (r: Scalar)
        ensures
            r.wf(),
            r.value() == x,
    {
        Scalar { limbs: [x, 0, 0, 0] }
    }

    /// The additive neutral element.
    pub fn zero() -> (r: Scalar)
        ensures
            r.wf(),
            r.value() == 0,
    {
        Scalar::from_u64(0)
    }

    /// The multiplicative neutral element.
    pub fn one() -> (r: Scalar)
        ensures
            r.wf(),
            r.value() == 1,
    {
        Scalar::from_u64(1)
    }

    /// Whether the limbs are in canonical form.
    pub fn is_valid(&self) -> (r: bool)
        ensures
            r == self.wf(),
    {
        let order: [u64; 4] = [0x992d30ed00000001, 0x224698fc094cf91b, 0, 0x4000000000000000];
        limbs_less_than(&self.limbs, &order)
    }

    /// Whether two elements are the same.
    pub fn equals(&self, other: &Scalar) -> (r: bool)
        ensures
            r == (*self == *other),
            r == (self.value() == other.value()),
    {
        proof {
            if self.value() == other.value() {
                lemma_limbs_value_injective(self.limbs, other.limbs);
            }
        }
        limbs_equal(&self.limbs, &other.limbs)
    }
}

/// The residues of a sequence of scalars.
pub open spec fn scalar_values(s: Seq<Scalar>) -> Seq<nat> {
    s.map_values(|x: Scalar| x.value())
}

/// Every scalar of the sequence is in canonical form.
pub open spec fn scalars_wf(s: Seq<Scalar>) -> bool {
    forall|i: int| 0 <= i < s.len() ==> (#[trigger] s[i]).wf()
}

/// The product of two field elements.
///
/// Calls the multiplication of `ark_ff`'s 256-bit prime field, instantiated
/// with the scalar field of Vesta. The contract says that the result is the
/// canonical residue of the product of the two residues.
#[verifier::external_body]
pub(crate) fn field_mul(a: &Scalar, b: &Scalar) -> (r: Scalar)
    requires
        a.wf(),
        b.wf(),
    ensures
        r.wf(),
        r.value() == (a.value() * b.value()) % scalar_modulus(),
{
    let x = Fr::from_repr(BigInteger256(a.limbs)).unwrap();
    let y = Fr::from_repr(BigInteger256(b.limbs)).unwrap();
    Scalar { limbs: (x * y).into_repr().0 }
}

} // verus!
