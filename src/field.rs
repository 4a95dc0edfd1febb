//! Elements of the BLS12-381 scalar field, held as canonical residues.
//!
//! The arithmetic itself is done by `ark_ff`; the library sees an element
//! as the integer it stands for.
use ark_ff::{batch_inversion, BigInt, FftField, PrimeField};
use ark_test_curves::bls12_381::Fr;
use vstd::prelude::*;

verus! {

/// The order of the field.
pub open spec fn modulus() -> int {
    0xffff_ffff_0000_0001 + limb_base() * (0x53bd_a402_fffe_5bfe + limb_base() * (
    0x3339_d808_09a1_d805 + limb_base() * 0x73ed_a753_299d_7d48))
}

pub open spec fn limb_base() -> int {
    0x1_0000_0000_0000_0000
}

/// A field element, stored as the little-endian limbs of its canonical
/// residue in `[0, modulus())`.
#[derive(Clone, Copy, Debug, PartialEq, Eq, Hash)]
pub struct Scalar {
    pub limbs: [u64; 4],
}

impl Scalar {
    /// The integer that the limbs stand for.
    pub open spec fn value(self) -> int {
        (self.limbs[0] as int + limb_base() * (self.limbs[1] as int + limb_base() * (
        self.limbs[2] as int + limb_base() * self.limbs[3] as int)))
    }

    /// The limbs hold a canonical residue.
    pub open spec fn wf(self) -> bool {
        0 <= self.value() < modulus()
    }

    /// The element whose residue is `n`.
    pub fn from_u64(n: u64) -> (r: Scalar)
        ensures
            r.wf(),
            r.value() == n,
    {
        let r = Scalar { limbs: [n, 0, 0, 0] };
        assert(r.value() == n);
        r
    }

    /// The additive identity.
    pub fn zero() -> (r: Scalar)
        ensures
            r.wf(),
            r.value() == 0,
    {
        Scalar::from_u64(0)
    }

    /// The multiplicative identity.
    pub fn one() -> (r: Scalar)
        ensures
            r.wf(),
            r.value() == 1,
    {
        Scalar::from_u64(1)
    }
}

impl Scalar {
    /// Whether this is the additive identity.
    pub fn is_zero(&self) -> (r: bool)
        requires
            self.wf(),
        ensures
            r == (self.value() == 0),
    {
        proof {
            let b = limb_base();
            let (l0, l1, l2, l3) = (
                self.limbs[0] as int,
                self.limbs[1] as int,
                self.limbs[2] as int,
                self.limbs[3] as int,
            );
            assert(l0 + b * (l1 + b * (l2 + b * l3)) == 0 ==> l0 == 0 && l1 == 0 && l2 == 0 && l3
                == 0) by (nonlinear_arith)
                requires
                    0 <= l0,
                    0 <= l1,
                    0 <= l2,
                    0 <= l3,
                    b > 0,
            ;
        }
        self.limbs[0] == 0 && self.limbs[1] == 0 && self.limbs[2] == 0 && self.limbs[3] == 0
    }
}

/// Reducing the factors of a product first does not change the residue.
pub proof fn lemma_mul_mod(x: int, y: int)
    ensures
        ((x % modulus()) * (y % modulus())) % modulus() == (x * y) % modulus(),
{
    let m = modulus();
    vstd::arithmetic::div_mod::lemma_mul_mod_noop_left(x, y % m, m);
    vstd::arithmetic::div_mod::lemma_mul_mod_noop_right(x, y, m);
}

/// Reducing the terms of a sum first does not change the residue.
pub proof fn lemma_add_mod(x: int, y: int)
    ensures
        ((x % modulus()) + (y % modulus())) % modulus() == (x + y) % modulus(),
{
    vstd::arithmetic::div_mod::lemma_add_mod_noop(x, y, modulus());
}

/// A residue is its own reduction.
pub proof fn lemma_small(x: int)
    requires
        0 <= x < modulus(),
    ensures
        x % modulus() == x,
{
    vstd::arithmetic::div_mod::lemma_small_mod(x as nat, modulus() as nat);
}

/// `b` to the power `e`, over the integers.
pub open spec fn power(b: int, e: nat) -> int
    decreases e,
{
    if e == 0 {
        1
    } else {
        b * power(b, (e - 1) as nat)
    }
}

/// Every element of `s` is a canonical residue.
pub open spec fn all_wf(s: Seq<Scalar>) -> bool {
    forall|i: int| 0 <= i < s.len() ==> (#[trigger] s[i]).wf()
}

/// The residues that the elements of `s` stand for.
pub open spec fn values(s: Seq<Scalar>) -> Seq<int> {
    s.map_values(|x: Scalar| x.value())
}

/// Relies on `ark_ff`'s `Fp + Fp`: the sum of the residues, reduced.
#[verifier::external_body]
pub(crate) fn fr_add(a: Scalar, b: Scalar) -> (r: Scalar)
    requires
        a.wf(),
        b.wf(),
    ensures
        r.wf(),
        r.value() == (a.value() + b.value()) % modulus(),
{
    let x = Fr::from_bigint(BigInt::new(a.limbs)).unwrap();
    let y = Fr::from_bigint(BigInt::new(b.limbs)).unwrap();
    Scalar { limbs: (x + y).into_bigint().0 }
}

/// Relies on `ark_ff`'s `Fp - Fp`: the difference of the residues, reduced.
#[verifier::external_body]
pub(crate) fn fr_sub(a: Scalar, b: Scalar) -> (r: Scalar)
    requires
        a.wf(),
        b.wf(),
    ensures
        r.wf(),
        r.value() == (a.value() - b.value()) % modulus(),
{
    let x = Fr::from_bigint(BigInt::new(a.limbs)).unwrap();
    let y = Fr::from_bigint(BigInt::new(b.limbs)).unwrap();
    Scalar { limbs: (x - y).into_bigint().0 }
}

/// Relies on `ark_ff`'s `Fp * Fp`: the product of the residues, reduced.
#[verifier::external_body]
pub(crate) fn fr_mul(a: Scalar, b: Scalar) -> (r: Scalar)
    requires
        a.wf(),
        b.wf(),
    ensures
        r.wf(),
        r.value() == (a.value() * b.value()) % modulus(),
{
    let x = Fr::from_bigint(BigInt::new(a.limbs)).unwrap();
    let y = Fr::from_bigint(BigInt::new(b.limbs)).unwrap();
    Scalar { limbs: (x * y).into_bigint().0 }
}

/// Relies on `ark_ff::batch_inversion`: every non-zero entry is replaced by
/// its inverse, and zero entries are left as they are.
#[verifier::external_body]
pub(crate) fn fr_batch_inversion(v: &mut Vec<Scalar>)
    requires
        all_wf(old(v)@),
    ensures
        final(v)@.len() == old(v)@.len(),
        all_wf(final(v)@),
        forall|i: int|
            0 <= i < old(v)@.len() ==> {
                &&& old(v)@[i].value() == 0 ==> (#[trigger] final(v)@[i]).value() == 0
                &&& old(v)@[i].value() != 0 ==> (old(v)@[i].value() * final(v)@[i].value())
                    % modulus() == 1
            },
{
    let mut xs: Vec<Fr> = v.iter().map(|s| Fr::from_bigint(BigInt::new(s.limbs)).unwrap()).collect();
    batch_inversion(&mut xs);
    *v = xs.iter().map(|x| Scalar { limbs: x.into_bigint().0 }).collect();
}

/// Relies on `ark_ff`'s `FftField::get_root_of_unity`: for a power of two up
/// to the field's two-adicity it returns a root of unity of exactly that
/// order, so its power `n / 2` is `-1`.
#[verifier::external_body]
pub(crate) fn fr_root_of_unity(n: u64) -> (r: Scalar)
    requires
        exists|k: nat| k <= 32 && power(2, k) == n,
    ensures
        r.wf(),
        power(r.value(), n as nat) % modulus() == 1,
        n >= 2 ==> power(r.value(), (n / 2) as nat) % modulus() == modulus() - 1,
{
    Scalar { limbs: Fr::get_root_of_unity(n).unwrap().into_bigint().0 }
}

} // verus!
