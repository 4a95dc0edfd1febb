//! The canonical parity (sign) of an element of a field tower: the oddness of
//! the first non-zero coefficient, followed down to the prime field.
use crate::field::limb_base;
use vstd::prelude::*;

verus! {

/// The integer that little-endian 64-bit limbs stand for.
pub open spec fn limbs_value(s: Seq<u64>) -> int
    decreases s.len(),
{
    if s.len() == 0 {
        0
    } else {
        s[0] + limb_base() * limbs_value(s.drop_first())
    }
}

/// An element of a prime field, by the limbs of its canonical residue.
pub struct PrimeElem {
    pub limbs: Vec<u64>,
}

/// An element of a field tower: a prime-field element, or an element of an
/// extension given by its coefficients over the field one level down,
/// lowest first.
pub enum TowerElem {
    Prime(PrimeElem),
    Ext(Vec<TowerElem>),
}

/// The number of coefficients of an extension element.
pub open spec fn width(e: TowerElem) -> int {
    match e {
        TowerElem::Prime(_) => 0,
        TowerElem::Ext(cs) => cs.len() as int,
    }
}

/// For a prime-field element, its residue is zero; for an extension
/// element, its coefficients from index `k` on are all the tower's zero.
pub open spec fn zero_from(e: TowerElem, k: int) -> bool
    decreases e, width(e) - k,
{
    match e {
        TowerElem::Prime(p) => limbs_value(p.limbs@) == 0,
        TowerElem::Ext(cs) => {
            if 0 <= k < cs.len() {
                zero_from(cs@[k], 0) && zero_from(e, k + 1)
            } else {
                true
            }
        },
    }
}

/// The element is the tower's zero.
pub open spec fn is_zero_spec(e: TowerElem) -> bool {
    zero_from(e, 0)
}

/// `j` is the index of the first non-zero coefficient in `cs`.
pub open spec fn is_first_nonzero(cs: Seq<TowerElem>, j: int) -> bool {
    &&& 0 <= j < cs.len()
    &&& !is_zero_spec(cs[j])
    &&& forall|k: int| 0 <= k < j ==> #[trigger] is_zero_spec(cs[k])
}

/// The parity: for a prime-field element, whether its residue is odd; for
/// an extension element, the parity of its first non-zero coefficient, or
/// false where every coefficient is zero.
pub open spec fn parity_spec(e: TowerElem) -> bool
    decreases e,
{
    match e {
        TowerElem::Prime(p) => limbs_value(p.limbs@) % 2 == 1,
        TowerElem::Ext(cs) => {
            if exists|j: int| is_first_nonzero(cs@, j) {
                let j = choose|j: int| is_first_nonzero(cs@, j);
                parity_spec(cs@[j])
            } else {
                false
            }
        },
    }
}

/// The limbs stand for a non-negative integer, which is zero exactly when
/// every limb is.
proof fn lemma_limbs_zero(s: Seq<u64>)
    ensures
        limbs_value(s) >= 0,
        limbs_value(s) == 0 <==> forall|i: int| 0 <= i < s.len() ==> s[i] == 0,
    decreases s.len(),
{
    if s.len() > 0 {
        let rest = s.drop_first();
        lemma_limbs_zero(rest);
        let b = limb_base();
        let r = limbs_value(rest);
        assert(s[0] + b * r == 0 <==> s[0] == 0 && r == 0) by (nonlinear_arith)
            requires
                s[0] >= 0,
                r >= 0,
                b > 0,
        ;
        assert(b * r >= 0) by (nonlinear_arith)
            requires
                r >= 0,
                b > 0,
        ;
        if forall|i: int| 0 <= i < s.len() ==> s[i] == 0 {
            assert forall|i: int| 0 <= i < rest.len() implies rest[i] == 0 by {
                assert(rest[i] == s[i + 1]);
            }
        }
        if limbs_value(s) == 0 {
            assert forall|i: int| 0 <= i < s.len() implies s[i] == 0 by {
                if i > 0 {
                    assert(s[i] == rest[i - 1]);
                }
            }
        }
    }
}

/// The oddness of the integer is that of its lowest limb.
proof fn lemma_limbs_odd(s: Seq<u64>)
    ensures
        limbs_value(s) % 2 == if s.len() == 0 {
            0
        } else {
            s[0] % 2
        },
{
    if s.len() > 0 {
        let r = limbs_value(s.drop_first());
        let h: int = 0x8000_0000_0000_0000;
        assert(limb_base() == 2 * h);
        assert((2 * h) * r == (h * r) * 2) by (nonlinear_arith);
        vstd::arithmetic::div_mod::lemma_add_mod_noop(s[0] as int, (h * r) * 2, 2);
        vstd::arithmetic::div_mod::lemma_mod_multiples_basic(h * r, 2);
        vstd::arithmetic::div_mod::lemma_mod_twice(s[0] as int, 2);
    }
}

impl PrimeElem {
    /// The residue is zero.
    pub fn is_zero(&self) -> (r: bool)
        ensures
            r == (limbs_value(self.limbs@) == 0),
    {
        proof {
            lemma_limbs_zero(self.limbs@);
        }
        for i in 0..self.limbs.len()
            invariant
                forall|t: int| 0 <= t < i ==> self.limbs@[t] == 0,
        {
            if self.limbs[i] != 0 {
                proof {
                    lemma_limbs_zero(self.limbs@);
                    assert(self.limbs@[i as int] != 0);
                }
                return false;
            }
        }
        true
    }

    /// The residue is odd.
    pub fn is_odd(&self) -> (r: bool)
        ensures
            r == (limbs_value(self.limbs@) % 2 == 1),
    {
        proof {
            lemma_limbs_odd(self.limbs@);
        }
        self.limbs.len() > 0 && self.limbs[0] % 2 == 1
    }
}

impl TowerElem {
    /// The element is the tower's zero: every coefficient, all the way
    /// down, is zero.
    pub fn is_zero(&self) -> (r: bool)
        ensures
            r == is_zero_spec(*self),
        decreases self,
    {
        match self {
            TowerElem::Prime(p) => {
                let r = p.is_zero();
                assert(r == is_zero_spec(*self));
                r
            },
            TowerElem::Ext(cs) => {
                proof {
                    assert forall|j: int| 0 <= j < cs.len() implies decreases_to!(*self => #[trigger] cs[j]) by {
                        vstd::std_specs::vec::axiom_vec_index_decreases(*cs, j);
                    }
                }
                for i in 0..cs.len()
                    invariant
                        *self == TowerElem::Ext(*cs),
                        forall|j: int| 0 <= j < cs.len() ==> decreases_to!(*self => #[trigger] cs[j]),
                        is_zero_spec(*self) == zero_from(*self, i as int),
                {
                    if !cs[i].is_zero() {
                        assert(!is_zero_spec(cs@[i as int]));
                        return false;
                    }
                }
                true
            },
        }
    }
}

/// The canonical parity of `element`: the oddness of the residue of its
/// first non-zero prime-field coefficient, scanning each level from the
/// lowest coefficient; false for zero.
pub fn parity(element: &TowerElem) -> (r: bool)
    ensures
        r == parity_spec(*element),
    decreases element,
{
    match element {
        TowerElem::Prime(p) => {
            assert(parity_spec(*element) == (limbs_value(p.limbs@) % 2 == 1));
            p.is_odd()
        },
        TowerElem::Ext(cs) => {
            proof {
                assert forall|j: int| 0 <= j < cs.len() implies decreases_to!(*element => #[trigger] cs[j]) by {
                    vstd::std_specs::vec::axiom_vec_index_decreases(*cs, j);
                }
            }
            for i in 0..cs.len()
                invariant
                    forall|j: int| 0 <= j < cs.len() ==> decreases_to!(*element => #[trigger] cs[j]),
                    forall|j: int| is_first_nonzero(cs@, j) && (forall|k: int| is_first_nonzero(cs@, k) ==> k == j)
                        ==> parity_spec(*element) == parity_spec(#[trigger] cs@[j]),
                    !(exists|j: int| is_first_nonzero(cs@, j)) ==> !parity_spec(*element),
                    forall|t: int| 0 <= t < i ==> #[trigger] is_zero_spec(cs@[t]),
            {
                if !cs[i].is_zero() {
                    proof {
                        assert(is_first_nonzero(cs@, i as int));
                        lemma_first_nonzero_unique(cs@, i as int);
                    }
                    return parity(&cs[i]);
                }
            }
            assert(!exists|j: int| is_first_nonzero(cs@, j));
            false
        },
    }
}

/// The parity of a prime-field element is the oddness of its residue, and
/// zero is even.
pub proof fn lemma_parity_prime(p: PrimeElem)
    ensures
        parity_spec(TowerElem::Prime(p)) == (limbs_value(p.limbs@) % 2 == 1),
        limbs_value(p.limbs@) == 0 ==> !parity_spec(TowerElem::Prime(p)),
{
}

/// An extension element is zero exactly when each of its coefficients is.
pub proof fn lemma_zero_ext(cs: Vec<TowerElem>)
    ensures
        is_zero_spec(TowerElem::Ext(cs)) <==> forall|i: int|
            0 <= i < cs.len() ==> #[trigger] is_zero_spec(cs@[i]),
{
    lemma_zero_from(cs, 0);
}

proof fn lemma_zero_from(cs: Vec<TowerElem>, k: int)
    requires
        0 <= k <= cs.len(),
    ensures
        zero_from(TowerElem::Ext(cs), k) <==> forall|i: int|
            k <= i < cs.len() ==> #[trigger] is_zero_spec(cs@[i]),
    decreases cs.len() - k,
{
    if k < cs.len() {
        lemma_zero_from(cs, k + 1);
        if forall|i: int| k <= i < cs.len() ==> #[trigger] is_zero_spec(cs@[i]) {
            assert(is_zero_spec(cs@[k]));
        }
        if zero_from(TowerElem::Ext(cs), k) {
            assert forall|i: int| k <= i < cs.len() implies #[trigger] is_zero_spec(cs@[i]) by {
                if i > k {
                    assert(k + 1 <= i);
                }
            }
        }
    }
}

/// The parity of an extension element is that of its first non-zero
/// coefficient; where every coefficient is zero, it is false.
pub proof fn lemma_parity_ext(cs: Vec<TowerElem>)
    ensures
        forall|j: int|
            is_first_nonzero(cs@, j) ==> parity_spec(TowerElem::Ext(cs)) == parity_spec(
                #[trigger] cs@[j],
            ),
        (forall|i: int| 0 <= i < cs.len() ==> #[trigger] is_zero_spec(cs@[i])) ==> !parity_spec(
            TowerElem::Ext(cs),
        ),
{
    assert forall|j: int| is_first_nonzero(cs@, j) implies parity_spec(TowerElem::Ext(cs))
        == parity_spec(#[trigger] cs@[j]) by {
        lemma_first_nonzero_unique(cs@, j);
    }
    if forall|i: int| 0 <= i < cs.len() ==> #[trigger] is_zero_spec(cs@[i]) {
        assert(!exists|j: int| is_first_nonzero(cs@, j));
    }
}

/// There is at most one first non-zero coefficient.
proof fn lemma_first_nonzero_unique(cs: Seq<TowerElem>, j: int)
    requires
        is_first_nonzero(cs, j),
    ensures
        forall|k: int| is_first_nonzero(cs, k) ==> k == j,
{
    assert forall|k: int| is_first_nonzero(cs, k) implies k == j by {
        if k < j {
            assert(is_zero_spec(cs[k]));
        } else if k > j {
            assert(is_zero_spec(cs[j]));
        }
    }
}

} // verus!
