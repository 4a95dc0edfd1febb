//! A univariate polynomial held by its values on the points of a domain.
use crate::domain::Domain;
use crate::field::{
    all_wf, fr_add, fr_batch_inversion, fr_mul, fr_sub, lemma_add_mod, lemma_mul_mod, lemma_small,
    modulus,
    values, Scalar,
};
use crate::interpolation::{
    coeff, lemma_interpolant_values, lemma_round_trip, padded, point, poly_eval, takes_values,
};
use crate::polynomial::DensePolynomial;
use vstd::prelude::*;

verus! {

/// Entrywise sum of residues.
pub open spec fn add_spec(a: Seq<int>, b: Seq<int>) -> Seq<int> {
    Seq::new(a.len(), |i: int| (a[i] + b[i]) % modulus())
}

/// Entrywise difference of residues.
pub open spec fn sub_spec(a: Seq<int>, b: Seq<int>) -> Seq<int> {
    Seq::new(a.len(), |i: int| (a[i] - b[i]) % modulus())
}

/// Entrywise product of residues.
pub open spec fn mul_spec(a: Seq<int>, b: Seq<int>) -> Seq<int> {
    Seq::new(a.len(), |i: int| (a[i] * b[i]) % modulus())
}

/// Every residue times `c`.
pub open spec fn scale_spec(a: Seq<int>, c: int) -> Seq<int> {
    Seq::new(a.len(), |i: int| (a[i] * c) % modulus())
}

/// `q` is the entrywise quotient `a / b`: where `b` is non-zero, `q * b`
/// gives back `a`; where `b` is zero, so is `q`.
pub open spec fn is_quotient(q: Seq<int>, a: Seq<int>, b: Seq<int>) -> bool {
    &&& q.len() == a.len()
    &&& forall|i: int|
        0 <= i < q.len() ==> {
            &&& 0 <= #[trigger] q[i] < modulus()
            &&& b[i] == 0 ==> q[i] == 0
            &&& b[i] != 0 ==> (q[i] * b[i]) % modulus() == a[i]
        }
}

/// `a + b`, entry by entry.
pub fn add_entries(a: &[Scalar], b: &[Scalar]) -> (r: Vec<Scalar>)
    requires
        a@.len() == b@.len(),
        all_wf(a@),
        all_wf(b@),
    ensures
        r@.len() == a@.len(),
        all_wf(r@),
        values(r@) == add_spec(values(a@), values(b@)),
{
    let mut r: Vec<Scalar> = Vec::new();
    for i in 0..a.len()
        invariant
            a@.len() == b@.len(),
            all_wf(a@),
            all_wf(b@),
            r@.len() == i,
            all_wf(r@),
            forall|t: int| 0 <= t < i ==> (#[trigger] r@[t]).value() == (a@[t].value() + b@[t].value()) % modulus(),
    {
        r.push(fr_add(a[i], b[i]));
    }
    assert(values(r@) =~= add_spec(values(a@), values(b@)));
    r
}

/// `a - b`, entry by entry.
pub fn sub_entries(a: &[Scalar], b: &[Scalar]) -> (r: Vec<Scalar>)
    requires
        a@.len() == b@.len(),
        all_wf(a@),
        all_wf(b@),
    ensures
        r@.len() == a@.len(),
        all_wf(r@),
        values(r@) == sub_spec(values(a@), values(b@)),
{
    let mut r: Vec<Scalar> = Vec::new();
    for i in 0..a.len()
        invariant
            a@.len() == b@.len(),
            all_wf(a@),
            all_wf(b@),
            r@.len() == i,
            all_wf(r@),
            forall|t: int| 0 <= t < i ==> (#[trigger] r@[t]).value() == (a@[t].value() - b@[t].value()) % modulus(),
    {
        r.push(fr_sub(a[i], b[i]));
    }
    assert(values(r@) =~= sub_spec(values(a@), values(b@)));
    r
}

/// `a * b`, entry by entry.
pub fn mul_entries(a: &[Scalar], b: &[Scalar]) -> (r: Vec<Scalar>)
    requires
        a@.len() == b@.len(),
        all_wf(a@),
        all_wf(b@),
    ensures
        r@.len() == a@.len(),
        all_wf(r@),
        values(r@) == mul_spec(values(a@), values(b@)),
{
    let mut r: Vec<Scalar> = Vec::new();
    for i in 0..a.len()
        invariant
            a@.len() == b@.len(),
            all_wf(a@),
            all_wf(b@),
            r@.len() == i,
            all_wf(r@),
            forall|t: int| 0 <= t < i ==> (#[trigger] r@[t]).value() == (a@[t].value() * b@[t].value()) % modulus(),
    {
        r.push(fr_mul(a[i], b[i]));
    }
    assert(values(r@) =~= mul_spec(values(a@), values(b@)));
    r
}

/// Every entry of `a` times `c`.
pub fn scale_entries(a: &[Scalar], c: Scalar) -> (r: Vec<Scalar>)
    requires
        all_wf(a@),
        c.wf(),
    ensures
        r@.len() == a@.len(),
        all_wf(r@),
        values(r@) == scale_spec(values(a@), c.value()),
{
    let mut r: Vec<Scalar> = Vec::new();
    for i in 0..a.len()
        invariant
            all_wf(a@),
            c.wf(),
            r@.len() == i,
            all_wf(r@),
            forall|t: int| 0 <= t < i ==> (#[trigger] r@[t]).value() == (a@[t].value() * c.value()) % modulus(),
    {
        r.push(fr_mul(a[i], c));
    }
    assert(values(r@) =~= scale_spec(values(a@), c.value()));
    r
}

/// The values of a polynomial at the points of a domain, one per point.
#[derive(Clone, Debug, PartialEq, Eq, Hash)]
pub struct Evaluations {
    /// The value at each point of the domain, in the domain's order.
    pub evals: Vec<Scalar>,
    /// The domain; never changed after construction.
    pub domain: Domain,
}

impl View for Evaluations {
    type V = Seq<int>;

    open spec fn view(&self) -> Seq<int> {
        values(self.evals@)
    }
}

impl Evaluations {
    /// One canonical residue for each point of a well-formed domain.
    pub open spec fn wf(&self) -> bool {
        &&& self.domain.wf()
        &&& self.evals@.len() == self.domain.size
        &&& all_wf(self.evals@)
    }

    /// The zero polynomial: zero at every point of `domain`.
    pub fn zero(domain: Domain) -> (r: Evaluations)
        requires
            domain.wf(),
        ensures
            r.wf(),
            r.domain == domain,
            r@ == Seq::new(domain.size as nat, |i: int| 0int),
    {
        let n = domain.size();
        let mut evals: Vec<Scalar> = Vec::new();
        let mut i: u64 = 0;
        while i < n
            invariant
                i <= n,
                n == domain.size,
                evals@.len() == i,
                forall|t: int| 0 <= t < i ==> (#[trigger] evals@[t]).value() == 0,
            decreases n - i,
        {
            evals.push(Scalar::zero());
            i = i + 1;
        }
        let r = Evaluations { evals, domain };
        assert(r@ =~= Seq::new(domain.size as nat, |i: int| 0int));
        r
    }

    /// The polynomial with values `evals` on `domain`.
    pub fn from_vec_and_domain(evals: Vec<Scalar>, domain: Domain) -> (r: Evaluations)
        requires
            domain.wf(),
            evals@.len() == domain.size,
            all_wf(evals@),
        ensures
            r.wf(),
            r.evals == evals,
            r.domain == domain,
    {
        Evaluations { evals, domain }
    }

    /// The coefficients of the polynomial, leaving `self` as it is.
    pub fn interpolate_by_ref(&self) -> (r: DensePolynomial)
        requires
            self.wf(),
        ensures
            r.coeffs@.len() <= self.domain.size,
            DensePolynomial::is_trimmed(r.coeffs@),
            forall|j: int|
                0 <= j < self.domain.size ==> (#[trigger] self.domain.ifft_spec(
                    self.evals@,
                )[j]) == if j < r.coeffs@.len() {
                    r.coeffs@[j].value()
                } else {
                    0
                },
            forall|c: Seq<int>|
                #[trigger] takes_values(c, self.domain, self.evals@) ==> forall|j: int|
                    0 <= j < self.domain.size ==> coeff(r.coeffs@, j) == c[j],
            forall|i: int|
                0 <= i < self.domain.size ==> poly_eval(
                    padded(r.coeffs@, self.domain.size as nat),
                    #[trigger] point(self.domain, i),
                ) % modulus() == self.evals@[i].value(),
    {
        let coeffs = self.domain.ifft(&self.evals);
        let r = DensePolynomial::from_coefficients_vec(coeffs);
        proof {
            assert forall|j: int| 0 <= j < self.domain.size implies (#[trigger] self.domain.ifft_spec(
                self.evals@,
            )[j]) == if j < r.coeffs@.len() {
                r.coeffs@[j].value()
            } else {
                0
            } by {
                assert(coeffs@[j].value() == self.domain.ifft_coeff(self.evals@, j as nat));
                if j < r.coeffs@.len() {
                    assert(r.coeffs@[j] == coeffs@[j]);
                }
            }
            lemma_interpolant_values(self.domain, self.evals@);
            assert(padded(r.coeffs@, self.domain.size as nat) =~= self.domain.ifft_spec(self.evals@));
            assert forall|c: Seq<int>| #[trigger] takes_values(c, self.domain, self.evals@) implies forall|j: int|
                0 <= j < self.domain.size ==> coeff(r.coeffs@, j) == c[j] by {
                lemma_round_trip(self.domain, c, self.evals@);
                assert forall|j: int| 0 <= j < self.domain.size implies coeff(r.coeffs@, j) == c[j] by {
                    assert(self.domain.ifft_spec(self.evals@)[j] == self.domain.ifft_coeff(self.evals@, j as nat));
                }
            }
        }
        r
    }

    /// The coefficients of the polynomial, computed in the storage of the
    /// values.
    pub fn interpolate(self) -> (r: DensePolynomial)
        requires
            self.wf(),
        ensures
            r.coeffs@.len() <= self.domain.size,
            DensePolynomial::is_trimmed(r.coeffs@),
            forall|j: int|
                0 <= j < self.domain.size ==> (#[trigger] self.domain.ifft_spec(
                    self.evals@,
                )[j]) == if j < r.coeffs@.len() {
                    r.coeffs@[j].value()
                } else {
                    0
                },
            forall|c: Seq<int>|
                #[trigger] takes_values(c, self.domain, self.evals@) ==> forall|j: int|
                    0 <= j < self.domain.size ==> coeff(r.coeffs@, j) == c[j],
            forall|i: int|
                0 <= i < self.domain.size ==> poly_eval(
                    padded(r.coeffs@, self.domain.size as nat),
                    #[trigger] point(self.domain, i),
                ) % modulus() == self.evals@[i].value(),
    {
        let Evaluations { mut evals, domain } = self;
        let ghost before = evals@;
        domain.ifft_in_place(&mut evals);
        let ghost coeffs = evals@;
        let r = DensePolynomial::from_coefficients_vec(evals);
        proof {
            assert forall|j: int| 0 <= j < domain.size implies (#[trigger] domain.ifft_spec(
                before,
            )[j]) == if j < r.coeffs@.len() {
                r.coeffs@[j].value()
            } else {
                0
            } by {
                assert(coeffs[j].value() == domain.ifft_coeff(before, j as nat));
                if j < r.coeffs@.len() {
                    assert(r.coeffs@[j] == coeffs[j]);
                }
            }
            lemma_interpolant_values(domain, before);
            assert(padded(r.coeffs@, domain.size as nat) =~= domain.ifft_spec(before));
            assert forall|c: Seq<int>| #[trigger] takes_values(c, domain, before) implies forall|j: int|
                0 <= j < domain.size ==> coeff(r.coeffs@, j) == c[j] by {
                lemma_round_trip(domain, c, before);
                assert forall|j: int| 0 <= j < domain.size implies coeff(r.coeffs@, j) == c[j] by {
                    assert(domain.ifft_spec(before)[j] == domain.ifft_coeff(before, j as nat));
                }
            }
        }
        r
    }

    /// The domain that the values are taken on.
    pub fn domain(&self) -> (r: Domain)
        ensures
            r == self.domain,
    {
        self.domain
    }

    /// The value at point `index` of the domain.
    pub fn index(&self, index: usize) -> (r: &Scalar)
        requires
            self.wf(),
            index < self.domain.size,
        ensures
            *r == self.evals@[index as int],
    {
        &self.evals[index]
    }

    /// The value at point `index` of the domain; `None` past its last point.
    pub fn get(&self, index: usize) -> (r: Option<&Scalar>)
        requires
            self.wf(),
        ensures
            r.is_some() <==> index < self.domain.size,
            r matches Some(x) ==> *x == self.evals@[index as int],
    {
        if index < self.evals.len() {
            Some(&self.evals[index])
        } else {
            None
        }
    }

    /// A copy with the same values and domain.
    pub fn copied(&self) -> (r: Evaluations)
        requires
            self.wf(),
        ensures
            r.wf(),
            r.evals@ == self.evals@,
            r.domain == self.domain,
    {
        let mut evals: Vec<Scalar> = Vec::new();
        for i in 0..self.evals.len()
            invariant
                evals@ == self.evals@.take(i as int),
        {
            evals.push(self.evals[i]);
        }
        assert(evals@ =~= self.evals@);
        Evaluations { evals, domain: self.domain }
    }

    /// Pointwise product with `other`, over the same domain.
    pub fn mul_assign(&mut self, other: &Evaluations)
        requires
            old(self).wf(),
            other.wf(),
            old(self).domain == other.domain,
        ensures
            final(self).wf(),
            final(self).domain == old(self).domain,
            final(self)@ == mul_spec(old(self)@, other@),
    {
        self.evals = mul_entries(self.evals.as_slice(), other.evals.as_slice());
    }

    /// Pointwise product of `self` and `other`, over the same domain.
    pub fn mul(&self, other: &Evaluations) -> (r: Evaluations)
        requires
            self.wf(),
            other.wf(),
            self.domain == other.domain,
        ensures
            r.wf(),
            r.domain == self.domain,
            r@ == mul_spec(self@, other@),
    {
        let mut result = self.copied();
        result.mul_assign(other);
        result
    }

    /// Every value times `elem`, over the same domain.
    pub fn mul_scalar(&self, elem: Scalar) -> (r: Evaluations)
        requires
            self.wf(),
            elem.wf(),
        ensures
            r.wf(),
            r.domain == self.domain,
            r@ == scale_spec(self@, elem.value()),
    {
        Evaluations { evals: scale_entries(self.evals.as_slice(), elem), domain: self.domain }
    }

    /// Pointwise sum with `other`, over the same domain.
    pub fn add_assign(&mut self, other: &Evaluations)
        requires
            old(self).wf(),
            other.wf(),
            old(self).domain == other.domain,
        ensures
            final(self).wf(),
            final(self).domain == old(self).domain,
            final(self)@ == add_spec(old(self)@, other@),
    {
        self.evals = add_entries(self.evals.as_slice(), other.evals.as_slice());
    }

    /// Pointwise sum of `self` and `other`, over the same domain.
    pub fn add(&self, other: &Evaluations) -> (r: Evaluations)
        requires
            self.wf(),
            other.wf(),
            self.domain == other.domain,
        ensures
            r.wf(),
            r.domain == self.domain,
            r@ == add_spec(self@, other@),
    {
        let mut result = self.copied();
        result.add_assign(other);
        result
    }

    /// Pointwise difference with `other`, over the same domain.
    pub fn sub_assign(&mut self, other: &Evaluations)
        requires
            old(self).wf(),
            other.wf(),
            old(self).domain == other.domain,
        ensures
            final(self).wf(),
            final(self).domain == old(self).domain,
            final(self)@ == sub_spec(old(self)@, other@),
    {
        self.evals = sub_entries(self.evals.as_slice(), other.evals.as_slice());
    }

    /// Pointwise difference of `self` and `other`, over the same domain.
    pub fn sub(&self, other: &Evaluations) -> (r: Evaluations)
        requires
            self.wf(),
            other.wf(),
            self.domain == other.domain,
        ensures
            r.wf(),
            r.domain == self.domain,
            r@ == sub_spec(self@, other@),
    {
        let mut result = self.copied();
        result.sub_assign(other);
        result
    }

    /// Pointwise quotient by `other`, over the same domain: the values of
    /// `other` are inverted in one batch. A zero value of `other` has no
    /// inverse and gives zero.
    pub fn div_assign(&mut self, other: &Evaluations)
        requires
            old(self).wf(),
            other.wf(),
            old(self).domain == other.domain,
        ensures
            final(self).wf(),
            final(self).domain == old(self).domain,
            is_quotient(final(self)@, old(self)@, other@),
    {
        let mut inverses = other.copied().evals;
        fr_batch_inversion(&mut inverses);
        let ghost a = self.evals@;
        let ghost b = other.evals@;
        let ghost v = inverses@;
        self.evals = mul_entries(self.evals.as_slice(), inverses.as_slice());
        proof {
            assert forall|i: int| 0 <= i < a.len() implies {
                &&& b[i].value() == 0 ==> self@[i] == 0
                &&& b[i].value() != 0 ==> (self@[i] * b[i].value()) % modulus() == a[i].value()
            } by {
                let (x, y, z) = (a[i].value(), b[i].value(), v[i].value());
                let m = modulus();
                assert(self@[i] == (x * z) % m);
                assert(a[i].wf() && b[i].wf() && v[i].wf());
                if y == 0 {
                    assert(z == 0);
                    assert(x * z == 0) by (nonlinear_arith)
                        requires
                            z == 0,
                    ;
                    lemma_small(0);
                } else {
                    assert((y * z) % m == 1);
                    lemma_small(y);
                    lemma_small(x);
                    lemma_mul_mod(x * z, y);
                    lemma_mul_mod(x, z * y);
                    assert((x * z) * y == x * (z * y)) by (nonlinear_arith);
                    assert(z * y == y * z) by (nonlinear_arith);
                    lemma_small(1);
                    assert(x * 1 == x);
                    assert((self@[i] * y) % m == x);
                }
            }
        }
    }

    /// Pointwise quotient of `self` by `other`, over the same domain.
    pub fn div(&self, other: &Evaluations) -> (r: Evaluations)
        requires
            self.wf(),
            other.wf(),
            self.domain == other.domain,
        ensures
            r.wf(),
            r.domain == self.domain,
            is_quotient(r@, self@, other@),
    {
        let mut result = self.copied();
        result.div_assign(other);
        result
    }
}

/// Ring laws over a common domain: addition is associative and
/// commutative, `A - A` is the zero polynomial, and multiplication is
/// commutative.
pub proof fn lemma_ring_laws(a: Evaluations, b: Evaluations, c: Evaluations)
    requires
        a.wf(),
        b.wf(),
        c.wf(),
        a.domain == b.domain,
        b.domain == c.domain,
    ensures
        add_spec(add_spec(a@, b@), c@) == add_spec(a@, add_spec(b@, c@)),
        add_spec(a@, b@) == add_spec(b@, a@),
        sub_spec(a@, a@) == Seq::new(a.domain.size as nat, |i: int| 0int),
        mul_spec(a@, b@) == mul_spec(b@, a@),
{
    let m = modulus();
    assert forall|i: int| 0 <= i < a@.len() implies add_spec(add_spec(a@, b@), c@)[i] == add_spec(
        a@,
        add_spec(b@, c@),
    )[i] by {
        let (x, y, z) = (a@[i], b@[i], c@[i]);
        assert(a.evals@[i].wf() && c.evals@[i].wf());
        lemma_small(x);
        lemma_small(z);
        lemma_add_mod(x + y, z);
        lemma_add_mod(x, y + z);
        vstd::arithmetic::div_mod::lemma_mod_twice(x + y, m);
        vstd::arithmetic::div_mod::lemma_mod_twice(y + z, m);
        assert((x + y) + z == x + (y + z));
    }
    assert forall|i: int| 0 <= i < a@.len() implies mul_spec(a@, b@)[i] == mul_spec(b@, a@)[i] by {
        assert(a@[i] * b@[i] == b@[i] * a@[i]) by (nonlinear_arith);
    }
    assert forall|i: int| 0 <= i < a@.len() implies sub_spec(a@, a@)[i] == 0 by {
        vstd::arithmetic::div_mod::lemma_mod_self_0(m);
        assert(a@[i] - a@[i] == 0);
        lemma_small(0);
    }
    assert(add_spec(add_spec(a@, b@), c@) =~= add_spec(a@, add_spec(b@, c@)));
    assert(add_spec(a@, b@) =~= add_spec(b@, a@));
    assert(sub_spec(a@, a@) =~= Seq::new(a.domain.size as nat, |i: int| 0int));
    assert(mul_spec(a@, b@) =~= mul_spec(b@, a@));
}

/// Division undone by multiplication: where `B` has no zero value,
/// `(A / B) * B == A`.
pub proof fn lemma_div_mul_inverse(a: Evaluations, b: Evaluations)
    requires
        a.wf(),
        b.wf(),
        a.domain == b.domain,
        forall|i: int| 0 <= i < b@.len() ==> #[trigger] b@[i] != 0,
    ensures
        forall|q: Seq<int>| #[trigger] is_quotient(q, a@, b@) ==> mul_spec(q, b@) == a@,
{
    assert forall|q: Seq<int>| #[trigger] is_quotient(q, a@, b@) implies mul_spec(q, b@) == a@ by {
        assert forall|i: int| 0 <= i < a@.len() implies mul_spec(q, b@)[i] == a@[i] by {
            assert(q[i] >= 0);
            assert(b@[i] != 0);
        }
        assert(mul_spec(q, b@) =~= a@);
    }
}

/// Splitting the values into two runs at any point, applying an entrywise
/// operation to each run and joining the results gives the same as
/// applying it to the whole: chunked or parallel evaluation cannot change
/// the result.
pub proof fn lemma_entrywise_split(a: Seq<int>, b: Seq<int>, c: int, k: int)
    requires
        a.len() == b.len(),
        0 <= k <= a.len(),
    ensures
        add_spec(a, b) == add_spec(a.take(k), b.take(k)) + add_spec(a.skip(k), b.skip(k)),
        sub_spec(a, b) == sub_spec(a.take(k), b.take(k)) + sub_spec(a.skip(k), b.skip(k)),
        mul_spec(a, b) == mul_spec(a.take(k), b.take(k)) + mul_spec(a.skip(k), b.skip(k)),
        scale_spec(a, c) == scale_spec(a.take(k), c) + scale_spec(a.skip(k), c),
{
    assert(add_spec(a, b) =~= add_spec(a.take(k), b.take(k)) + add_spec(a.skip(k), b.skip(k)));
    assert(sub_spec(a, b) =~= sub_spec(a.take(k), b.take(k)) + sub_spec(a.skip(k), b.skip(k)));
    assert(mul_spec(a, b) =~= mul_spec(a.take(k), b.take(k)) + mul_spec(a.skip(k), b.skip(k)));
    assert(scale_spec(a, c) =~= scale_spec(a.take(k), c) + scale_spec(a.skip(k), c));
}

} // verus!
