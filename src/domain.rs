//! Multiplicative subgroups of the scalar field (and their cosets) of
//! power-of-two order, with the inverse transform from evaluations at the
//! points of the domain to the coefficients of a polynomial.
use crate::field::{
    all_wf, fr_add, fr_batch_inversion, fr_mul, fr_root_of_unity, lemma_add_mod, lemma_mul_mod,
    lemma_small, modulus, power, Scalar,
};
use vstd::prelude::*;

verus! {

/// The largest domain: the field's two-adicity is 32.
pub const MAX_DOMAIN_SIZE: u64 = 0x1_0000_0000;

/// `n` is a power of two that the field has a subgroup of.
pub open spec fn is_domain_size(n: int) -> bool {
    exists|k: nat| k <= 32 && power(2, k) == n
}

/// The points `offset * group_gen^i` for `i < size`.
#[derive(Clone, Copy, Debug, PartialEq, Eq, Hash)]
pub struct Domain {
    pub size: u64,
    pub size_inv: Scalar,
    pub group_gen: Scalar,
    pub group_gen_inv: Scalar,
    pub offset: Scalar,
    pub offset_inv: Scalar,
}

/// `a` and `b` are inverse residues.
pub open spec fn inverses(a: int, b: int) -> bool {
    (a * b) % modulus() == 1
}

/// `sum_{i < k} e[i] * w^i`, over the integers.
pub open spec fn weighted_sum(e: Seq<Scalar>, w: int, k: nat) -> int
    decreases k,
{
    if k == 0 {
        0
    } else {
        weighted_sum(e, w, (k - 1) as nat) + e[k - 1].value() * power(w, (k - 1) as nat)
    }
}

impl Domain {
    pub open spec fn wf(self) -> bool {
        &&& is_domain_size(self.size as int)
        &&& self.size_inv.wf()
        &&& self.group_gen.wf()
        &&& self.group_gen_inv.wf()
        &&& self.offset.wf()
        &&& self.offset_inv.wf()
        &&& inverses(self.size as int, self.size_inv.value())
        &&& inverses(self.group_gen.value(), self.group_gen_inv.value())
        &&& inverses(self.offset.value(), self.offset_inv.value())
        &&& self.size >= 2 ==> power(self.group_gen.value(), (self.size / 2) as nat) % modulus()
            == modulus() - 1
    }

    /// Coefficient `j` of the polynomial that takes the values `e` on the
    /// domain: `offset^-j * size^-1 * sum_i e[i] * group_gen^(-i*j)`.
    pub open spec fn ifft_coeff(self, e: Seq<Scalar>, j: nat) -> int {
        (power(self.offset_inv.value(), j) * self.size_inv.value() * weighted_sum(
            e,
            power(self.group_gen_inv.value(), j),
            self.size as nat,
        )) % modulus()
    }

    /// The coefficients of the polynomial that takes the values `e` on the
    /// domain.
    pub open spec fn ifft_spec(self, e: Seq<Scalar>) -> Seq<int> {
        Seq::new(self.size as nat, |j: int| self.ifft_coeff(e, j as nat))
    }

    /// The subgroup of the smallest power-of-two order that holds at least
    /// `num_coeffs` points; `None` where that order is over `2^32`.
    pub fn new(num_coeffs: u64) -> (r: Option<Domain>)
        ensures
            r.is_some() <==> num_coeffs <= MAX_DOMAIN_SIZE,
            r matches Some(d) ==> {
                &&& d.wf()
                &&& d.size >= num_coeffs
                &&& d.size == 1 || d.size / 2 < num_coeffs
                &&& d.offset.value() == 1
            },
    {
        if num_coeffs > MAX_DOMAIN_SIZE {
            return None;
        }
        let mut size: u64 = 1;
        let mut k: u32 = 0;
        proof {
            lemma_power2_32();
        }
        while size < num_coeffs
            invariant
                num_coeffs <= MAX_DOMAIN_SIZE,
                k <= 32,
                size == power(2, k as nat),
                size == 1 || size / 2 < num_coeffs,
                power(2, 32) == MAX_DOMAIN_SIZE,
            decreases 32 - k,
        {
            assert(power(2, (k + 1) as nat) == 2 * power(2, k as nat));
            size = size * 2;
            k = k + 1;
        }
        let group_gen = fr_root_of_unity(size);
        proof {
            lemma_power_zero(size as nat);
        }
        let mut invs: Vec<Scalar> = vec![group_gen, Scalar::from_u64(size)];
        fr_batch_inversion(&mut invs);
        let one = Scalar::one();
        proof {
            lemma_small(1);
        }
        Some(
            Domain {
                size,
                size_inv: invs[1],
                group_gen,
                group_gen_inv: invs[0],
                offset: one,
                offset_inv: one,
            },
        )
    }

    /// The same subgroup shifted by `offset`; `None` where `offset` is zero.
    pub fn get_coset(&self, offset: Scalar) -> (r: Option<Domain>)
        requires
            self.wf(),
            offset.wf(),
        ensures
            r.is_some() <==> offset.value() != 0,
            r matches Some(d) ==> {
                &&& d.wf()
                &&& d.size == self.size
                &&& d.group_gen == self.group_gen
                &&& d.offset == offset
            },
    {
        if offset.is_zero() {
            return None;
        }
        let mut invs: Vec<Scalar> = vec![offset];
        fr_batch_inversion(&mut invs);
        Some(Domain { offset, offset_inv: invs[0], ..*self })
    }

    /// The number of points.
    pub fn size(&self) -> (r: u64)
        requires
            self.wf(),
        ensures
            r == self.size,
            1 <= r <= MAX_DOMAIN_SIZE,
    {
        proof {
            lemma_power2_32();
            lemma_domain_size_bound(self.size as int);
        }
        self.size
    }

    /// Interpolation: the coefficients of the polynomial of degree under
    /// `size` that takes the values `evals` on the domain.
    pub fn ifft(&self, evals: &Vec<Scalar>) -> (r: Vec<Scalar>)
        requires
            self.wf(),
            evals@.len() == self.size,
            all_wf(evals@),
        ensures
            r@.len() == self.size,
            all_wf(r@),
            forall|j: int| 0 <= j < self.size ==> (#[trigger] r@[j]).value() == self.ifft_coeff(evals@, j as nat),
    {
        let n = evals.len();
        let mut coeffs: Vec<Scalar> = Vec::new();
        let mut wj = Scalar::one();
        let mut oj = Scalar::one();
        let ghost m = modulus();
        let ghost g = self.group_gen_inv.value();
        let ghost o = self.offset_inv.value();
        proof {
            lemma_small(1);
        }
        for j in 0..n
            invariant
                n == self.size,
                self.wf(),
                evals@.len() == n,
                all_wf(evals@),
                coeffs@.len() == j,
                all_wf(coeffs@),
                forall|t: int| 0 <= t < j ==> (#[trigger] coeffs@[t]).value() == self.ifft_coeff(evals@, t as nat),
                wj.wf(),
                oj.wf(),
                wj.value() == power(g, j as nat) % m,
                oj.value() == power(o, j as nat) % m,
                m == modulus(),
                g == self.group_gen_inv.value(),
                o == self.offset_inv.value(),
        {
            let ghost w = power(g, j as nat);
            let mut acc = Scalar::zero();
            let mut pw = Scalar::one();
            proof {
                lemma_small(0);
                lemma_small(1);
            }
            for i in 0..n
                invariant
                    n == self.size,
                    evals@.len() == n,
                    all_wf(evals@),
                    acc.wf(),
                    pw.wf(),
                    wj.wf(),
                    wj.value() == w % m,
                    acc.value() == weighted_sum(evals@, w, i as nat) % m,
                    pw.value() == power(w, i as nat) % m,
                    m == modulus(),
            {
                let t = fr_mul(evals[i], pw);
                proof {
                    lemma_small(evals@[i as int].value());
                    lemma_mul_mod(evals@[i as int].value(), power(w, i as nat));
                    lemma_add_mod(
                        weighted_sum(evals@, w, i as nat),
                        evals@[i as int].value() * power(w, i as nat),
                    );
                    lemma_mul_mod(power(w, i as nat), w);
                    assert(power(w, (i + 1) as nat) == w * power(w, i as nat));
                    assert(power(w, i as nat) * w == w * power(w, i as nat)) by (nonlinear_arith);
                }
                acc = fr_add(acc, t);
                pw = fr_mul(pw, wj);
            }
            let scale = fr_mul(oj, self.size_inv);
            let c = fr_mul(scale, acc);
            proof {
                let s = self.size_inv.value();
                let ws = weighted_sum(evals@, w, n as nat);
                lemma_small(s);
                lemma_mul_mod(power(o, j as nat), s);
                lemma_mul_mod(power(o, j as nat) * s, ws);
                lemma_mul_mod(power(g, j as nat), g);
                lemma_mul_mod(power(o, j as nat), o);
                lemma_small(g);
                lemma_small(o);
                assert(power(g, (j + 1) as nat) == g * power(g, j as nat));
                assert(power(o, (j + 1) as nat) == o * power(o, j as nat));
                assert(power(g, j as nat) * g == g * power(g, j as nat)) by (nonlinear_arith);
                assert(power(o, j as nat) * o == o * power(o, j as nat)) by (nonlinear_arith);
            }
            coeffs.push(c);
            wj = fr_mul(wj, self.group_gen_inv);
            oj = fr_mul(oj, self.offset_inv);
        }
        coeffs
    }

    /// Interpolation in place: `evals` becomes the coefficients.
    pub fn ifft_in_place(&self, evals: &mut Vec<Scalar>)
        requires
            self.wf(),
            old(evals)@.len() == self.size,
            all_wf(old(evals)@),
        ensures
            final(evals)@.len() == self.size,
            all_wf(final(evals)@),
            forall|j: int| 0 <= j < self.size ==> (#[trigger] final(evals)@[j]).value() == self.ifft_coeff(old(evals)@, j as nat),
    {
        let coeffs = self.ifft(evals);
        *evals = coeffs;
    }
}

proof fn lemma_power2_32()
    ensures
        power(2, 32) == MAX_DOMAIN_SIZE,
{
    reveal_with_fuel(power, 33);
}

proof fn lemma_domain_size_bound(n: int)
    requires
        is_domain_size(n),
        power(2, 32) == MAX_DOMAIN_SIZE,
    ensures
        1 <= n <= MAX_DOMAIN_SIZE,
{
    let k = choose|k: nat| k <= 32 && power(2, k) == n;
    lemma_power2_mono(k, 32);
}

proof fn lemma_power2_mono(a: nat, b: nat)
    requires
        a <= b,
    ensures
        1 <= power(2, a) <= power(2, b),
    decreases b,
{
    if a < b {
        lemma_power2_mono(a, (b - 1) as nat);
    } else if a > 0 {
        lemma_power2_mono((a - 1) as nat, (a - 1) as nat);
    }
}

/// A root of unity is not zero.
proof fn lemma_power_zero(n: nat)
    requires
        n >= 1,
    ensures
        power(0, n) % modulus() == 0,
{
    assert(power(0, n) == 0 * power(0, (n - 1) as nat));
}

} // verus!
