//! Interpolation undoes evaluation: the inverse transform of a domain takes
//! the values of a polynomial of degree under the domain's size back to its
//! coefficients.
use crate::domain::{inverses, weighted_sum, Domain};
use crate::field::{lemma_add_mod, lemma_mul_mod, lemma_small, modulus, power, Scalar};
use vstd::prelude::*;

verus! {

/// `sum_{i < n} f(i)`.
pub open spec fn sum(f: spec_fn(int) -> int, n: nat) -> int
    decreases n,
{
    if n == 0 {
        0
    } else {
        sum(f, (n - 1) as nat) + f(n - 1)
    }
}

/// The value at `x` of the polynomial with coefficients `c`, over the
/// integers.
pub open spec fn poly_eval(c: Seq<int>, x: int) -> int {
    sum(|k: int| c[k] * power(x, k as nat), c.len())
}

/// `c` holds one coefficient per point of `d` (zero above the degree), and
/// `e` holds the values of that polynomial at the points of `d`.
pub open spec fn takes_values(c: Seq<int>, d: Domain, e: Seq<Scalar>) -> bool {
    &&& c.len() == d.size
    &&& forall|k: int| 0 <= k < c.len() ==> 0 <= #[trigger] c[k] < modulus()
    &&& e.len() == d.size
    &&& forall|i: int|
        0 <= i < d.size ==> #[trigger] e[i].value() == poly_eval(c, point(d, i)) % modulus()
}

/// Coefficient `j` of the coefficient list `p`, zero past its end.
pub open spec fn coeff(p: Seq<Scalar>, j: int) -> int {
    if 0 <= j < p.len() {
        p[j].value()
    } else {
        0
    }
}

/// Point `i` of the domain: `offset * group_gen^i`.
pub open spec fn point(d: Domain, i: int) -> int {
    d.offset.value() * power(d.group_gen.value(), i as nat)
}

proof fn lemma_power_add(x: int, a: nat, b: nat)
    ensures
        power(x, a + b) == power(x, a) * power(x, b),
    decreases a,
{
    if a > 0 {
        lemma_power_add(x, (a - 1) as nat, b);
        assert(power(x, a + b) == x * power(x, (a - 1 + b) as nat));
        assert(x * (power(x, (a - 1) as nat) * power(x, b)) == (x * power(x, (a - 1) as nat))
            * power(x, b)) by (nonlinear_arith);
    }
}

proof fn lemma_power_mul(x: int, a: nat, b: nat)
    ensures
        power(x, a * b) == power(power(x, a), b),
    decreases b,
{
    if b > 0 {
        lemma_power_mul(x, a, (b - 1) as nat);
        assert(a * b == a * (b - 1) + a) by (nonlinear_arith)
            requires
                b > 0,
        ;
        let p = (a * (b - 1)) as nat;
        assert(p + a == a * b);
        lemma_power_add(x, p, a);
        assert(power(power(x, a), b) == power(x, a) * power(power(x, a), (b - 1) as nat));
        assert(power(x, p) * power(x, a) == power(x, a) * power(x, p)) by (nonlinear_arith);
    } else {
        assert(a * b == 0) by (nonlinear_arith)
            requires
                b == 0,
        ;
    }
}

proof fn lemma_power_distrib(x: int, y: int, a: nat)
    ensures
        power(x * y, a) == power(x, a) * power(y, a),
    decreases a,
{
    if a > 0 {
        lemma_power_distrib(x, y, (a - 1) as nat);
        let (p, q) = (power(x, (a - 1) as nat), power(y, (a - 1) as nat));
        assert((x * y) * (p * q) == (x * p) * (y * q)) by (nonlinear_arith);
    }
}

proof fn lemma_power_mod(x: int, a: nat)
    ensures
        power(x, a) % modulus() == power(x % modulus(), a) % modulus(),
    decreases a,
{
    if a > 0 {
        lemma_power_mod(x, (a - 1) as nat);
        let m = modulus();
        lemma_mul_mod(x, power(x, (a - 1) as nat));
        lemma_mul_mod(x % m, power(x % m, (a - 1) as nat));
        vstd::arithmetic::div_mod::lemma_mod_twice(x, m);
    }
}

proof fn lemma_power_one(a: nat)
    ensures
        power(1, a) == 1,
    decreases a,
{
    if a > 0 {
        lemma_power_one((a - 1) as nat);
    }
}

proof fn lemma_sum_ext(f: spec_fn(int) -> int, h: spec_fn(int) -> int, n: nat)
    requires
        forall|i: int| 0 <= i < n ==> #[trigger] f(i) == h(i),
    ensures
        sum(f, n) == sum(h, n),
    decreases n,
{
    if n > 0 {
        lemma_sum_ext(f, h, (n - 1) as nat);
    }
}

proof fn lemma_sum_mod(f: spec_fn(int) -> int, h: spec_fn(int) -> int, n: nat)
    requires
        forall|i: int| 0 <= i < n ==> #[trigger] f(i) % modulus() == h(i) % modulus(),
    ensures
        sum(f, n) % modulus() == sum(h, n) % modulus(),
    decreases n,
{
    if n > 0 {
        lemma_sum_mod(f, h, (n - 1) as nat);
        lemma_add_mod(sum(f, (n - 1) as nat), f(n - 1));
        lemma_add_mod(sum(h, (n - 1) as nat), h(n - 1));
    }
}

proof fn lemma_sum_add(f: spec_fn(int) -> int, h: spec_fn(int) -> int, n: nat)
    ensures
        sum(|i: int| f(i) + h(i), n) == sum(f, n) + sum(h, n),
    decreases n,
{
    if n > 0 {
        lemma_sum_add(f, h, (n - 1) as nat);
    }
}

proof fn lemma_sum_scale(f: spec_fn(int) -> int, c: int, n: nat)
    ensures
        sum(|i: int| c * f(i), n) == c * sum(f, n),
    decreases n,
{
    if n > 0 {
        lemma_sum_scale(f, c, (n - 1) as nat);
        assert(c * sum(f, (n - 1) as nat) + c * f(n - 1) == c * (sum(f, (n - 1) as nat) + f(n
            - 1))) by (nonlinear_arith);
    }
}

proof fn lemma_sum_swap(f: spec_fn(int, int) -> int, a: nat, b: nat)
    ensures
        sum(|i: int| sum(|k: int| f(i, k), b), a) == sum(|k: int| sum(|i: int| f(i, k), a), b),
    decreases a,
{
    if a > 0 {
        lemma_sum_swap(f, (a - 1) as nat, b);
        let prev = |k: int| sum(|i: int| f(i, k), (a - 1) as nat);
        let last = |k: int| f(a - 1, k);
        let whole = |k: int| sum(|i: int| f(i, k), a);
        lemma_sum_add(prev, last, b);
        assert forall|k: int| 0 <= k < b implies #[trigger] whole(k) == prev(k) + last(k) by {}
        lemma_sum_ext(whole, |k: int| prev(k) + last(k), b);
        let rows = |i: int| sum(|k: int| f(i, k), b);
        assert(sum(rows, a) == sum(rows, (a - 1) as nat) + rows(a - 1));
        lemma_sum_ext(|k: int| f(a - 1, k), last, b);
        assert(sum(rows, (a - 1) as nat) == sum(prev, b));
        assert(rows(a - 1) == sum(last, b));
    } else {
        let empty = |k: int| sum(|i: int| f(i, k), a);
        lemma_sum_scale(empty, 0, b);
        lemma_sum_ext(empty, |k: int| 0 * empty(k), b);
    }
}

proof fn lemma_sum_split(f: spec_fn(int) -> int, a: nat, b: nat)
    ensures
        sum(f, a + b) == sum(f, a) + sum(|i: int| f(a + i), b),
    decreases b,
{
    if b > 0 {
        lemma_sum_split(f, a, (b - 1) as nat);
    }
}

/// All terms but term `j` vanish, so the sum is term `j`.
proof fn lemma_sum_single(f: spec_fn(int) -> int, n: nat, j: int)
    requires
        0 <= j < n,
        forall|i: int| 0 <= i < n && i != j ==> #[trigger] f(i) % modulus() == 0,
    ensures
        sum(f, n) % modulus() == f(j) % modulus(),
    decreases n,
{
    let m = modulus();
    if n - 1 == j {
        lemma_sum_zero(f, (n - 1) as nat);
        lemma_add_mod(sum(f, (n - 1) as nat), f(j));
        lemma_small(0);
        vstd::arithmetic::div_mod::lemma_mod_twice(f(j), m);
    } else {
        lemma_sum_single(f, (n - 1) as nat, j);
        lemma_add_mod(sum(f, (n - 1) as nat), f(n - 1));
        vstd::arithmetic::div_mod::lemma_mod_twice(f(j), m);
    }
}

proof fn lemma_sum_zero(f: spec_fn(int) -> int, n: nat)
    requires
        forall|i: int| 0 <= i < n ==> #[trigger] f(i) % modulus() == 0,
    ensures
        sum(f, n) % modulus() == 0,
    decreases n,
{
    if n > 0 {
        lemma_sum_zero(f, (n - 1) as nat);
        lemma_add_mod(sum(f, (n - 1) as nat), f(n - 1));
        assert(f(n - 1) % modulus() == 0);
        lemma_small(0);
        assert(sum(f, n) == sum(f, (n - 1) as nat) + f(n - 1));
    } else {
        lemma_small(0);
    }
}

/// `sum_{i < n} x^i`.
pub open spec fn geo(x: int, n: nat) -> int {
    sum(|i: int| power(x, i as nat), n)
}

proof fn lemma_geo_halves(x: int, h: nat)
    ensures
        geo(x, 2 * h) == geo(x, h) + power(x, h) * geo(x, h),
{
    let f = |i: int| power(x, i as nat);
    lemma_sum_split(f, h, h);
    let shifted = |i: int| f(h + i);
    assert forall|i: int| 0 <= i < h implies #[trigger] shifted(i) == power(x, h) * f(i) by {
        lemma_power_add(x, h, i as nat);
    }
    lemma_sum_ext(shifted, |i: int| power(x, h) * f(i), h);
    lemma_sum_scale(f, power(x, h), h);
}

proof fn lemma_geo_one(n: nat)
    ensures
        geo(1, n) == n,
    decreases n,
{
    if n > 0 {
        lemma_geo_one((n - 1) as nat);
        lemma_power_one((n - 1) as nat);
    }
}

/// `(-1)^d` is `-1` for odd `d`.
proof fn lemma_minus_one_odd(d: nat)
    requires
        d % 2 == 1,
    ensures
        power(modulus() - 1, d) % modulus() == modulus() - 1,
    decreases d,
{
    let m = modulus();
    lemma_small(m - 1);
    if d >= 3 {
        lemma_minus_one_odd((d - 2) as nat);
        let p = power(m - 1, (d - 2) as nat);
        assert(power(m - 1, d) == (m - 1) * power(m - 1, (d - 1) as nat));
        assert(power(m - 1, (d - 1) as nat) == (m - 1) * p);
        assert((m - 1) * ((m - 1) * p) == ((m - 1) * (m - 1)) * p) by (nonlinear_arith);
        assert((m - 1) * (m - 1) == m * (m - 2) + 1) by (nonlinear_arith);
        vstd::arithmetic::div_mod::lemma_mod_multiples_vanish(m - 2, 1, m);
        lemma_small(1);
        lemma_mul_mod((m - 1) * (m - 1), p);
        assert(((m - 1) * (m - 1)) % m == 1);
        assert(((m - 1) * (m - 1) * p) % m == (1 * (m - 1)) % m);
    } else {
        assert(d == 1);
        assert(power(m - 1, 1) == (m - 1) * power(m - 1, 0));
    }
}

/// Over a subgroup of order `2^s` (its generator `w` has `w^(2^s / 2) == -1`),
/// `sum_i w^(d*i)` vanishes for `0 < d < 2 * 2^s` other than `2^s`.
proof fn lemma_orthogonal(w: int, s: nat, d: nat)
    requires
        s >= 1,
        power(w, (power(2, s) / 2) as nat) % modulus() == modulus() - 1,
        0 < d < 2 * power(2, s),
        d != power(2, s),
    ensures
        geo(power(w, d), power(2, s) as nat) % modulus() == 0,
    decreases s,
{
    let m = modulus();
    let n = power(2, s);
    let h = power(2, (s - 1) as nat);
    lemma_power2_pos((s - 1) as nat);
    assert(n == 2 * h);
    assert(n / 2 == h);
    let x = power(w, d);
    let g = geo(x, h as nat);
    lemma_geo_halves(x, h as nat);
    let xh = power(x, h as nat);
    if d % 2 == 1 {
        lemma_power_mul(w, d, h as nat);
        lemma_power_mul(w, h as nat, d);
        assert(d * h == h * d) by (nonlinear_arith);
        lemma_power_mod(power(w, h as nat), d);
        lemma_minus_one_odd(d);
        vstd::arithmetic::div_mod::lemma_mod_twice(power(w, h as nat), m);
        assert(xh % m == m - 1);
        lemma_mul_mod(xh, g);
        lemma_mul_mod(m - 1, g);
        lemma_small(m - 1);
        lemma_add_mod(g, xh * g);
        lemma_add_mod(g, (m - 1) * g);
        assert(g + (m - 1) * g == g * m) by (nonlinear_arith);
        vstd::arithmetic::div_mod::lemma_mod_multiples_basic(g, m);
    } else {
        let e = (d / 2) as nat;
        assert(d == 2 * e);
        if s == 1 {
            assert(power(2, 1) == 2);
        } else {
            let w2 = power(w, 2);
            lemma_power_mul(w, 2, e);
            lemma_power2_pos((s - 2) as nat);
            assert(h == 2 * power(2, (s - 2) as nat));
            assert(h / 2 == power(2, (s - 2) as nat));
            lemma_power_mul(w, 2, (h / 2) as nat);
            assert(2 * (h / 2) == h);
            lemma_orthogonal(w2, (s - 1) as nat, e);
            assert(g % m == 0);
            lemma_mul_mod(xh, g);
            lemma_small(0);
            assert((xh % m) * 0 == 0);
            lemma_add_mod(g, xh * g);
        }
    }
}

/// Two residues with a common inverse are equal.
proof fn lemma_cancel(a: int, b: int, c: int)
    requires
        (a * c) % modulus() == 1,
        (b * c) % modulus() == 1,
    ensures
        a % modulus() == b % modulus(),
{
    let m = modulus();
    assert(a * (b * c) == (a * c) * b) by (nonlinear_arith);
    lemma_mul_mod(a, b * c);
    lemma_mul_mod(a * c, b);
    lemma_small(1);
    vstd::arithmetic::div_mod::lemma_mod_twice(a, m);
    vstd::arithmetic::div_mod::lemma_mod_twice(b, m);
    assert((a % m) * 1 == a % m);
    assert(1 * (b % m) == b % m);
}

/// Residues congruent to 1 multiply to something congruent to 1.
proof fn lemma_power_of_unit(x: int, a: nat)
    requires
        x % modulus() == 1,
    ensures
        power(x, a) % modulus() == 1,
{
    lemma_power_mod(x, a);
    lemma_power_one(a);
    lemma_small(1);
}

proof fn lemma_weighted_sum(e: Seq<Scalar>, x: int, k: nat)
    ensures
        weighted_sum(e, x, k) == sum(|i: int| e[i].value() * power(x, i as nat), k),
    decreases k,
{
    if k > 0 {
        lemma_weighted_sum(e, x, (k - 1) as nat);
    }
}

/// The generator to the power of the domain's size is 1.
proof fn lemma_gen_order(d: Domain)
    requires
        d.wf(),
        d.size >= 2,
    ensures
        power(d.group_gen.value(), d.size as nat) % modulus() == 1,
{
    let m = modulus();
    let w = d.group_gen.value();
    let h = (d.size / 2) as nat;
    let k = choose|k: nat| k <= 32 && power(2, k) == d.size;
    if k == 0 {
        assert(power(2, 0) == 1);
    }
    lemma_power2_pos(k);
    assert(h * 2 == d.size);
    lemma_power_mul(w, h, 2);
    lemma_power_mod(power(w, h), 2);
    lemma_minus_one_odd(1);
    assert(power(m - 1, 1) == (m - 1) * power(m - 1, 0));
    assert(power(m - 1, 2) == (m - 1) * power(m - 1, 1));
    assert((m - 1) * ((m - 1) * 1) == m * (m - 2) + 1) by (nonlinear_arith);
    vstd::arithmetic::div_mod::lemma_mod_multiples_vanish(m - 2, 1, m);
    lemma_small(1);
}

/// The sum `sum_i w^(d*i)` over the domain: the size where `d` is 0 or the
/// size, and 0 for other `d` under twice the size.
proof fn lemma_character_sum(d: Domain, e: nat)
    requires
        d.wf(),
        e < 2 * d.size,
        e == 0 || e == d.size ==> (e == 0 || d.size >= 2),
    ensures
        geo(power(d.group_gen.value(), e), d.size as nat) % modulus() == if e == 0 || e
            == d.size {
            (d.size as int) % modulus()
        } else {
            0
        },
{
    let m = modulus();
    let w = d.group_gen.value();
    let n = d.size as nat;
    let s = choose|k: nat| k <= 32 && power(2, k) == d.size;
    if e == 0 {
        assert(power(w, 0) == 1);
        lemma_geo_one(n);
    } else if e == n {
        lemma_gen_order(d);
        let x = power(w, n);
        assert forall|i: int| 0 <= i < n implies #[trigger] power(x, i as nat) % m == power(
            1,
            i as nat,
        ) % m by {
            lemma_power_mod(x, i as nat);
            lemma_power_mod(1, i as nat);
            lemma_small(1);
        }
        lemma_sum_mod(|i: int| power(x, i as nat), |i: int| power(1, i as nat), n);
        lemma_geo_one(n);
    } else {
        if s == 0 {
            assert(power(2, 0) == 1);
        }
        lemma_power2_pos(s);
        lemma_orthogonal(w, s, e);
    }
}

/// The inverse transform takes the values of a polynomial of degree under
/// the domain's size, at the points of the domain, back to its
/// coefficients: `c` holds one coefficient per point, lowest first (zero
/// above the degree), and `e[i]` is the polynomial's value at point `i`.
pub proof fn lemma_round_trip(d: Domain, c: Seq<int>, e: Seq<Scalar>)
    requires
        d.wf(),
        takes_values(c, d, e),
    ensures
        forall|j: int| 0 <= j < d.size ==> #[trigger] d.ifft_coeff(e, j as nat) == c[j],
{
    assert forall|j: int| 0 <= j < d.size implies #[trigger] d.ifft_coeff(e, j as nat) == c[j] by {
        lemma_round_trip_at(d, c, e, j);
    }
}

proof fn lemma_round_trip_at(d: Domain, c: Seq<int>, e: Seq<Scalar>, j: int)
    requires
        d.wf(),
        c.len() == d.size,
        forall|k: int| 0 <= k < c.len() ==> 0 <= #[trigger] c[k] < modulus(),
        e.len() == d.size,
        forall|i: int|
            0 <= i < d.size ==> #[trigger] e[i].value() == poly_eval(c, point(d, i)) % modulus(),
        0 <= j < d.size,
    ensures
        d.ifft_coeff(e, j as nat) == c[j],
{
    let m = modulus();
    let n = d.size as nat;
    let w = d.group_gen.value();
    let g = d.group_gen_inv.value();
    let o = d.offset.value();
    let oi = d.offset_inv.value();
    let ni = d.size_inv.value();
    let ej: nat = if j == 0 {
        0
    } else {
        (n - j) as nat
    };
    let gj = power(g, j as nat);
    let wj = power(w, ej);
    lemma_inverse_power(d, j);
    assert(gj % m == wj % m);
    // the transform's sum, as a double sum
    let term = |i: int| e[i].value() * power(gj, i as nat);
    let cell = |i: int, k: int| c[k] * power(o, k as nat) * power(power(w, (k + ej) as nat), i as nat);
    let row = |i: int| sum(|k: int| cell(i, k), n);
    lemma_weighted_sum(e, gj, n);
    assert forall|i: int| 0 <= i < n implies #[trigger] term(i) % m == row(i) % m by {
        let pt = point(d, i);
        let wi = power(wj, i as nat);
        let f = |k: int| c[k] * power(pt, k as nat);
        lemma_power_mod(gj, i as nat);
        lemma_power_mod(wj, i as nat);
        lemma_mul_mod(e[i].value(), power(gj, i as nat));
        lemma_mul_mod(poly_eval(c, pt), wi);
        vstd::arithmetic::div_mod::lemma_mod_twice(poly_eval(c, pt), m);
        assert(term(i) % m == (wi * poly_eval(c, pt)) % m) by (nonlinear_arith)
            requires
                term(i) % m == (poly_eval(c, pt) * wi) % m,
        ;
        lemma_sum_scale(f, wi, n);
        assert forall|k: int| 0 <= k < n implies #[trigger] (wi * f(k)) == cell(i, k) by {
            let pw = power(w, i as nat);
            lemma_power_distrib(o, pw, k as nat);
            lemma_power_mul(w, i as nat, k as nat);
            lemma_power_mul(w, k as nat, i as nat);
            assert(i * k == k * i) by (nonlinear_arith);
            let a = power(power(w, k as nat), i as nat);
            lemma_power_distrib(power(w, k as nat), wj, i as nat);
            lemma_power_add(w, k as nat, ej);
            let ok = power(o, k as nat);
            assert(wi * (c[k] * (ok * a)) == c[k] * ok * (a * wi)) by (nonlinear_arith);
        }
        lemma_sum_ext(|k: int| wi * f(k), |k: int| cell(i, k), n);
    }
    lemma_sum_mod(term, row, n);
    lemma_sum_swap(cell, n, n);
    // each column is a character sum
    let col = |k: int| sum(|i: int| cell(i, k), n);
    let target = c[j] * power(o, j as nat) * n;
    assert forall|k: int| 0 <= k < n && k != j implies #[trigger] col(k) % m == 0 by {
        let x = power(w, (k + ej) as nat);
        let a = c[k] * power(o, k as nat);
        let f = |i: int| power(x, i as nat);
        lemma_sum_scale(f, a, n);
        lemma_sum_ext(|i: int| cell(i, k), |i: int| a * f(i), n);
        assert(col(k) == a * geo(x, n));
        assert(k + ej != 0 && k + ej != n);
        lemma_character_sum(d, (k + ej) as nat);
        assert(geo(x, n) % m == 0);
        lemma_mul_mod(a, geo(x, n));
        lemma_small(0);
        assert((a % m) * 0 == 0);
    }
    {
        let k = j;
        let x = power(w, (k + ej) as nat);
        let a = c[k] * power(o, k as nat);
        let f = |i: int| power(x, i as nat);
        lemma_sum_scale(f, a, n);
        lemma_sum_ext(|i: int| cell(i, k), |i: int| a * f(i), n);
        assert(col(k) == a * geo(x, n));
        assert(k + ej == 0 || k + ej == n);
        lemma_character_sum(d, (k + ej) as nat);
        assert(geo(x, n) % m == (n as int) % m);
        lemma_mul_mod(a, geo(x, n));
        lemma_mul_mod(a, n as int);
        assert(col(j) % m == target % m);
    }
    lemma_sum_single(col, n, j);
    let ws = weighted_sum(e, gj, n);
    assert(ws % m == target % m);
    // the scaling by `offset^-j` and `size^-1` cancels
    let u = power(oi, j as nat) * ni;
    lemma_mul_mod(u, ws);
    lemma_mul_mod(u, target);
    lemma_power_distrib(oi, o, j as nat);
    assert(o * oi == oi * o) by (nonlinear_arith);
    lemma_power_of_unit(oi * o, j as nat);
    let u1 = power(oi, j as nat) * power(o, j as nat);
    let u2 = ni * n;
    assert(n * ni == ni * n) by (nonlinear_arith);
    lemma_rearrange(power(oi, j as nat), ni, c[j], power(o, j as nat), n as int);
    lemma_mul_mod(u1, u2);
    lemma_small(1);
    lemma_mul_mod(u1 * u2, c[j]);
    lemma_small(c[j]);
    assert(d.ifft_coeff(e, j as nat) == (u * ws) % m);
}

/// The inverse generator to the power `j` is the generator to the power
/// `size - j` (or 0 where `j` is 0).
proof fn lemma_inverse_power(d: Domain, j: int)
    requires
        d.wf(),
        0 <= j < d.size,
    ensures
        power(d.group_gen_inv.value(), j as nat) % modulus() == power(
            d.group_gen.value(),
            (if j == 0 {
                0
            } else {
                d.size - j
            }) as nat,
        ) % modulus(),
{
    let n = d.size as nat;
    let w = d.group_gen.value();
    let g = d.group_gen_inv.value();
    if j > 0 {
        let ej = (n - j) as nat;
        lemma_gen_order(d);
        lemma_power_add(w, ej, j as nat);
        lemma_power_distrib(g, w, j as nat);
        assert(g * w == w * g) by (nonlinear_arith);
        lemma_power_of_unit(g * w, j as nat);
        lemma_cancel(power(g, j as nat), power(w, ej), power(w, j as nat));
    }
}

/// The coefficient list `p`, padded with zeros to length `n`.
pub open spec fn padded(p: Seq<Scalar>, n: nat) -> Seq<int> {
    Seq::new(n, |j: int| coeff(p, j))
}

/// The polynomial that the inverse transform gives takes the values `e`
/// at the points of the domain.
pub proof fn lemma_interpolant_values(d: Domain, e: Seq<Scalar>)
    requires
        d.wf(),
        e.len() == d.size,
        forall|l: int| 0 <= l < e.len() ==> (#[trigger] e[l]).wf(),
    ensures
        forall|i: int|
            0 <= i < d.size ==> poly_eval(d.ifft_spec(e), point(d, i)) % modulus() == (
            #[trigger] e[i]).value(),
{
    assert forall|i: int| 0 <= i < d.size implies poly_eval(d.ifft_spec(e), point(d, i))
        % modulus() == (#[trigger] e[i]).value() by {
        lemma_interpolant_value_at(d, e, i);
    }
}

proof fn lemma_interpolant_value_at(d: Domain, e: Seq<Scalar>, i: int)
    requires
        d.wf(),
        e.len() == d.size,
        forall|l: int| 0 <= l < e.len() ==> (#[trigger] e[l]).wf(),
        0 <= i < d.size,
    ensures
        poly_eval(d.ifft_spec(e), point(d, i)) % modulus() == e[i].value(),
{
    let m = modulus();
    let n = d.size as nat;
    let w = d.group_gen.value();
    let g = d.group_gen_inv.value();
    let o = d.offset.value();
    let oi = d.offset_inv.value();
    let ni = d.size_inv.value();
    let c = d.ifft_spec(e);
    let x = point(d, i);
    let wi = power(w, i as nat);
    let el = |l: int| (if l == 0 { 0 } else { n - l }) as nat;
    let term = |j: int| c[j] * power(x, j as nat);
    let cell = |j: int, l: int| ni * e[l].value() * power(power(w, (i + el(l)) as nat), j as nat);
    let row = |j: int| sum(|l: int| cell(j, l), n);
    assert forall|j: int| 0 <= j < n implies #[trigger] term(j) % m == row(j) % m by {
        let gj = power(g, j as nat);
        let sj = weighted_sum(e, gj, n);
        let u = power(oi, j as nat) * power(o, j as nat);
        let y = ni * sj * power(wi, j as nat);
        // drop the offsets
        lemma_power_distrib(o, wi, j as nat);
        assert(c[j] == (power(oi, j as nat) * ni * sj) % m);
        let q = power(oi, j as nat) * ni * sj;
        lemma_mul_mod(q, power(x, j as nat));
        vstd::arithmetic::div_mod::lemma_mod_twice(q, m);
        lemma_mul_mod(q % m, power(x, j as nat));
        assert(term(j) % m == (q * power(x, j as nat)) % m);
        assert(power(x, j as nat) == power(o, j as nat) * power(wi, j as nat));
        lemma_rearrange2(power(oi, j as nat), ni, sj, power(o, j as nat), power(wi, j as nat));
        lemma_power_distrib(oi, o, j as nat);
        assert(o * oi == oi * o) by (nonlinear_arith);
        lemma_power_of_unit(oi * o, j as nat);
        assert(q * power(x, j as nat) == u * y);
        lemma_mul_mod(u, y);
        lemma_small(1);
        vstd::arithmetic::div_mod::lemma_mod_twice(y, m);
        assert(1 * (y % m) == y % m);
        assert(term(j) % m == y % m);
        // expand the inner sum
        let f = |l: int| e[l].value() * power(gj, l as nat);
        lemma_weighted_sum(e, gj, n);
        let v = ni * power(wi, j as nat);
        lemma_sum_scale(f, v, n);
        assert(y == v * sj) by (nonlinear_arith)
            requires
                y == ni * sj * power(wi, j as nat),
                v == ni * power(wi, j as nat),
        ;
        assert forall|l: int| 0 <= l < n implies #[trigger] (v * f(l)) % m == cell(j, l) % m by {
            lemma_inverse_power(d, l);
            let gl = power(g, l as nat);
            let wl = power(w, el(l));
            lemma_power_mul(g, j as nat, l as nat);
            lemma_power_mul(g, l as nat, j as nat);
            assert(j * l == l * j) by (nonlinear_arith);
            lemma_power_mod(gl, j as nat);
            lemma_power_mod(wl, j as nat);
            assert(power(gj, l as nat) % m == power(wl, j as nat) % m);
            lemma_power_mul(w, i as nat, j as nat);
            lemma_power_distrib(wl, wi, j as nat);
            lemma_power_add(w, el(l), i as nat);
            assert(el(l) + i == i + el(l));
            let k = ni * e[l].value() * power(wi, j as nat);
            assert(v * f(l) == k * power(gj, l as nat)) by (nonlinear_arith)
                requires
                    v == ni * power(wi, j as nat),
                    f(l) == e[l].value() * power(gj, l as nat),
                    k == ni * e[l].value() * power(wi, j as nat),
            ;
            lemma_mul_mod(k, power(gj, l as nat));
            lemma_mul_mod(k, power(wl, j as nat));
            assert(k * power(wl, j as nat) == cell(j, l)) by (nonlinear_arith)
                requires
                    k == ni * e[l].value() * power(wi, j as nat),
                    cell(j, l) == ni * e[l].value() * (power(wl, j as nat) * power(wi, j as nat)),
            ;
        }
        lemma_sum_mod(|l: int| v * f(l), |l: int| cell(j, l), n);
    }
    lemma_sum_mod(term, row, n);
    lemma_sum_swap(cell, n, n);
    let col = |l: int| sum(|j: int| cell(j, l), n);
    let target = ni * e[i].value() * n;
    assert forall|l: int| 0 <= l < n implies #[trigger] col(l) % m == if l == i {
        target % m
    } else {
        0
    } by {
        let xl = power(w, (i + el(l)) as nat);
        let a = ni * e[l].value();
        let f = |j: int| power(xl, j as nat);
        lemma_sum_scale(f, a, n);
        lemma_sum_ext(|j: int| cell(j, l), |j: int| a * f(j), n);
        assert(col(l) == a * geo(xl, n));
        lemma_character_sum(d, (i + el(l)) as nat);
        lemma_mul_mod(a, geo(xl, n));
        lemma_mul_mod(a, n as int);
        lemma_small(0);
        assert((a % m) * 0 == 0);
    }
    lemma_sum_single(col, n, i);
    // `size^-1 * e[i] * size` is `e[i]`
    assert(target == (ni * n) * e[i].value()) by (nonlinear_arith)
        requires
            target == ni * e[i].value() * n,
    ;
    assert(n * ni == ni * n) by (nonlinear_arith);
    lemma_mul_mod(ni * n, e[i].value());
    lemma_small(1);
    lemma_small(e[i].value());
    assert(poly_eval(c, x) == sum(term, n));
}

proof fn lemma_rearrange2(a: int, b: int, s: int, p: int, q: int)
    ensures
        (a * b * s) * (p * q) == (a * p) * (b * s * q),
{
    assert((a * b * s) * (p * q) == (a * p) * (b * s * q)) by (nonlinear_arith);
}

proof fn lemma_rearrange(a: int, b: int, c: int, d: int, e: int)
    ensures
        (a * b) * (c * d * e) == ((a * d) * (b * e)) * c,
{
    assert((a * b) * (c * d * e) == ((a * d) * (b * e)) * c) by (nonlinear_arith);
}

proof fn lemma_power2_pos(s: nat)
    ensures
        power(2, s) >= 1,
        s >= 1 ==> power(2, s) == 2 * power(2, (s - 1) as nat),
    decreases s,
{
    if s > 0 {
        lemma_power2_pos((s - 1) as nat);
    }
}

} // verus!
