use ark_evals::domain::Domain;
use ark_evals::evaluations::{add_entries, mul_entries, scale_entries, sub_entries, Evaluations};
use ark_evals::field::Scalar;
use ark_ff::{AdditiveGroup, BigInt, FftField, Field, PrimeField};
use ark_test_curves::bls12_381::Fr;

fn s(n: u64) -> Scalar {
    Scalar::from_u64(n)
}

fn to_fr(x: Scalar) -> Fr {
    Fr::from_bigint(BigInt::new(x.limbs)).unwrap()
}

fn of_fr(x: Fr) -> Scalar {
    Scalar { limbs: x.into_bigint().0 }
}

fn evals(d: Domain, vals: &[u64]) -> Evaluations {
    Evaluations::from_vec_and_domain(vals.iter().map(|&v| s(v)).collect(), d)
}

fn domain(n: u64) -> Domain {
    Domain::new(n).unwrap()
}

#[test]
fn domain_size_is_the_next_power_of_two() {
    assert_eq!(domain(0).size(), 1);
    assert_eq!(domain(1).size(), 1);
    assert_eq!(domain(3).size(), 4);
    assert_eq!(domain(4).size(), 4);
    assert_eq!(domain(5).size(), 8);
    assert!(Domain::new(0x1_0000_0001).is_none());
}

#[test]
fn domain_generator_is_a_root_of_unity_of_its_order() {
    let d = domain(8);
    let g = to_fr(d.group_gen);
    assert_eq!(g.pow([8u64]), Fr::ONE);
    assert_ne!(g.pow([4u64]), Fr::ONE);
    assert_eq!(g, Fr::get_root_of_unity(8).unwrap());
    assert_eq!(to_fr(d.group_gen_inv) * g, Fr::ONE);
    assert_eq!(to_fr(d.size_inv) * Fr::from(8u64), Fr::ONE);
}

#[test]
fn coset_needs_a_non_zero_offset() {
    let d = domain(4);
    assert!(d.get_coset(s(0)).is_none());
    let c = d.get_coset(s(7)).unwrap();
    assert_eq!(c.size(), 4);
    assert_ne!(c, d);
    assert_eq!(to_fr(c.offset_inv) * Fr::from(7u64), Fr::ONE);
}

#[test]
fn zero_has_one_zero_per_point() {
    let z = Evaluations::zero(domain(4));
    assert_eq!(z.evals.len(), 4);
    assert!(z.evals.iter().all(|x| *x == s(0)));
    assert_eq!(z.domain(), domain(4));
}

#[test]
fn add_sub_mul_are_entrywise() {
    let d = domain(4);
    let a = evals(d, &[1, 2, 3, 4]);
    let b = evals(d, &[5, 6, 7, 8]);
    assert_eq!(a.add(&b).evals, vec![s(6), s(8), s(10), s(12)]);
    assert_eq!(b.sub(&a).evals, vec![s(4), s(4), s(4), s(4)]);
    assert_eq!(a.mul(&b).evals, vec![s(5), s(12), s(21), s(32)]);
    assert_eq!(a.mul_scalar(s(3)).evals, vec![s(3), s(6), s(9), s(12)]);
    assert_eq!(a.add(&b).domain(), d);
}

#[test]
fn sub_wraps_around_the_modulus() {
    let d = domain(1);
    let r = evals(d, &[0]).sub(&evals(d, &[1]));
    let minus_one = of_fr(-Fr::ONE);
    assert_eq!(r.evals, vec![minus_one]);
    assert_eq!(
        minus_one.limbs,
        [0xffff_ffff_0000_0000, 0x53bd_a402_fffe_5bfe, 0x3339_d808_09a1_d805, 0x73ed_a753_299d_7d48]
    );
    // and back again
    assert_eq!(r.add(&evals(d, &[1])).evals, vec![s(0)]);
}

#[test]
fn in_place_operations_match_the_copying_ones() {
    let d = domain(2);
    let a = evals(d, &[9, 4]);
    let b = evals(d, &[2, 5]);
    let mut x = evals(d, &[9, 4]);
    x.add_assign(&b);
    assert_eq!(x.evals, a.add(&b).evals);
    let mut x = evals(d, &[9, 4]);
    x.sub_assign(&b);
    assert_eq!(x.evals, a.sub(&b).evals);
    let mut x = evals(d, &[9, 4]);
    x.mul_assign(&b);
    assert_eq!(x.evals, a.mul(&b).evals);
    let mut x = evals(d, &[9, 4]);
    x.div_assign(&b);
    assert_eq!(x.evals, a.div(&b).evals);
}

#[test]
fn division_inverts_each_value() {
    let d = domain(2);
    let a = evals(d, &[8, 15]);
    let b = evals(d, &[4, 5]);
    assert_eq!(a.div(&b).evals, vec![s(2), s(3)]);
    let q = evals(d, &[1, 1]).div(&evals(d, &[2, 3]));
    assert_eq!(to_fr(q.evals[0]), Fr::from(2u64).inverse().unwrap());
    assert_eq!(to_fr(q.evals[1]), Fr::from(3u64).inverse().unwrap());
}

#[test]
fn division_by_a_zero_value_gives_zero_there() {
    let d = domain(2);
    let q = evals(d, &[8, 15]).div(&evals(d, &[0, 5]));
    assert_eq!(q.evals, vec![s(0), s(3)]);
}

#[test]
fn division_then_multiplication_gives_back_the_dividend() {
    let d = domain(4);
    let a = evals(d, &[11, 0, 123456789, 42]);
    let b = evals(d, &[3, 7, 1000003, 1]);
    assert_eq!(a.div(&b).mul(&b).evals, a.evals);
}

#[test]
fn ring_laws_hold_on_sample_values() {
    let d = domain(4);
    let a = evals(d, &[1, 2, 3, 4]);
    let b = Evaluations::from_vec_and_domain(vec![of_fr(-Fr::from(3u64)), s(9), s(0), of_fr(-Fr::ONE)], d);
    let c = evals(d, &[100, 200, 300, 400]);
    assert_eq!(a.add(&b).add(&c).evals, a.add(&b.add(&c)).evals);
    assert_eq!(a.add(&b).evals, b.add(&a).evals);
    assert_eq!(b.sub(&b).evals, Evaluations::zero(d).evals);
    assert_eq!(a.mul(&b).evals, b.mul(&a).evals);
}

#[test]
fn index_and_get() {
    let d = domain(4);
    let a = evals(d, &[1, 2, 3, 4]);
    assert_eq!(*a.index(2), s(3));
    assert_eq!(a.get(3), Some(&s(4)));
    assert_eq!(a.get(4), None);
    assert_eq!(a.get(100), None);
}

fn eval_poly(coeffs: &[u64], x: Fr) -> Fr {
    let mut acc = Fr::ZERO;
    for c in coeffs.iter().rev() {
        acc = acc * x + Fr::from(*c);
    }
    acc
}

#[test]
fn interpolation_recovers_the_coefficients() {
    let d = domain(4);
    let g = to_fr(d.group_gen);
    let coeffs = [1u64, 2, 3];
    let vals: Vec<Scalar> = (0..4u64).map(|i| of_fr(eval_poly(&coeffs, g.pow([i])))).collect();
    let e = Evaluations::from_vec_and_domain(vals, d);
    let by_ref = e.interpolate_by_ref();
    assert_eq!(by_ref.coeffs, vec![s(1), s(2), s(3)]);
    assert_eq!(e.interpolate().coeffs, vec![s(1), s(2), s(3)]);
}

#[test]
fn interpolation_over_a_coset() {
    let d = domain(8).get_coset(s(7)).unwrap();
    let g = to_fr(d.group_gen);
    let coeffs = [5u64, 0, 0, 9, 0, 0, 0, 1];
    let vals: Vec<Scalar> =
        (0..8u64).map(|i| of_fr(eval_poly(&coeffs, Fr::from(7u64) * g.pow([i])))).collect();
    let e = Evaluations::from_vec_and_domain(vals, d);
    let expected: Vec<Scalar> = coeffs.iter().map(|&c| s(c)).collect();
    assert_eq!(e.interpolate().coeffs, expected);
}

#[test]
fn interpolation_of_constants_and_zero() {
    let d = domain(2);
    assert_eq!(evals(d, &[5, 5]).interpolate().coeffs, vec![s(5)]);
    assert!(Evaluations::zero(d).interpolate().coeffs.is_empty());
    // p(x) = 1 + x over {1, -1} is [2, 0]
    assert_eq!(evals(d, &[2, 0]).interpolate().coeffs, vec![s(1), s(1)]);
}

#[test]
fn chunked_entrywise_operations_match_the_whole() {
    let a: Vec<Scalar> = (1..=8u64).map(|i| s(i * i)).collect();
    let b: Vec<Scalar> = (1..=8u64).map(|i| s(3 * i + 1)).collect();
    for k in [0usize, 1, 3, 8] {
        let mut add = add_entries(&a[..k], &b[..k]);
        add.extend(add_entries(&a[k..], &b[k..]));
        assert_eq!(add, add_entries(&a, &b));
        let mut sub = sub_entries(&a[..k], &b[..k]);
        sub.extend(sub_entries(&a[k..], &b[k..]));
        assert_eq!(sub, sub_entries(&a, &b));
        let mut mul = mul_entries(&a[..k], &b[..k]);
        mul.extend(mul_entries(&a[k..], &b[k..]));
        assert_eq!(mul, mul_entries(&a, &b));
        let mut scaled = scale_entries(&a[..k], s(5));
        scaled.extend(scale_entries(&a[k..], s(5)));
        assert_eq!(scaled, scale_entries(&a, s(5)));
    }
}

#[test]
fn scalar_constructors() {
    assert!(Scalar::zero().is_zero());
    assert!(!Scalar::one().is_zero());
    assert_eq!(to_fr(Scalar::from_u64(77)), Fr::from(77u64));
}

#[test]
fn interpolated_polynomial_takes_the_values() {
    let d = domain(8).get_coset(s(5)).unwrap();
    let g = to_fr(d.group_gen);
    let e = evals(d, &[3, 1, 4, 1, 5, 9, 2, 6]);
    let coeffs: Vec<Fr> = e.interpolate_by_ref().coeffs.iter().map(|c| to_fr(*c)).collect();
    for i in 0..8u64 {
        let x = Fr::from(5u64) * g.pow([i]);
        let mut acc = Fr::ZERO;
        for c in coeffs.iter().rev() {
            acc = acc * x + c;
        }
        assert_eq!(of_fr(acc), e.evals[i as usize]);
    }
}
