use ark_evals::parity::{parity, PrimeElem, TowerElem};
use ark_ff::PrimeField;
use ark_test_curves::bls12_381::{Fq, Fq2, Fq6};

fn prime(x: Fq) -> TowerElem {
    TowerElem::Prime(PrimeElem { limbs: x.into_bigint().0.to_vec() })
}

fn quadratic(x: Fq2) -> TowerElem {
    TowerElem::Ext(vec![prime(x.c0), prime(x.c1)])
}

fn cubic(x: Fq6) -> TowerElem {
    TowerElem::Ext(vec![quadratic(x.c0), quadratic(x.c1), quadratic(x.c2)])
}

#[test]
fn test_parity_of_prime_field_elements() {
    let a1 = Fq::from(0);
    let a2 = Fq::from(1);
    let a3 = Fq::from(10);
    assert!(!parity(&prime(a1)));
    assert!(parity(&prime(a2)));
    assert!(!parity(&prime(a3)));
}

#[test]
fn test_parity_of_quadratic_extension_elements() {
    let element_test1 = Fq2::new(Fq::from(0), Fq::from(1));
    let element_test2 = Fq2::new(Fq::from(1), Fq::from(0));
    let element_test3 = Fq2::new(Fq::from(10), Fq::from(5));
    let element_test4 = Fq2::new(Fq::from(5), Fq::from(10));
    assert!(
        parity(&quadratic(element_test1)),
        "parity is the oddness of first non-zero coefficient of element represented over the prime field"
    );
    assert!(parity(&quadratic(element_test2)));
    assert!(!parity(&quadratic(element_test3)));
    assert!(parity(&quadratic(element_test4)));
}

#[test]
fn test_parity_of_cubic_extension_elements() {
    let a1 = Fq2::new(Fq::from(0), Fq::from(0));
    let a2 = Fq2::new(Fq::from(0), Fq::from(1));
    let a3 = Fq2::new(Fq::from(1), Fq::from(0));
    let a4 = Fq2::new(Fq::from(1), Fq::from(1));
    let a5 = Fq2::new(Fq::from(0), Fq::from(2));

    let element_test1 = Fq6::new(a1, a2, a3);
    let element_test2 = Fq6::new(a2, a3, a4);
    let element_test3 = Fq6::new(a3, a4, a1);
    let element_test4 = Fq6::new(a4, a1, a2);
    let element_test5 = Fq6::new(a1, a5, a2);

    assert!(
        parity(&cubic(element_test1)),
        "parity is the oddness of first non-zero coefficient of element represented over the prime field"
    );
    assert!(
        parity(&cubic(element_test2)),
        "parity is the oddness of first non-zero coefficient of element represented over the prime field"
    );
    assert!(parity(&cubic(element_test3)));
    assert!(parity(&cubic(element_test4)));
    assert!(!parity(&cubic(element_test5)));
}

#[test]
fn parity_of_zero_extension_element_is_even() {
    let zero = Fq6::new(Fq2::new(Fq::from(0), Fq::from(0)), Fq2::new(Fq::from(0), Fq::from(0)), Fq2::new(Fq::from(0), Fq::from(0)));
    assert!(!parity(&cubic(zero)));
    assert!(cubic(zero).is_zero());
}

#[test]
fn parity_of_negated_one_is_even() {
    // -1 is the modulus minus one, which is even.
    let minus_one = -Fq::from(1);
    assert!(!parity(&prime(minus_one)));
    assert!(parity(&quadratic(Fq2::new(Fq::from(0), -Fq::from(2) + Fq::from(1)))) == false);
}

#[test]
fn parity_reads_the_lowest_limb_of_wide_residues() {
    let big = TowerElem::Prime(PrimeElem { limbs: vec![3, 0, 0, 7] });
    assert!(parity(&big));
    let high_only = TowerElem::Prime(PrimeElem { limbs: vec![0, 1] });
    assert!(!parity(&high_only));
    assert!(!high_only.is_zero());
    let nested_zero_first = TowerElem::Ext(vec![
        TowerElem::Ext(vec![TowerElem::Prime(PrimeElem { limbs: vec![0, 0] })]),
        TowerElem::Prime(PrimeElem { limbs: vec![9] }),
    ]);
    assert!(parity(&nested_zero_first));
}
