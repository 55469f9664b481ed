use lagrange_field::{modular_inverse, reduce, FieldError, Polynomial, CAPACITY};

fn poly(coeffs: &[i64]) -> Polynomial {
    let mut p = Polynomial::new();
    for (k, &c) in coeffs.iter().enumerate() {
        p.set_coefficient(k, c);
    }
    p
}

fn coefficients(p: &Polynomial) -> Vec<i64> {
    (0..CAPACITY).map(|k| p.coefficient(k)).collect()
}

#[test]
fn new_is_all_zero() {
    assert!(coefficients(&Polynomial::new()).iter().all(|&c| c == 0));
}

#[test]
fn set_coefficient_reduces() {
    let p = poly(&[7, -1, 5]);
    assert_eq!(p.nonzero_terms(), vec![(1, 4), (0, 2)]);
}

#[test]
fn scalar_mul_reduces_each_coefficient() {
    let p = poly(&[1, 2, 3, 4]).scalar_mul(3);
    assert_eq!(&coefficients(&p)[..5], &[3, 1, 4, 2, 0]);
}

#[test]
fn scalar_mul_by_negative_factor() {
    let p = poly(&[1, 2]).scalar_mul(-1);
    assert_eq!(&coefficients(&p)[..3], &[4, 3, 0]);
}

#[test]
fn add_reduces_and_commutes() {
    let a = poly(&[4, 3, 0, 1]);
    let b = poly(&[3, 2, 2]);
    let ab = poly(&[4, 3, 0, 1]).add(poly(&[3, 2, 2]));
    let ba = b.add(a);
    assert_eq!(&coefficients(&ab)[..5], &[2, 0, 2, 1, 0]);
    assert_eq!(coefficients(&ab), coefficients(&ba));
}

#[test]
fn add_zero_is_identity() {
    let a = poly(&[1, 4, 2]).add(Polynomial::new());
    assert_eq!(&coefficients(&a)[..4], &[1, 4, 2, 0]);
}

#[test]
fn mul_convolves_and_reduces() {
    // (x + 2)(3x + 4) = 3x^2 + 10x + 8 = 3x^2 + 0x + 3 mod 5
    let p = poly(&[2, 1]).mul(poly(&[4, 3])).unwrap();
    assert_eq!(&coefficients(&p)[..4], &[3, 0, 3, 0]);
}

#[test]
fn mul_commutes_and_associates() {
    let a = || poly(&[1, 2, 3]);
    let b = || poly(&[4, 0, 1, 2]);
    let c = || poly(&[3, 3]);
    let ab = a().mul(b()).unwrap();
    let ba = b().mul(a()).unwrap();
    assert_eq!(coefficients(&ab), coefficients(&ba));
    let left = ab.mul(c()).unwrap();
    let right = a().mul(b().mul(c()).unwrap()).unwrap();
    assert_eq!(coefficients(&left), coefficients(&right));
}

#[test]
fn mul_at_capacity_edge_is_ok() {
    let mut a = Polynomial::new();
    a.set_coefficient(CAPACITY - 1, 2);
    let p = a.mul(poly(&[3])).unwrap();
    assert_eq!(p.nonzero_terms(), vec![(CAPACITY - 1, 1)]);
}

#[test]
fn mul_past_capacity_fails() {
    let mut a = Polynomial::new();
    a.set_coefficient(CAPACITY - 1, 1);
    let r = a.mul(poly(&[0, 1]));
    assert_eq!(r.unwrap_err(), FieldError::CapacityExceeded);
}

#[test]
fn mul_past_capacity_with_zero_terms_is_ok() {
    let mut a = Polynomial::new();
    a.set_coefficient(CAPACITY - 2, 1);
    let p = a.mul(poly(&[0, 1])).unwrap();
    assert_eq!(p.nonzero_terms(), vec![(CAPACITY - 1, 1)]);
}

#[test]
fn evaluate_uses_field_arithmetic() {
    // x^4 + 4x^2 + 1 at 2: 16 + 16 + 1 = 33 = 3 mod 5
    let p = poly(&[1, 0, 4, 0, 1]);
    assert_eq!(p.evaluate(2), 3);
    assert_eq!(p.evaluate(-3), 3);
    assert_eq!(p.evaluate(0), 1);
}

#[test]
fn reduce_gives_residue() {
    assert_eq!(reduce(7), 2);
    assert_eq!(reduce(-1), 4);
    assert_eq!(reduce(i64::MIN), i64::MIN.rem_euclid(5));
}

#[test]
fn inverse_of_every_nonzero_residue() {
    for p in [2i64, 3, 5, 7, 11, 13, 17, 19, 23] {
        for a in 1..p {
            let r = modular_inverse(a, p).unwrap();
            assert!(0 <= r && r < p);
            assert_eq!((a * r) % p, 1);
        }
    }
}

#[test]
fn inverse_examples() {
    assert_eq!(modular_inverse(3, 26), Some(9));
    assert_eq!(modular_inverse(-3, 26), Some(17));
    assert_eq!(modular_inverse(29, 26), Some(9));
    assert_eq!(modular_inverse(4, 32), None);
}

#[test]
fn zero_residue_has_no_inverse() {
    assert_eq!(modular_inverse(0, 5), None);
    assert_eq!(modular_inverse(10, 5), None);
}
