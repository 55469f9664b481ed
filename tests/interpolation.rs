use lagrange_field::{basis_polynomial, lagrange_interpolation, FieldError, Polynomial, CAPACITY};

fn coefficients(p: &Polynomial) -> Vec<i64> {
    (0..CAPACITY).map(|k| p.coefficient(k)).collect()
}

#[test]
fn worked_example_passes_through_every_sample() {
    let points = vec![(0, 1), (1, 1), (4, 1), (2, 3), (3, 3)];
    let p = lagrange_interpolation(points.clone()).unwrap();
    for (x, y) in points {
        assert_eq!(p.evaluate(x), y);
    }
}

#[test]
fn worked_example_has_expected_terms() {
    let points = vec![(0, 1), (1, 1), (4, 1), (2, 3), (3, 3)];
    let p = lagrange_interpolation(points).unwrap();
    assert_eq!(p.nonzero_terms(), vec![(4, 1), (2, 4), (0, 1)]);
}

#[test]
fn empty_input_gives_zero() {
    let p = lagrange_interpolation(Vec::new()).unwrap();
    assert!(coefficients(&p).iter().all(|&c| c == 0));
    assert_eq!(p.nonzero_terms(), Vec::new());
}

#[test]
fn single_point_gives_constant() {
    let p = lagrange_interpolation(vec![(3, 7)]).unwrap();
    let c = coefficients(&p);
    assert_eq!(c[0], 2);
    assert!(c[1..].iter().all(|&v| v == 0));
}

#[test]
fn single_point_with_negative_value() {
    let p = lagrange_interpolation(vec![(-8, -1)]).unwrap();
    assert_eq!(p.nonzero_terms(), vec![(0, 4)]);
}

#[test]
fn duplicate_x_is_reported() {
    let r = lagrange_interpolation(vec![(1, 1), (1, 2)]);
    assert_eq!(r.unwrap_err(), FieldError::DuplicateOrCongruentSample);
}

#[test]
fn congruent_x_is_reported() {
    let r = lagrange_interpolation(vec![(0, 0), (1, 1), (6, 2)]);
    assert_eq!(r.unwrap_err(), FieldError::DuplicateOrCongruentSample);
}

#[test]
fn too_many_samples_exceed_capacity() {
    let points: Vec<(i64, i64)> = (0..(CAPACITY as i64 + 1)).map(|x| (x, 0)).collect();
    assert_eq!(lagrange_interpolation(points).unwrap_err(), FieldError::CapacityExceeded);
}

#[test]
fn degree_stays_below_sample_count() {
    let sets: Vec<Vec<(i64, i64)>> = vec![
        vec![(2, 9)],
        vec![(0, 3), (4, -2)],
        vec![(1, 0), (2, 0), (3, 1)],
        vec![(-1, 7), (0, 2), (1, 1), (7, 4)],
        vec![(10, 1), (11, 2), (12, 3), (13, 4), (14, 5)],
    ];
    for points in sets {
        let n = points.len();
        let p = lagrange_interpolation(points.clone()).unwrap();
        let c = coefficients(&p);
        assert!(c[n..].iter().all(|&v| v == 0));
        for (x, y) in points {
            assert_eq!(p.evaluate(x), y.rem_euclid(5));
        }
    }
}

#[test]
fn large_coordinates_interpolate() {
    let points = vec![(i64::MAX, i64::MIN), (i64::MIN + 1, i64::MAX), (0, 1)];
    let p = lagrange_interpolation(points.clone()).unwrap();
    for (x, y) in points {
        assert_eq!(p.evaluate(x), y.rem_euclid(5));
    }
}

#[test]
fn basis_is_one_at_own_point_and_zero_elsewhere() {
    let domain = vec![0, 1, 4, 2, 3];
    for i in 0..domain.len() {
        let b = basis_polynomial(i, &domain).unwrap();
        for (m, &x) in domain.iter().enumerate() {
            assert_eq!(b.evaluate(x), if m == i { 1 } else { 0 });
        }
    }
}

#[test]
fn basis_of_congruent_domain_fails() {
    let domain = vec![2, 7];
    assert_eq!(basis_polynomial(0, &domain).unwrap_err(), FieldError::DuplicateOrCongruentSample);
}
