use stark_primitives::field::FiniteField;
use stark_primitives::polynomial::Polynomial;
use std::rc::Rc;

#[test]
fn new_polynomial() {
    let finite_field = Rc::new(FiniteField::new(97, 1));
    let polynomial = Polynomial::from_slice(&[2, 7, 1, 4, 0, 5], Rc::clone(&finite_field));
    assert_eq!(polynomial.degree(), 5);

    let polynomial = Polynomial::from_slice(&[2, 7, 1, 4, 0, 0], Rc::clone(&finite_field));
    assert_eq!(polynomial.degree(), 3);
}

#[test]
fn test_evaluate() {
    let finite_field = Rc::new(FiniteField::new(13, 1));
    let polynomial = Polynomial::from_slice(&[5, 2, 3], Rc::clone(&finite_field));
    assert_eq!(
        polynomial.evaluate(finite_field.element(3)),
        finite_field.element(12)
    );
    assert_eq!(
        polynomial.evaluate(finite_field.element(2)),
        finite_field.element(8)
    );
}

#[test]
fn test_add_polynomial() {
    let finite_field = Rc::new(FiniteField::new(97, 1));
    let polynomial1 = Polynomial::from_slice(&[2, 7, 1, 4, 0, 5], Rc::clone(&finite_field));
    let polynomial2 = Polynomial::from_slice(&[1, 3, 4, 2, 7, 8], Rc::clone(&finite_field));

    let expected = Polynomial::from_slice(&[3, 10, 5, 6, 7, 13], Rc::clone(&finite_field));
    assert_eq!(polynomial1 + polynomial2, expected);
}

#[test]
fn test_sub_polynomial() {
    let finite_field = Rc::new(FiniteField::new(97, 1));
    let polynomial1 = Polynomial::from_slice(&[2, 7, 7, 4, 8, 9], Rc::clone(&finite_field));
    let polynomial2 = Polynomial::from_slice(&[1, 3, 4, 2, 3, 8], Rc::clone(&finite_field));

    let expected = Polynomial::from_slice(&[1, 4, 3, 2, 5, 1], Rc::clone(&finite_field));
    assert_eq!(polynomial1 - polynomial2, expected);

    let polynomial1 = Polynomial::from_slice(&[2, 7, 7, 4, 8, 9], Rc::clone(&finite_field));
    let polynomial2 = Polynomial::from_slice(&[1, 3, 4, 2], Rc::clone(&finite_field));
    let expected = Polynomial::from_slice(&[1, 4, 3, 2, 8, 9], Rc::clone(&finite_field));
    assert_eq!(polynomial1 - polynomial2, expected);

    let polynomial1 = Polynomial::from_slice(&[2, 7, 7], Rc::clone(&finite_field));
    let polynomial2 = Polynomial::from_slice(&[1, 3, 7], Rc::clone(&finite_field));
    let expected = Polynomial::from_slice(&[1, 4], Rc::clone(&finite_field));
    assert_eq!(polynomial1 - polynomial2, expected);
}

#[test]
fn test_leading_coefficient_index() {
    let finite_field = Rc::new(FiniteField::new(97, 1));
    let polynomial1 = Polynomial::from_slice(&[2, 7, 7], Rc::clone(&finite_field));
    let leading_coeff_index = polynomial1.leading_coefficient_index();
    assert_eq!(leading_coeff_index, 2);
}

#[test]
fn test_mul_polynomial() {
    let finite_field = Rc::new(FiniteField::new(97, 1));
    let polynomial1 = Polynomial::from_slice(&[2, 7, 7], Rc::clone(&finite_field));
    let polynomial2 = Polynomial::from_slice(&[3, 5], Rc::clone(&finite_field));

    assert_eq!(
        &polynomial1 * &polynomial2,
        Polynomial::from_slice(&[6, 31, 56, 35], Rc::clone(&finite_field))
    );
}

#[test]
fn test_div_polynomial() {
    let finite_field = Rc::new(FiniteField::new(97, 1));
    let polynomial1 = Polynomial::from_slice(&[74, 79, 81, 1], Rc::clone(&finite_field));
    let polynomial2 = Polynomial::from_slice(&[94, 1], Rc::clone(&finite_field));

    let division = polynomial1 / polynomial2;
    assert_eq!(
        division.0,
        Polynomial::from_slice(&[40, 84, 1], Rc::clone(&finite_field))
    );
}

#[test]
fn lagrange_interpolation() {
    let finite_field = Rc::new(FiniteField::new(97, 1));

    let points = [
        (finite_field.element(1), finite_field.element(7)),
        (finite_field.element(2), finite_field.element(6)),
        (finite_field.element(3), finite_field.element(8)),
    ];

    let p = Polynomial::lagrange_interpolation(&points, Rc::clone(&finite_field));
    let expected = Polynomial::from_slice(&[11, 43, 50], Rc::clone(&finite_field));
    assert_eq!(&p, &expected);

    assert_eq!(p.evaluate(points[0].0.clone()), points[0].1);
    assert_eq!(p.evaluate(points[1].0.clone()), points[1].1);
    assert_eq!(p.evaluate(points[2].0.clone()), points[2].1);

    let evaluation_on_domain = p.evaluate_on_domain(4);

    assert_eq!(evaluation_on_domain[1], points[0].1);
    assert_eq!(evaluation_on_domain[2], points[1].1);
    assert_eq!(evaluation_on_domain[3], points[2].1);
}

#[test]
fn test_zerofier_polynomial() {
    let finite_field = Rc::new(FiniteField::new(97, 1));

    let domain = 7;
    let p = Polynomial::zerofier_domain(domain, Rc::clone(&finite_field));

    for i in 0..domain {
        assert_eq!(p.evaluate(finite_field.element(i)), finite_field.zero());
    }
}

#[test]
fn zero_polynomial_has_degree_minus_one() {
    let f = Rc::new(FiniteField::new(97, 1));
    assert_eq!(Polynomial::from_slice(&[], Rc::clone(&f)).degree(), -1);
    assert_eq!(Polynomial::from_slice(&[0, 0, 97], Rc::clone(&f)).degree(), -1);
    assert_eq!(Polynomial::from_slice(&[5], Rc::clone(&f)).degree(), 0);
    assert_eq!(Polynomial::from_slice(&[0, 0], Rc::clone(&f)).leading_coefficient_index(), 0);
}

#[test]
fn constructors_trim_trailing_zeros() {
    let f = Rc::new(FiniteField::new(97, 1));
    let p = Polynomial::new(vec![f.element(1), f.element(2), f.zero()], Rc::clone(&f));
    assert_eq!(p.coefficients.len(), 2);
    assert_eq!(p, Polynomial::from_slice(&[1, 2], Rc::clone(&f)));
    assert_eq!(Polynomial::from_slice(&[-1, 98], Rc::clone(&f)), Polynomial::from_slice(&[96, 1], Rc::clone(&f)));
}

#[test]
fn sum_cancelling_to_zero_is_empty() {
    let f = Rc::new(FiniteField::new(97, 1));
    let a = Polynomial::from_slice(&[1, 2, 3], Rc::clone(&f));
    let b = Polynomial::from_slice(&[96, 95, 94], Rc::clone(&f));
    let s = a + b;
    assert_eq!(s.coefficients.len(), 0);
    assert_eq!(s.degree(), -1);
}

#[test]
fn negation_and_subtraction_agree() {
    let f = Rc::new(FiniteField::new(97, 1));
    let a = Polynomial::from_slice(&[4, 0, 9], Rc::clone(&f));
    let b = Polynomial::from_slice(&[1, 5], Rc::clone(&f));
    let zero = Polynomial::from_slice(&[], Rc::clone(&f));
    assert_eq!(-&b, Polynomial::from_slice(&[96, 92], Rc::clone(&f)));
    assert_eq!(&a - &b, &a + &(-&b));
    assert_eq!(&zero - &b, -b);
}

#[test]
fn product_with_zero_polynomial_is_zero() {
    let f = Rc::new(FiniteField::new(97, 1));
    let a = Polynomial::from_slice(&[4, 0, 9], Rc::clone(&f));
    let zero = Polynomial::from_slice(&[], Rc::clone(&f));
    assert_eq!((&a * &zero).coefficients.len(), 0);
    assert_eq!((&zero * &a).coefficients.len(), 0);
}

#[test]
fn scalar_multiplication_and_division() {
    let f = Rc::new(FiniteField::new(97, 1));
    let a = Polynomial::from_slice(&[4, 0, 9], Rc::clone(&f));
    let doubled = a.scalar_mul(f.element(2));
    assert_eq!(doubled, Polynomial::from_slice(&[8, 0, 18], Rc::clone(&f)));
    let back = doubled.scalar_div(f.element(2));
    assert_eq!(back, Polynomial::from_slice(&[4, 0, 9], Rc::clone(&f)));
    let halved = Polynomial::from_slice(&[1], Rc::clone(&f)).scalar_div(f.element(2));
    assert_eq!(halved, Polynomial::from_slice(&[49], Rc::clone(&f)));
    let zeroed = Polynomial::from_slice(&[1, 2], Rc::clone(&f)).scalar_mul(f.zero());
    assert_eq!(zeroed.coefficients.len(), 0);
}

#[test]
fn division_law_holds_with_remainder() {
    let f = Rc::new(FiniteField::new(97, 1));
    let p = Polynomial::from_slice(&[5, 0, 3, 7, 1], Rc::clone(&f));
    let d = Polynomial::from_slice(&[2, 0, 4], Rc::clone(&f));
    let (q, r) = p.divide(&d);
    assert!(r.degree() < d.degree());
    assert_eq!(&(&q * &d) + &r, p);
    assert_eq!(q, Polynomial::from_slice(&[37, 26, 73], Rc::clone(&f)));
    assert_eq!(r, Polynomial::from_slice(&[28, 45], Rc::clone(&f)));
}

#[test]
fn division_by_longer_divisor_gives_zero_quotient() {
    let f = Rc::new(FiniteField::new(97, 1));
    let p = Polynomial::from_slice(&[5, 3], Rc::clone(&f));
    let d = Polynomial::from_slice(&[2, 0, 4], Rc::clone(&f));
    let (q, r) = p.divide(&d);
    assert_eq!(q.coefficients.len(), 0);
    assert_eq!(r, Polynomial::from_slice(&[5, 3], Rc::clone(&f)));
}

#[test]
fn division_by_constant_scales() {
    let f = Rc::new(FiniteField::new(97, 1));
    let p = Polynomial::from_slice(&[4, 8], Rc::clone(&f));
    let d = Polynomial::from_slice(&[2], Rc::clone(&f));
    let (q, r) = p.divide(&d);
    assert_eq!(q, Polynomial::from_slice(&[2, 4], Rc::clone(&f)));
    assert_eq!(r.coefficients.len(), 0);
}

#[test]
fn evaluate_on_domain_lists_values_in_order() {
    let f = Rc::new(FiniteField::new(13, 1));
    let p = Polynomial::from_slice(&[5, 2, 3], Rc::clone(&f));
    let values: Vec<i128> = p.evaluate_on_domain(4).iter().map(|e| e.value()).collect();
    assert_eq!(values, vec![5, 10, 8, 12]);
    assert!(p.evaluate_on_domain(0).is_empty());
}

#[test]
fn empty_polynomial_evaluates_to_zero() {
    let f = Rc::new(FiniteField::new(13, 1));
    let p = Polynomial::from_slice(&[], Rc::clone(&f));
    assert_eq!(p.evaluate(f.element(4)), f.zero());
}

#[test]
fn zerofier_is_monic_of_the_domain_degree() {
    let f = Rc::new(FiniteField::new(97, 1));
    let z = Polynomial::zerofier_domain(3, Rc::clone(&f));
    // (x)(x - 1)(x - 2) = x^3 - 3x^2 + 2x
    assert_eq!(z, Polynomial::from_slice(&[0, 2, 94, 1], Rc::clone(&f)));
    assert_eq!(z.degree(), 3);
    assert_ne!(z.evaluate(f.element(3)), f.zero());
    let one = Polynomial::zerofier_domain(0, Rc::clone(&f));
    assert_eq!(one, Polynomial::from_slice(&[1], Rc::clone(&f)));
}

#[test]
fn interpolation_is_exact_on_every_point() {
    let f = Rc::new(FiniteField::new(101, 2));
    let xs = [3, 17, 42, 99, 0];
    let ys = [10, 0, 55, 100, 7];
    let points: Vec<_> = xs.iter().zip(ys.iter()).map(|(x, y)| (f.element(*x), f.element(*y))).collect();
    let p = Polynomial::lagrange_interpolation(&points, Rc::clone(&f));
    assert!(p.degree() < 5);
    for (x, y) in points.iter() {
        assert_eq!(p.evaluate(x.clone()), y.clone());
    }
    let single = Polynomial::lagrange_interpolation(&points[..1], Rc::clone(&f));
    assert_eq!(single, Polynomial::from_slice(&[10], Rc::clone(&f)));
    let none = Polynomial::lagrange_interpolation(&[], Rc::clone(&f));
    assert_eq!(none.coefficients.len(), 0);
}
