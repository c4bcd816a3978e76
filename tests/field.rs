use stark_primitives::field::FiniteField;
use std::rc::Rc;

#[test]
fn test_finite_field() {
    let finite_field = Rc::new(FiniteField::new(97, 1));
    let field_element1 = finite_field.element(6);
    let field_element2 = finite_field.element(3);

    assert_eq!(&field_element1 + &field_element2, finite_field.element(9));
    assert_eq!(&field_element1 - &field_element2, finite_field.element(3));
    assert_eq!(field_element1 * field_element2, finite_field.element(18));
}

#[test]
fn test_xeuclidean() {
    let prime = 97;
    let finite_field = Rc::new(FiniteField::new(prime, 1));

    for i in 1..prime {
        let result = FiniteField::extended_euclidean(i, prime);
        assert_eq!(result.0, 1); // no gcd

        let field_element = finite_field.element(1);
        let field_element_inv = field_element.inverse();
        assert_eq!(field_element * field_element_inv, finite_field.one());
    }
}

#[test]
fn sum_and_difference_wrap_around_the_prime() {
    let f = Rc::new(FiniteField::new(97, 1));
    assert_eq!(f.element(90) + f.element(10), f.element(3));
    assert_eq!((f.element(90) + f.element(10)).value(), 3);
    assert_eq!((f.element(3) - f.element(10)).value(), 90);
    assert_eq!((f.element(50) * f.element(2)).value(), 3);
}

#[test]
fn element_is_reduced_on_creation() {
    let f = Rc::new(FiniteField::new(97, 1));
    assert_eq!(f.element(-1).value(), 96);
    assert_eq!(f.element(200).value(), 6);
    assert_eq!(f.element(-97).value(), 0);
    assert_eq!(f.element(200).abs().value(), 6);
}

#[test]
fn negation_is_prime_minus_value() {
    let f = Rc::new(FiniteField::new(97, 1));
    assert_eq!((-f.element(5)).value(), 92);
    assert_eq!((-f.zero()).value(), 0);
}

#[test]
fn inverse_times_element_is_one_for_every_nonzero_element() {
    let f = Rc::new(FiniteField::new(97, 1));
    for v in 1..97 {
        let a = f.element(v);
        let inv = a.inverse();
        assert_eq!((a * inv).value(), 1);
    }
    assert_eq!(f.element(5).inverse().value(), 39);
}

#[test]
fn division_then_multiplication_gives_back_the_dividend() {
    let f = Rc::new(FiniteField::new(97, 1));
    for a in 0..97 {
        for b in 1..97 {
            let q = f.element(a) / f.element(b);
            assert_eq!(q * f.element(b), f.element(a));
        }
    }
    assert_eq!((&f.element(10) / &f.element(5)).value(), 2);
}

#[test]
fn addition_commutes_and_associates_with_neutral_elements() {
    let f = Rc::new(FiniteField::new(13, 2));
    for a in 0..13 {
        for b in 0..13 {
            assert_eq!(f.element(a) + f.element(b), f.element(b) + f.element(a));
            for c in 0..13 {
                assert_eq!(
                    (f.element(a) + f.element(b)) + f.element(c),
                    f.element(a) + (f.element(b) + f.element(c))
                );
            }
        }
        assert_eq!(f.element(a) + f.zero(), f.element(a));
        assert_eq!(f.element(a) * f.one(), f.element(a));
    }
}

#[test]
fn pow_is_square_and_multiply() {
    let f = Rc::new(FiniteField::new(97, 1));
    assert_eq!(f.element(3).pow(&f.element(4)).value(), 81);
    assert_eq!(f.element(2).pow(&f.element(10)).value(), 1024 % 97);
    assert_eq!(f.element(5).pow(&f.element(0)).value(), 1);
    assert_eq!(f.element(0).pow(&f.element(3)).value(), 0);
    // Fermat: a^(p-1) == 1 for a != 0.
    assert_eq!(f.element(7).pow(&f.element(96)).value(), 1);
}

#[test]
fn extended_euclidean_gives_bezout_coefficients() {
    let (g, x, y) = FiniteField::extended_euclidean(240, 46);
    assert_eq!(g, 2);
    assert_eq!(240 * x + 46 * y, 2);
    assert_eq!(FiniteField::extended_euclidean(0, 7), (7, 0, 1));
}

#[test]
fn elements_of_different_primes_are_not_equal() {
    let f = Rc::new(FiniteField::new(97, 1));
    let g = Rc::new(FiniteField::new(13, 1));
    assert_ne!(f.element(5), g.element(5));
    assert_eq!(f.element(5), f.element(102));
}

#[test]
fn random_element_is_canonical() {
    let f = Rc::new(FiniteField::new(97, 1));
    for _ in 0..50 {
        let v = f.random_element().value();
        assert!((0..97).contains(&v));
    }
}
