use stark_101::error::StarkError;
use stark_101::fields::FieldElement;
use stark_101::polynomial::Polynomial;

fn generate_random_polynomial(degree: usize) -> Polynomial<7> {
    let mut coeffs: Vec<FieldElement<7>> = (0..degree).map(|_| FieldElement::random()).collect();
    let mut leading = FieldElement::zero();
    while leading == FieldElement::zero() {
        leading = FieldElement::random();
    }
    coeffs.push(leading);
    Polynomial::new(coeffs)
}

fn poly7(values: &[u64]) -> Polynomial<7> {
    Polynomial::new(values.iter().map(|&v| FieldElement::<7>::new(v)).collect())
}

fn coeffs_of(p: &Polynomial<7>) -> Vec<u64> {
    p.coefficients.iter().map(|c| c.value()).collect()
}

#[test]
fn test_zero_polynomial() {
    let poly: Polynomial<7> = Polynomial::zero();
    assert_eq!(poly.degree, -1);
    assert!(poly.is_zero());
}

#[test]
fn test_evaluate_zero_polynomial() {
    let field = FieldElement::<7>::zero();
    let poly = Polynomial::zero();
    assert_eq!(poly.evaluate(field), FieldElement::zero());
}

#[test]
fn test_evaluate_constant_polynomial() {
    let field = FieldElement::<7>::zero();
    let coeffs = vec![FieldElement::new(5)];
    let poly = Polynomial::new(coeffs);
    assert_eq!(poly.evaluate(field), FieldElement::new(5));
}

#[test]
fn test_poly_addition() {
    let coeffs1 = vec![FieldElement::<7>::new(2), FieldElement::new(3)];
    let coeffs2 = vec![FieldElement::<7>::new(4), FieldElement::new(1)];
    let poly1 = Polynomial::new(coeffs1);
    let poly2 = Polynomial::new(coeffs2);
    let result = poly1 + poly2;
    assert_eq!(result.coefficients[0], FieldElement::new(6));
    assert_eq!(result.coefficients[1], FieldElement::new(4));
}

#[test]
fn test_poly_subtraction() {
    let coeffs1 = vec![FieldElement::<7>::new(6), FieldElement::<7>::new(5)];
    let coeffs2 = vec![FieldElement::<7>::new(4), FieldElement::<7>::new(3)];
    let poly1 = Polynomial::new(coeffs1);
    let poly2 = Polynomial::new(coeffs2);
    let result = poly1 - poly2;

    assert_eq!(result.coefficients[0], FieldElement::<7>::new(2));
    assert_eq!(result.coefficients[1], FieldElement::<7>::new(2));
}

#[test]
fn test_poly_multiplication() {
    let coeffs1 = vec![FieldElement::<7>::new(1), FieldElement::<7>::new(2)];
    let coeffs2 = vec![FieldElement::<7>::new(3), FieldElement::<7>::new(4)];
    let poly1 = Polynomial::new(coeffs1);
    let poly2 = Polynomial::new(coeffs2);
    let result = poly1 * poly2;

    assert_eq!(result.coefficients.len(), 3);
    assert_eq!(result.coefficients[0], FieldElement::<7>::new(3));
    assert_eq!(result.coefficients[1], FieldElement::<7>::new(3));
    assert_eq!(result.coefficients[2], FieldElement::<7>::new(1));
}

#[test]
fn test_poly_scalar_multiplication() {
    let coeffs = vec![FieldElement::<7>::new(2), FieldElement::<7>::new(3)];
    let poly = Polynomial::new(coeffs);
    let scalar = FieldElement::<7>::new(4);
    let result = poly * scalar;

    assert_eq!(result.coefficients[0], FieldElement::<7>::new(1));
    assert_eq!(result.coefficients[1], FieldElement::<7>::new(5));
}

#[test]
fn test_poly_division() {
    let coeffs1 = vec![
        FieldElement::<7>::new(1),
        FieldElement::<7>::new(3),
        FieldElement::<7>::new(2),
    ];
    let coeffs2 = vec![FieldElement::<7>::new(1), FieldElement::<7>::new(1)];
    let poly1 = Polynomial::new(coeffs1);
    let poly2 = Polynomial::new(coeffs2);
    let (q, r) = poly1.div_rem(&poly2).unwrap();

    assert_eq!(q.coefficients.len(), 2, "Quotient should be of degree 1.");
    assert_eq!(q.coefficients[0], FieldElement::<7>::new(1), "Constant term of quotient should be 1.");
    assert_eq!(q.coefficients[1], FieldElement::<7>::new(2), "x term of quotient should be 2.");
    assert!(r.is_zero(), "Remainder should be zero.");
}

#[test]
fn test_poly_composition() {
    let coeffs1 = vec![FieldElement::<7>::new(1), FieldElement::<7>::new(1)];
    let coeffs2 = vec![FieldElement::<7>::new(2), FieldElement::<7>::new(3)];
    let poly1 = Polynomial::new(coeffs1);
    let poly2 = Polynomial::new(coeffs2);
    let result = poly1.compose(&poly2);

    assert_eq!(result.coefficients.len(), 2, "Composition should yield a polynomial of degree 1.");
    assert_eq!(result.coefficients[0], FieldElement::<7>::new(3), "Constant term should be 3.");
    assert_eq!(result.coefficients[1], FieldElement::<7>::new(3), "x term should be 3.");
}

#[test]
fn test_poly_random_generation() {
    let poly = generate_random_polynomial(5);
    assert_eq!(poly.degree, 5);
}

#[test]
fn test_create_with_empty_coeffs() {
    let poly: Polynomial<7> = Polynomial::new(vec![]);

    assert!(poly.is_zero(), "A polynomial created with empty coefficients should be zero.");
    assert_eq!(poly.coefficients.len(), 0, "Zero polynomial should have no coefficients.");
    assert_eq!(poly.degree, -1, "Degree of zero polynomial should be -1 by convention.");
}

#[test]
fn test_create_with_trailing_zeros() {
    let coeffs = vec![
        FieldElement::<7>::new(1),
        FieldElement::<7>::new(2),
        FieldElement::<7>::zero(),
        FieldElement::<7>::zero(),
    ];
    let poly = Polynomial::new(coeffs);

    assert_eq!(poly.degree, 1, "Polynomial degree should match the last nonzero coefficient.");
    assert_eq!(poly.coefficients.len(), 2, "Trailing zeros should be removed.");
    assert_eq!(poly.coefficients[0], FieldElement::<7>::new(1));
    assert_eq!(poly.coefficients[1], FieldElement::<7>::new(2));
}

#[test]
fn test_is_zero() {
    let zero_poly = Polynomial::<7>::zero();
    assert!(zero_poly.is_zero(), "Zero polynomial should return true for is_zero().");

    let non_zero_poly = Polynomial::new(vec![FieldElement::<7>::new(0), FieldElement::<7>::new(1)]);
    assert!(!non_zero_poly.is_zero(), "Polynomial with nonzero terms should not be considered zero.");
}

#[test]
fn test_leading_coefficient() {
    let poly = Polynomial::new(vec![FieldElement::<7>::new(2), FieldElement::<7>::new(5)]);
    assert_eq!(
        poly.leading_coefficient().unwrap(),
        FieldElement::<7>::new(5),
        "Leading coefficient should be the highest-degree term."
    );

    let zero_poly = Polynomial::<7>::zero();
    assert_eq!(
        zero_poly.leading_coefficient(),
        None,
        "Leading coefficient of zero polynomial should be None."
    );
}

#[test]
fn test_add_zero_polynomial() {
    let p = Polynomial::new(vec![FieldElement::<7>::new(3), FieldElement::<7>::new(4)]);
    let zero_p = Polynomial::zero();
    let result = p.clone() + zero_p;
    assert_eq!(result, p);
}

#[test]
fn test_sub_zero_polynomial() {
    let p = Polynomial::new(vec![FieldElement::<7>::new(3), FieldElement::<7>::new(4)]);
    let zero_p = Polynomial::zero();
    let result = p.clone() - zero_p;

    assert_eq!(result, p, "Subtracting zero polynomial should not change the polynomial.");
}

#[test]
fn test_add_assign() {
    let mut p = Polynomial::new(vec![FieldElement::<7>::new(1), FieldElement::<7>::new(2)]);
    let q = Polynomial::new(vec![FieldElement::<7>::new(2), FieldElement::<7>::new(3)]);
    p.add_assign(&q);

    assert_eq!(p.coefficients[0], FieldElement::<7>::new(3));
    assert_eq!(p.coefficients[1], FieldElement::<7>::new(5));
}

#[test]
fn test_sub_assign() {
    let mut p = Polynomial::new(vec![FieldElement::<7>::new(3), FieldElement::<7>::new(5)]);
    let q = Polynomial::new(vec![FieldElement::<7>::new(2), FieldElement::<7>::new(3)]);
    p.sub_assign(&q);

    assert_eq!(p.coefficients[0], FieldElement::<7>::new(1));
    assert_eq!(p.coefficients[1], FieldElement::<7>::new(2));
}

#[test]
fn test_mul_by_zero_polynomial() {
    let p = Polynomial::new(vec![FieldElement::<7>::new(1), FieldElement::<7>::new(2)]);
    let zero_p = Polynomial::zero();
    let result = p * zero_p;

    assert!(result.is_zero(), "Multiplication by zero polynomial should result in a zero polynomial.");
}

#[test]
fn test_mul_assign_polynomial() {
    let mut p = Polynomial::new(vec![FieldElement::<7>::new(1), FieldElement::<7>::new(2)]);
    let q = Polynomial::new(vec![FieldElement::<7>::new(2), FieldElement::<7>::new(1)]);

    p.mul_assign(&q);

    assert_eq!(p.coefficients.len(), 3);
    assert_eq!(p.coefficients[0], FieldElement::<7>::new(2));
    assert_eq!(p.coefficients[1], FieldElement::<7>::new(5));
    assert_eq!(p.coefficients[2], FieldElement::<7>::new(2));
}

#[test]
fn test_poly_scalar_division() {
    let coeffs = vec![FieldElement::<7>::new(2), FieldElement::<7>::new(4)];
    let mut poly = Polynomial::new(coeffs);
    let scalar = FieldElement::<7>::new(2);
    poly.scalar_div(scalar).unwrap();

    assert_eq!(poly.coefficients[0], FieldElement::<7>::new(1));
    assert_eq!(poly.coefficients[1], FieldElement::<7>::new(2));
}

#[test]
fn test_poly_div_rem_no_remainder() {
    let coeffs1 = vec![
        FieldElement::<7>::new(1),
        FieldElement::<7>::new(3),
        FieldElement::<7>::new(2),
    ];
    let coeffs2 = vec![FieldElement::<7>::new(1), FieldElement::<7>::new(1)];
    let poly1 = Polynomial::new(coeffs1);
    let poly2 = Polynomial::new(coeffs2);
    let (q, r) = poly1.div_rem(&poly2).unwrap();

    assert_eq!(q.coefficients[0], FieldElement::<7>::new(1));
    assert_eq!(q.coefficients[1], FieldElement::<7>::new(2));
    assert!(r.is_zero(), "The remainder should be zero.");
}

#[test]
fn test_poly_rem_operator() {
    let coeffs1 = vec![
        FieldElement::<7>::new(2),
        FieldElement::<7>::new(5),
        FieldElement::<7>::new(3),
    ];
    let coeffs2 = vec![FieldElement::<7>::new(1), FieldElement::<7>::new(1)];
    let poly1 = Polynomial::new(coeffs1);
    let poly2 = Polynomial::new(coeffs2);
    let remainder = poly1.clone().rem(poly2.clone()).unwrap();
    let (_, r) = poly1.div_rem(&poly2).unwrap();

    assert_eq!(remainder, r, "Modulo operator should return the correct remainder.");
}

#[test]
fn test_poly_rem_assign() {
    let coeffs1 = vec![
        FieldElement::<7>::new(1),
        FieldElement::<7>::new(1),
        FieldElement::<7>::new(1),
    ];
    let coeffs2 = vec![FieldElement::<7>::new(1), FieldElement::<7>::new(1)];
    let mut p = Polynomial::new(coeffs1);
    let q = Polynomial::new(coeffs2);

    p.rem_assign(q.clone()).unwrap();
    let (_, r) = Polynomial::new(vec![
        FieldElement::<7>::new(1),
        FieldElement::<7>::new(1),
        FieldElement::<7>::new(1),
    ])
    .div_rem(&q)
    .unwrap();

    assert_eq!(p, r, "Polynomial %= operator should correctly compute remainder.");
}

#[test]
fn test_poly_div_rem_nontrivial() {
    let coeffs1 = vec![FieldElement::<7>::new(2), FieldElement::new(5), FieldElement::new(3)];
    let coeffs2 = vec![FieldElement::<7>::new(1), FieldElement::new(1)];
    let poly1 = Polynomial::new(coeffs1);
    let poly2 = Polynomial::new(coeffs2);
    let (q, r) = poly1.div_rem(&poly2).unwrap();
    let reconstructed = (poly2.clone() * q.clone()) + r.clone();
    assert_eq!(reconstructed, poly1);
}

#[test]
fn test_poly_div_assign_scalar() {
    let mut p = Polynomial::new(vec![FieldElement::<7>::new(2), FieldElement::<7>::new(4)]);
    p.div_assign(FieldElement::new(2)).unwrap();
    assert_eq!(p.coefficients[0], FieldElement::<7>::new(1));
    assert_eq!(p.coefficients[1], FieldElement::<7>::new(2));
}

#[test]
fn division_by_the_zero_polynomial_is_an_arithmetic_error() {
    let p = poly7(&[1, 2]);
    let zero_p = Polynomial::<7>::zero();
    assert_eq!(p.div_rem(&zero_p).err(), Some(StarkError::ArithmeticError));
    assert_eq!(p.clone().rem(zero_p.clone()).err(), Some(StarkError::ArithmeticError));
    assert_eq!(p.clone().div(zero_p).err(), Some(StarkError::ArithmeticError));
}

#[test]
fn scalar_division_by_zero_is_an_arithmetic_error() {
    let mut poly = poly7(&[2, 4]);
    assert_eq!(poly.scalar_div(FieldElement::zero()), Err(StarkError::ArithmeticError));
    assert_eq!(coeffs_of(&poly), vec![2, 4]);
}

#[test]
fn exact_division_reports_a_remainder() {
    // x^2 + 1 is not a multiple of x + 1 modulo 7
    let p = poly7(&[1, 0, 1]);
    let d = poly7(&[1, 1]);
    assert_eq!(p.clone().div(d.clone()).err(), Some(StarkError::ArithmeticError));
    // (x + 1)(2x + 1) = 2x^2 + 3x + 1
    let exact = poly7(&[1, 3, 2]).div(d).unwrap();
    assert_eq!(coeffs_of(&exact), vec![1, 2]);
}

#[test]
fn division_in_a_field_of_two_elements_is_a_configuration_error() {
    let p = Polynomial::<2>::new(vec![FieldElement::new(1), FieldElement::new(1)]);
    let d = Polynomial::<2>::new(vec![FieldElement::new(1), FieldElement::new(1)]);
    assert_eq!(p.div_rem(&d).err(), Some(StarkError::ConfigurationError));
}

#[test]
fn dividend_of_lower_degree_is_its_own_remainder() {
    let p = poly7(&[3, 4]);
    let d = poly7(&[1, 2, 3]);
    let (q, r) = p.div_rem(&d).unwrap();
    assert!(q.is_zero());
    assert_eq!(r, p);
}

#[test]
fn div_rem_reconstructs_the_dividend() {
    for a in 0..40u64 {
        for b in 1..20u64 {
            let dividend = poly7(&[a % 7, (a / 7) % 7, (a * 3 + 1) % 7, (a + 2) % 7]);
            let divisor = poly7(&[b % 7, (b / 7) % 7, (b + 1) % 7]);
            if divisor.is_zero() {
                continue;
            }
            let (q, r) = dividend.div_rem(&divisor).unwrap();
            if !r.is_zero() {
                assert!(r.degree < divisor.degree);
            }
            assert_eq!((divisor.clone() * q) + r, dividend);
        }
    }
}

#[test]
fn evaluation_is_additive() {
    let p = poly7(&[1, 2, 3]);
    let q = poly7(&[4, 5, 6, 1]);
    for x in 0..7u64 {
        let x = FieldElement::<7>::new(x);
        assert_eq!((p.clone() + q.clone()).evaluate(x), p.evaluate(x) + q.evaluate(x));
    }
}

#[test]
fn evaluate_uses_every_coefficient() {
    // 1 + 2x + 3x^2 at x = 2 is 17 = 3 (mod 7)
    let p = poly7(&[1, 2, 3]);
    assert_eq!(p.evaluate(FieldElement::new(2)).value(), 3);
}

#[test]
fn sum_that_cancels_is_trimmed() {
    let p = poly7(&[1, 2, 3]);
    let q = poly7(&[1, 5, 4]);
    let s = p + q;
    assert_eq!(coeffs_of(&s), vec![2]);
    assert_eq!(s.degree, 0);
    let d = poly7(&[1, 2, 3]) - poly7(&[1, 2, 3]);
    assert!(d.is_zero());
    assert_eq!(d.degree, -1);
}

#[test]
fn scalar_multiplication_by_zero_gives_the_zero_polynomial() {
    let mut p = poly7(&[1, 2, 3]);
    p.scalar_mul(FieldElement::zero());
    assert!(p.is_zero());
    assert_eq!(p.coefficients.len(), 0);
}

#[test]
fn negation_adds_up_to_zero() {
    let p = poly7(&[1, 2, 0, 6]);
    let n = -p.clone();
    assert_eq!(coeffs_of(&n), vec![6, 5, 0, 1]);
    assert!((p + n).is_zero());
}

#[test]
fn fold_combines_even_and_odd_coefficients() {
    // 1 + 2x + 3x^2 + 4x^3, beta = 5: (1 + 5*2) + (3 + 5*4) x = 4 + 2x (mod 7)
    let p = poly7(&[1, 2, 3, 4]);
    let folded = p.fold(FieldElement::new(5));
    assert_eq!(coeffs_of(&folded), vec![4, 2]);
    assert_eq!(folded.degree, 1);
    // odd length: 1 + 2x + 3x^2 -> (1 + 5*2) + 3x = 4 + 3x
    let q = poly7(&[1, 2, 3]);
    assert_eq!(coeffs_of(&q.fold(FieldElement::new(5))), vec![4, 3]);
    assert!(Polynomial::<7>::zero().fold(FieldElement::new(5)).is_zero());
}

#[test]
fn composition_with_the_zero_polynomial_keeps_the_constant_term() {
    let p = poly7(&[1, 1]);
    let result = p.compose(&Polynomial::zero());
    assert_eq!(coeffs_of(&result), vec![1]);
    // x + 2 at the constant 5 is 0 modulo 7
    let q = poly7(&[2, 1]);
    assert!(q.compose(&poly7(&[5])).is_zero());
    assert!(Polynomial::<7>::zero().compose(&p).is_zero());
}

#[test]
fn composition_evaluates_like_nested_evaluation() {
    let p = poly7(&[3, 0, 2, 1]);
    let q = poly7(&[1, 4, 2]);
    let c = p.compose(&q);
    for x in 0..7u64 {
        let x = FieldElement::<7>::new(x);
        assert_eq!(c.evaluate(x), p.evaluate(q.evaluate(x)));
    }
}

#[test]
fn update_degree_trims_by_hand_edited_coefficients() {
    let mut p = poly7(&[1, 2, 3]);
    p.coefficients[2] = FieldElement::zero();
    p.coefficients[1] = FieldElement::zero();
    p.update_degree();
    assert_eq!(coeffs_of(&p), vec![1]);
    assert_eq!(p.degree, 0);
}

#[test]
fn polynomials_of_different_length_are_not_equal() {
    assert!(poly7(&[1, 2]) != poly7(&[1, 2, 3]));
    assert!(poly7(&[1, 2]) != poly7(&[1, 3]));
    assert!(poly7(&[1, 2]) == poly7(&[1, 2, 0]));
}
