use stark_101::error::StarkError;
use stark_101::fields::FieldElement;
use stark_101::polynomial::interpolation::{
    gen_lagrange_polynomials, gen_lagrange_polynomials_parallel, gen_polynomial_from_roots,
    interpolate_lagrange_polynomials, lagrange_basis_polynomial,
};
use stark_101::polynomial::Polynomial;

type F7 = FieldElement<7>;

fn fe7(v: u64) -> F7 {
    FieldElement::<7>::new(v)
}

#[test]
fn test_gen_polynomial_from_roots() {
    let roots = vec![fe7(1), fe7(2), fe7(3)];
    let polynomial = gen_polynomial_from_roots(&roots);

    assert_eq!(polynomial.coefficients[0], F7::new(1));
    assert_eq!(polynomial.coefficients[1], F7::new(4));
    assert_eq!(polynomial.coefficients[2], F7::new(1));
    assert_eq!(polynomial.coefficients[3], F7::new(1));
}

#[test]
fn test_gen_lagrange_poly() {
    let xs = vec![fe7(2), fe7(3), fe7(5)];

    let lagrange_polys = gen_lagrange_polynomials(&xs).unwrap();
    assert_eq!(lagrange_polys.len(), xs.len());

    for (i, &xi) in xs.iter().enumerate() {
        for (j, &xj) in xs.iter().enumerate() {
            let eval = lagrange_polys[i].evaluate(xj);
            if i == j {
                assert_eq!(
                    eval,
                    FieldElement::one(),
                    "Lagrange basis polynomial L_{} did not evaluate to 1 at its node (x = {:?})",
                    i,
                    xi
                );
            } else {
                assert_eq!(
                    eval,
                    FieldElement::zero(),
                    "Lagrange basis polynomial L_{} did not evaluate to 0 at x = {:?}",
                    i,
                    xj
                );
            }
        }
    }
}

#[test]
fn test_gen_lagrange_poly2() {
    let x = vec![fe7(2), fe7(3), fe7(5), fe7(6)];

    let lagrange_polynomials = gen_lagrange_polynomials(&x).unwrap();
    assert_eq!(lagrange_polynomials.len(), 4);

    for (i, _) in x.iter().enumerate() {
        for (j, &xj) in x.iter().enumerate() {
            let eval = lagrange_polynomials[i].evaluate(xj);
            if i == j {
                assert_eq!(eval, FieldElement::one());
            } else {
                assert_eq!(eval, FieldElement::zero());
            }
        }
    }
}

#[test]
fn test_interpolate_lagrange_polynomials() {
    let x = vec![fe7(2), fe7(3), fe7(5)];
    let y = vec![fe7(1), fe7(2), fe7(3)];
    let result = interpolate_lagrange_polynomials(&x, &y).unwrap();

    assert_eq!(result.coefficients[0], fe7(5));
    assert_eq!(result.coefficients[1], fe7(3));
    assert_eq!(result.coefficients[2], fe7(1));
}

#[test]
fn test_gen_lagrange_poly_parallel_small() {
    let x = vec![fe7(2), fe7(3), fe7(5), fe7(6)];

    let lagrange_polys = gen_lagrange_polynomials_parallel(&x).unwrap();

    assert_eq!(lagrange_polys.len(), x.len());

    for (i, _) in x.iter().enumerate() {
        for (j, &xj) in x.iter().enumerate() {
            let eval = lagrange_polys[i].evaluate(xj);
            if i == j {
                assert_eq!(
                    eval,
                    FieldElement::one(),
                    "Basis polynomial L_{} did not evaluate to 1 at x = {:?}",
                    i,
                    xj
                );
            } else {
                assert_eq!(
                    eval,
                    FieldElement::zero(),
                    "Basis polynomial L_{} did not evaluate to 0 at x = {:?}",
                    i,
                    xj
                );
            }
        }
    }
}

#[test]
fn test_gen_lagrange_poly_parallel_random() {
    let x = vec![fe7(1), fe7(2), fe7(3), fe7(4), fe7(6)];

    let lagrange_polys = gen_lagrange_polynomials_parallel(&x).unwrap();
    assert_eq!(lagrange_polys.len(), x.len());

    for (i, _) in x.iter().enumerate() {
        for (j, &xj) in x.iter().enumerate() {
            let eval = lagrange_polys[i].evaluate(xj);
            if i == j {
                assert_eq!(eval, FieldElement::one());
            } else {
                assert_eq!(eval, FieldElement::zero());
            }
        }
    }
}

#[test]
fn first_basis_polynomial_for_two_three_five() {
    // L_0 = (x - 3)(x - 5) / ((2 - 3)(2 - 5)) = 5 (x^2 - x + 1) = 5 + 2x + 5x^2 (mod 7)
    let xs = vec![fe7(2), fe7(3), fe7(5)];
    let basis = gen_lagrange_polynomials(&xs).unwrap();
    let l0: Vec<u64> = basis[0].coefficients.iter().map(|c| c.value()).collect();
    assert_eq!(l0, vec![5, 2, 5]);
    assert_eq!(basis[0].evaluate(fe7(2)).value(), 1);
    assert_eq!(basis[0].evaluate(fe7(3)).value(), 0);
    assert_eq!(basis[0].evaluate(fe7(5)).value(), 0);
}

#[test]
fn parallel_and_sequential_bases_agree() {
    let xs = vec![fe7(0), fe7(1), fe7(3), fe7(4), fe7(6)];
    let a = gen_lagrange_polynomials(&xs).unwrap();
    let b = gen_lagrange_polynomials_parallel(&xs).unwrap();
    assert_eq!(a, b);
    let z = gen_polynomial_from_roots(&xs);
    for i in 0..xs.len() {
        assert_eq!(lagrange_basis_polynomial(&z, &xs, i).unwrap(), a[i]);
    }
}

#[test]
fn no_points_give_no_basis_and_the_zero_polynomial() {
    let none: Vec<F7> = vec![];
    assert!(gen_polynomial_from_roots(&none).is_zero());
    assert_eq!(gen_lagrange_polynomials(&none).unwrap().len(), 0);
    assert_eq!(gen_lagrange_polynomials_parallel(&none).unwrap().len(), 0);
    assert!(interpolate_lagrange_polynomials(&none, &none).unwrap().is_zero());
}

#[test]
fn mismatched_lengths_are_a_shape_error() {
    let xs = vec![fe7(1), fe7(2)];
    let ys = vec![fe7(1)];
    assert_eq!(interpolate_lagrange_polynomials(&xs, &ys).err(), Some(StarkError::ShapeError));
}

#[test]
fn repeated_points_are_an_arithmetic_error() {
    let xs = vec![fe7(1), fe7(2), fe7(1)];
    assert_eq!(gen_lagrange_polynomials(&xs).err(), Some(StarkError::ArithmeticError));
    assert_eq!(gen_lagrange_polynomials_parallel(&xs).err(), Some(StarkError::ArithmeticError));
    let ys = vec![fe7(1), fe7(2), fe7(3)];
    assert_eq!(interpolate_lagrange_polynomials(&xs, &ys).err(), Some(StarkError::ArithmeticError));
}

#[test]
fn interpolation_recovers_a_polynomial_from_its_values() {
    let p = Polynomial::<7>::new(vec![fe7(3), fe7(0), fe7(6), fe7(2)]);
    let xs = vec![fe7(0), fe7(1), fe7(2), fe7(4), fe7(5)];
    let ys: Vec<F7> = xs.iter().map(|&x| p.evaluate(x)).collect();
    assert_eq!(interpolate_lagrange_polynomials(&xs, &ys).unwrap(), p);
}

#[test]
fn interpolation_over_a_larger_field() {
    type F = FieldElement<1000003>;
    let p = Polynomial::<1000003>::new(vec![F::new(17), F::new(999999), F::new(5), F::new(123456)]);
    let xs: Vec<F> = (10..14u64).map(F::new).collect();
    let ys: Vec<F> = xs.iter().map(|&x| p.evaluate(x)).collect();
    assert_eq!(interpolate_lagrange_polynomials(&xs, &ys).unwrap(), p);
}
