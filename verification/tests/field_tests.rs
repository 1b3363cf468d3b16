use stark_101::error::StarkError;
use stark_101::fields::FieldElement;

#[test]
fn test_field_add() {
    let a = FieldElement::<7>::new(1);
    let b = FieldElement::<7>::new(2);
    let c = a + b;
    assert_eq!(c.value(), 3);
}

#[test]
fn test_field_sub() {
    let a = FieldElement::<7>::new(1);
    let b = FieldElement::<7>::new(2);
    let c = a - b;
    assert_eq!(c.value(), 6);
}

#[test]
fn test_field_mul() {
    let a = FieldElement::<7>::new(3);
    let b = FieldElement::<7>::new(4);
    let c = a * b;
    assert_eq!(c.value(), 5);
}

#[test]
fn test_field_div() {
    let a = FieldElement::<7>::new(1);
    let b = FieldElement::<7>::new(3);
    let c = a.div(b).unwrap();
    assert_eq!(c.value(), 5);
}

#[test]
fn test_field_inverse() {
    let a = FieldElement::<7>::new(3);
    let b = a.inverse().unwrap();
    assert_eq!(b.value(), 5);
}

#[test]
fn test_field_pow() {
    let a = FieldElement::<7>::new(3);
    let b = a.pow(3);
    assert_eq!(b.value(), 6);
}

#[test]
fn test_zero_and_one() {
    let zero = FieldElement::<7>::zero();
    let one = FieldElement::<7>::one();
    assert_eq!(zero.value(), 0);
    assert_eq!(one.value(), 1);
}

#[test]
fn test_negation() {
    let a = FieldElement::<7>::new(3);
    let b = -a;
    assert_eq!(b.value(), 4);
}

#[test]
fn test_random_generation() {
    for _ in 0..100 {
        let random_element = FieldElement::<7>::random();
        assert!(random_element.value() < 7);
    }
}

#[test]
fn test_modular_wraparound() {
    let a = FieldElement::<7>::new(10);
    let b = FieldElement::<7>::new(12);
    let c = a + b;
    assert_eq!(c.value(), 1);
}

#[test]
fn test_equality() {
    let a = FieldElement::<7>::new(3);
    let b = FieldElement::<7>::new(10); // Both 3 % 7 and 10 % 7 reduce to 3
    assert!(a == b);
}

#[test]
fn test_field_add_assign() {
    let mut a = FieldElement::<7>::new(3);
    let b = FieldElement::<7>::new(5);
    a.add_assign(b);
    assert_eq!(a.value(), 1);
}

#[test]
fn test_field_sub_assign() {
    let mut a = FieldElement::<7>::new(3);
    let b = FieldElement::<7>::new(5);
    a.sub_assign(b);
    assert_eq!(a.value(), 5);
}

#[test]
fn test_field_mul_assign() {
    let mut a = FieldElement::<7>::new(3);
    let b = FieldElement::<7>::new(5);
    a.mul_assign(b);
    assert_eq!(a.value(), 1);
}

#[test]
fn test_field_div_assign() {
    let mut a = FieldElement::<7>::new(3);
    let b = FieldElement::<7>::new(5);
    a.div_assign(b).unwrap();
    assert_eq!(a.value(), 2);
}

#[test]
fn test_pow_zero() {
    let a = FieldElement::<7>::new(3);
    let result = a.pow(0);
    assert_eq!(result.value(), 1);
}

#[test]
fn test_pow_one() {
    let a = FieldElement::<7>::new(3);
    let result = a.pow(1);
    assert_eq!(result.value(), 3);
}

#[test]
fn test_inverse_multiplication() {
    let a = FieldElement::<7>::new(3);
    let inv = a.inverse().unwrap();
    assert_eq!((a * inv).value(), 1);
}

#[test]
fn add_then_sub_returns_the_first_operand() {
    for a in 0..7u64 {
        for b in 0..7u64 {
            let x = FieldElement::<7>::new(a);
            let y = FieldElement::<7>::new(b);
            assert_eq!(((x + y) - y).value(), a);
        }
    }
}

#[test]
fn mul_then_div_returns_the_first_operand() {
    for a in 0..13u64 {
        for b in 1..13u64 {
            let x = FieldElement::<13>::new(a);
            let y = FieldElement::<13>::new(b);
            assert_eq!((x * y).div(y).unwrap().value(), a);
        }
    }
}

#[test]
fn inverse_times_self_is_one() {
    for a in 1..13u64 {
        let x = FieldElement::<13>::new(a);
        assert_eq!((x.inverse().unwrap() * x).value(), 1);
    }
}

#[test]
fn inverse_of_zero_is_an_arithmetic_error() {
    let zero = FieldElement::<7>::zero();
    assert_eq!(zero.inverse(), Err(StarkError::ArithmeticError));
    assert_eq!(FieldElement::<7>::new(3).div(zero), Err(StarkError::ArithmeticError));
    let mut a = FieldElement::<7>::new(3);
    assert_eq!(a.div_assign(zero), Err(StarkError::ArithmeticError));
    assert_eq!(a.value(), 3);
}

#[test]
fn inverse_needs_a_modulus_above_two() {
    let one = FieldElement::<2>::new(1);
    assert_eq!(one.inverse(), Err(StarkError::ConfigurationError));
    assert_eq!(one.div(one), Err(StarkError::ConfigurationError));
}

#[test]
fn negation_of_zero_is_zero() {
    assert_eq!((-FieldElement::<7>::zero()).value(), 0);
}

#[test]
fn arithmetic_does_not_overflow_near_the_word_size() {
    const P: u64 = 18446744073709551557; // the largest prime below 2^64
    let a = FieldElement::<P>::new(P - 1);
    let b = FieldElement::<P>::new(P - 2);
    assert_eq!((a + b).value(), P - 3);
    assert_eq!((a * b).value(), 2);
    assert_eq!((b - a).value(), P - 1);
    assert_eq!((a * a.inverse().unwrap()).value(), 1);
}

#[test]
fn bytes_are_big_endian_and_fixed_width() {
    let a = FieldElement::<1000003>::new(0x0102);
    assert_eq!(a.to_bytes(), [0, 0, 0, 0, 0, 0, 1, 2]);
    assert_eq!(FieldElement::<7>::new(5).to_bytes(), 5u64.to_be_bytes());
}

#[test]
fn from_bytes_undoes_to_bytes() {
    for v in [0u64, 1, 255, 256, 65535, 1000002] {
        let a = FieldElement::<1000003>::new(v);
        let back = FieldElement::<1000003>::from_bytes(&a.to_bytes()).unwrap();
        assert_eq!(back.value(), v);
    }
    let reduced = FieldElement::<7>::from_bytes(&[0, 0, 0, 0, 0, 0, 0, 9]).unwrap();
    assert_eq!(reduced.value(), 2);
}

#[test]
fn from_bytes_rejects_other_lengths() {
    assert_eq!(FieldElement::<7>::from_bytes(&[1, 2, 3]), Err(StarkError::ProtocolError));
    assert_eq!(FieldElement::<7>::from_bytes(&[0; 9]), Err(StarkError::ProtocolError));
}

#[test]
fn equality_distinguishes_different_elements() {
    assert!(FieldElement::<7>::new(3) != FieldElement::<7>::new(4));
}

#[test]
fn pow_matches_repeated_multiplication() {
    let a = FieldElement::<101>::new(7);
    let mut acc = FieldElement::<101>::one();
    for e in 0..20u64 {
        assert_eq!(a.pow(e).value(), acc.value());
        acc = acc * a;
    }
}
