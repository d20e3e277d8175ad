use quack::arithmetic::{ModularInteger, MonicPolynomialEvaluator, MODULUS};
use quack::montgomery::MontgomeryInteger;

fn elements(values: &[u32]) -> Vec<ModularInteger> {
    values.iter().map(|value| ModularInteger::new(*value)).collect()
}

#[test]
fn modulus_is_the_largest_prime_below_two_to_the_32() {
    assert_eq!(MODULUS, 4294967291);
}

#[test]
fn new_reduces_modulo_the_modulus() {
    assert_eq!(ModularInteger::new(0).value(), 0);
    assert_eq!(ModularInteger::new(4294967290).value(), 4294967290);
    assert_eq!(ModularInteger::new(4294967291).value(), 0);
    assert_eq!(ModularInteger::new(4294967295).value(), 4);
}

#[test]
fn zero_and_one() {
    assert_eq!(ModularInteger::zero().value(), 0);
    assert_eq!(ModularInteger::one().value(), 1);
    assert!(ModularInteger::zero().is_zero());
    assert!(!ModularInteger::one().is_zero());
    assert!(ModularInteger::new(MODULUS).is_zero());
}

#[test]
fn add_wraps_at_the_modulus() {
    let a = ModularInteger::new(4294967290);
    let b = ModularInteger::new(7);
    assert_eq!(a.add(b).value(), 6);
    assert_eq!(b.add(a).value(), 6);
    assert_eq!(a.add(a).value(), 4294967289);
    assert_eq!(ModularInteger::new(1).add(ModularInteger::new(2)).value(), 3);
}

#[test]
fn sub_wraps_below_zero() {
    let three = ModularInteger::new(3);
    let five = ModularInteger::new(5);
    assert_eq!(five.sub(three).value(), 2);
    assert_eq!(three.sub(five).value(), 4294967289);
    assert_eq!(three.sub(three).value(), 0);
}

#[test]
fn neg_is_the_additive_inverse() {
    assert_eq!(ModularInteger::new(1).neg().value(), 4294967290);
    assert_eq!(ModularInteger::new(0).neg().value(), 0);
    let a = ModularInteger::new(123456789);
    assert!(a.add(a.neg()).is_zero());
}

#[test]
fn mul_reduces_the_wide_product() {
    let a = ModularInteger::new(65536);
    assert_eq!(a.mul(a).value(), 5);
    let b = ModularInteger::new(4294967290);
    assert_eq!(b.mul(b).value(), 1);
    assert_eq!(b.mul(ModularInteger::new(123456789)).value(), 4171510502);
    assert_eq!(b.mul(ModularInteger::zero()).value(), 0);
}

#[test]
fn pow_is_repeated_multiplication() {
    assert_eq!(ModularInteger::new(2).pow(32).value(), 5);
    assert_eq!(ModularInteger::new(3).pow(100).value(), 3041933467);
    assert_eq!(ModularInteger::new(123456789).pow(2).value(), 2554815075);
    assert_eq!(ModularInteger::new(3).pow(0).value(), 1);
    assert_eq!(ModularInteger::new(0).pow(0).value(), 1);
    assert_eq!(ModularInteger::new(0).pow(5).value(), 0);
    assert_eq!(ModularInteger::new(3).pow(1).value(), 3);
}

#[test]
fn pow_to_the_modulus_less_one_is_one() {
    assert_eq!(ModularInteger::new(7).pow(MODULUS - 1).value(), 1);
    assert_eq!(ModularInteger::new(4294967290).pow(MODULUS - 1).value(), 1);
}

#[test]
fn inv_is_the_multiplicative_inverse() {
    assert_eq!(ModularInteger::new(1).inv().value(), 1);
    assert_eq!(ModularInteger::new(2).inv().value(), 2147483646);
    assert_eq!(ModularInteger::new(5).inv().value(), 3435973833);
    assert_eq!(ModularInteger::new(65536).inv().value(), 3435986940);
    for value in [3u32, 1000, 123456789, 4294967290] {
        let a = ModularInteger::new(value);
        assert_eq!(a.mul(a.inv()).value(), 1);
    }
}

#[test]
fn inv_agrees_with_the_power() {
    for value in [2u32, 77, 4000000000] {
        let a = ModularInteger::new(value);
        assert_eq!(a.inv(), a.pow(MODULUS - 2));
    }
}

#[test]
fn inv_of_zero_is_zero() {
    assert_eq!(ModularInteger::zero().inv().value(), 0);
}

#[test]
fn eval_of_no_coefficients_is_one() {
    let coeffs: Vec<ModularInteger> = vec![];
    assert_eq!(MonicPolynomialEvaluator::eval(&coeffs, 0).value(), 1);
    assert_eq!(MonicPolynomialEvaluator::eval(&coeffs, 12345).value(), 1);
}

#[test]
fn eval_at_zero_is_the_last_coefficient() {
    let coeffs = elements(&[3, 4]);
    assert_eq!(MonicPolynomialEvaluator::eval(&coeffs, 0).value(), 4);
    let coeffs = elements(&[4294967278, 52, 4294967231]);
    assert_eq!(MonicPolynomialEvaluator::eval(&coeffs, 0).value(), 4294967231);
}

#[test]
fn eval_follows_horner() {
    // x^2 + 3x + 4 at 5
    let coeffs = elements(&[3, 4]);
    assert_eq!(MonicPolynomialEvaluator::eval(&coeffs, 5).value(), 44);
    // (x - 2)(x - 5)(x - 6)
    let coeffs = elements(&[4294967278, 52, 4294967231]);
    assert_eq!(MonicPolynomialEvaluator::eval(&coeffs, 2).value(), 0);
    assert_eq!(MonicPolynomialEvaluator::eval(&coeffs, 5).value(), 0);
    assert_eq!(MonicPolynomialEvaluator::eval(&coeffs, 6).value(), 0);
    assert_eq!(MonicPolynomialEvaluator::eval(&coeffs, 3).value(), 6);
    assert_eq!(MonicPolynomialEvaluator::eval(&coeffs, 7).value(), 10);
}

#[test]
fn eval_reduces_the_point() {
    let coeffs = elements(&[4294967278, 52, 4294967231]);
    // 4294967293 is congruent to 2
    assert_eq!(MonicPolynomialEvaluator::eval(&coeffs, 4294967293).value(), 0);
}

#[test]
fn factor_of_the_constant_one_has_no_roots() {
    let coeffs: Vec<ModularInteger> = vec![];
    assert_eq!(MonicPolynomialEvaluator::factor(&coeffs), Ok(vec![]));
}

#[test]
fn factor_of_a_linear_polynomial() {
    // x - 9
    let coeffs = elements(&[4294967282]);
    assert_eq!(MonicPolynomialEvaluator::factor(&coeffs), Ok(vec![9]));
    // x
    let coeffs = elements(&[0]);
    assert_eq!(MonicPolynomialEvaluator::factor(&coeffs), Ok(vec![0]));
}

#[test]
fn factor_finds_distinct_roots() {
    let coeffs = elements(&[4294967278, 52, 4294967231]);
    let mut roots = MonicPolynomialEvaluator::factor(&coeffs).unwrap();
    roots.sort();
    assert_eq!(roots, vec![2, 5, 6]);
}

#[test]
fn factor_finds_repeated_roots() {
    // (x - 2)^2 (x - 7)
    let coeffs = elements(&[4294967280, 32, 4294967263]);
    let mut roots = MonicPolynomialEvaluator::factor(&coeffs).unwrap();
    roots.sort();
    assert_eq!(roots, vec![2, 2, 7]);
}

#[test]
fn factor_finds_large_roots() {
    let coeffs = elements(&[1466477716, 3728059723, 655612422, 1463300111, 3069269697]);
    let mut roots = MonicPolynomialEvaluator::factor(&coeffs).unwrap();
    roots.sort();
    assert_eq!(roots, vec![77, 123456789, 3000000001, 4000000000, 4294967290]);
}

#[test]
fn factor_fails_where_the_polynomial_does_not_split() {
    // x^2 + 1: -1 is no square modulo a prime that is 3 modulo 4
    let coeffs = elements(&[0, 1]);
    assert!(MonicPolynomialEvaluator::factor(&coeffs).is_err());
    // (x - 3)(x^2 + 1) = x^3 - 3x^2 + x - 3
    let coeffs = elements(&[4294967288, 1, 4294967288]);
    assert!(MonicPolynomialEvaluator::factor(&coeffs).is_err());
}

#[test]
fn montgomery_form_keeps_the_arithmetic() {
    let values = [0u32, 1, 2, 5, 65536, 123456789, 4294967290, 4294967295];
    for a in values {
        assert_eq!(
            MontgomeryInteger::new(a).to_modular(),
            ModularInteger::new(a)
        );
        for b in values {
            let (ma, mb) = (MontgomeryInteger::new(a), MontgomeryInteger::new(b));
            let (pa, pb) = (ModularInteger::new(a), ModularInteger::new(b));
            assert_eq!(ma.add(mb).to_modular(), pa.add(pb));
            assert_eq!(ma.sub(mb).to_modular(), pa.sub(pb));
            assert_eq!(ma.mul(mb).to_modular(), pa.mul(pb));
        }
    }
    assert_eq!(MontgomeryInteger::zero().to_modular().value(), 0);
    let product = MontgomeryInteger::new(65536).mul(MontgomeryInteger::new(65536));
    assert_eq!(product.to_modular().value(), 5);
}
