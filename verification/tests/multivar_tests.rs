use reform::error::KernelError;
use reform::poly::raw::multivar::MultivariatePolynomial;

type Poly = MultivariatePolynomial<i64, u32>;

fn poly(nvars: usize, terms: &[(i64, &[u32])]) -> Poly {
    let mut p = Poly::with_nvars(nvars);
    for (c, e) in terms {
        p.append_monomial(*c, e).unwrap();
    }
    p
}

#[test]
fn product_of_x_plus_one_and_x_minus_one() {
    let a = poly(1, &[(1, &[1]), (1, &[0])]);
    let b = poly(1, &[(1, &[1]), (-1, &[0])]);
    let p = a.mul(&b).unwrap();
    assert_eq!(p.nterms, 2);
    assert_eq!(p.nvars, 1);
    assert_eq!(p.coefficients, vec![-1, 1]);
    assert_eq!(p.exponents, vec![0, 2]);
}

#[test]
fn append_monomial_keeps_terms_sorted_and_merges() {
    let mut p = Poly::with_nvars(2);
    p.append_monomial(3, &[1, 0]).unwrap();
    p.append_monomial(5, &[0, 2]).unwrap();
    p.append_monomial(7, &[1, 1]).unwrap();
    p.append_monomial(2, &[0, 0]).unwrap();
    assert_eq!(p.coefficients, vec![2, 5, 3, 7]);
    assert_eq!(p.exponents, vec![0, 0, 0, 2, 1, 0, 1, 1]);
    // merge with an existing term
    p.append_monomial(4, &[0, 2]).unwrap();
    assert_eq!(p.coefficients, vec![2, 9, 3, 7]);
    // a zero sum removes the term
    p.append_monomial(-3, &[1, 0]).unwrap();
    assert_eq!(p.coefficients, vec![2, 9, 7]);
    assert_eq!(p.exponents, vec![0, 0, 0, 2, 1, 1]);
    assert_eq!(p.nterms, 3);
    // a zero coefficient is no term
    p.append_monomial(0, &[9, 9]).unwrap();
    assert_eq!(p.nterms, 3);
}

#[test]
fn append_monomial_rejects_wrong_number_of_exponents() {
    let mut p = Poly::with_nvars(2);
    assert_eq!(p.append_monomial(1, &[1]), Err(KernelError::DimensionMismatch));
    assert_eq!(p.append_monomial(1, &[1, 2, 3]), Err(KernelError::DimensionMismatch));
    assert_eq!(p.nterms, 0);
    // a zero coefficient is ignored before the exponents are looked at
    assert_eq!(p.append_monomial(0, &[1]), Ok(()));
}

#[test]
fn sum_is_commutative_and_associative() {
    let a = poly(2, &[(1, &[0, 1]), (2, &[1, 0]), (3, &[2, 2])]);
    let b = poly(2, &[(-1, &[0, 1]), (5, &[1, 1]), (4, &[2, 2])]);
    let c = poly(2, &[(6, &[0, 0]), (-2, &[1, 0])]);
    let ab = a.add(&b).unwrap();
    let ba = b.add(&a).unwrap();
    assert_eq!(ab.coefficients, ba.coefficients);
    assert_eq!(ab.exponents, ba.exponents);
    assert_eq!(ab.coefficients, vec![2, 5, 7]);
    assert_eq!(ab.exponents, vec![1, 0, 1, 1, 2, 2]);
    let l = ab.add(&c).unwrap();
    let r = a.add(&b.add(&c).unwrap()).unwrap();
    assert_eq!(l.coefficients, r.coefficients);
    assert_eq!(l.exponents, r.exponents);
    assert_eq!(l.coefficients, vec![6, 5, 7]);
    assert_eq!(l.exponents, vec![0, 0, 1, 1, 2, 2]);
}

#[test]
fn product_is_commutative() {
    let a = poly(2, &[(1, &[0, 1]), (2, &[1, 0]), (3, &[2, 2])]);
    let b = poly(2, &[(-1, &[0, 1]), (5, &[1, 1])]);
    let ab = a.mul(&b).unwrap();
    let ba = b.mul(&a).unwrap();
    assert_eq!(ab.coefficients, ba.coefficients);
    assert_eq!(ab.exponents, ba.exponents);
    // (y + 2x + 3x^2y^2)(-y + 5xy)
    //   = -y^2 - 2xy + 5xy^2 + 10x^2y - 3x^2y^3 + 15x^3y^3
    assert_eq!(ab.coefficients, vec![-1, -2, 5, 10, -3, 15]);
    assert_eq!(ab.exponents, vec![0, 2, 1, 1, 1, 2, 2, 1, 2, 3, 3, 3]);
}

#[test]
fn sum_with_negation_is_zero() {
    let a = poly(3, &[(1, &[0, 1, 0]), (2, &[1, 0, 4]), (-3, &[2, 2, 2])]);
    let n = a.neg();
    assert_eq!(n.coefficients, vec![-1, -2, 3]);
    let z = a.add(&n).unwrap();
    assert!(z.is_zero());
    assert_eq!(z.nterms, 0);
    assert!(z.exponents.is_empty());
    let d = a.sub(&a).unwrap();
    assert!(d.is_zero());
}

#[test]
fn zero_operand_is_exempt_from_the_variable_count() {
    let a = poly(2, &[(1, &[0, 1])]);
    let z = Poly::with_nvars(5);
    let s = z.add(&a).unwrap();
    assert_eq!(s.nvars, 2);
    assert_eq!(s.coefficients, vec![1]);
    let s = a.add(&z).unwrap();
    assert_eq!(s.nvars, 2);
    let p = a.mul(&z).unwrap();
    assert!(p.is_zero());
    assert_eq!(p.nvars, 2);
    let p = z.mul(&a).unwrap();
    assert!(p.is_zero());
    assert_eq!(p.nvars, 2);
}

#[test]
fn operands_with_different_variable_counts_are_rejected() {
    let a = poly(2, &[(1, &[0, 1])]);
    let b = poly(3, &[(1, &[0, 1, 0])]);
    assert!(matches!(a.add(&b), Err(KernelError::DimensionMismatch)));
    assert!(matches!(a.sub(&b), Err(KernelError::DimensionMismatch)));
    assert!(matches!(a.mul(&b), Err(KernelError::DimensionMismatch)));
}

#[test]
fn exponent_overflow_is_reported() {
    let a: MultivariatePolynomial<i64, u8> = MultivariatePolynomial::from_monomial(1, vec![200u8]);
    let b: MultivariatePolynomial<i64, u8> = MultivariatePolynomial::from_monomial(1, vec![56u8]);
    assert!(matches!(a.mul(&b), Err(KernelError::Overflow)));
    let c: MultivariatePolynomial<i64, u8> = MultivariatePolynomial::from_monomial(1, vec![55u8]);
    let p = a.mul(&c).unwrap();
    assert_eq!(p.exponents, vec![255u8]);
}

#[test]
fn scalar_operations() {
    let a = poly(2, &[(1, &[0, 1]), (2, &[1, 0])]);
    let s = a.mul_scalar(3);
    assert_eq!(s.coefficients, vec![3, 6]);
    assert_eq!(s.exponents, vec![0, 1, 1, 0]);
    let z = a.mul_scalar(0);
    assert!(z.is_zero());
    let t = a.add_scalar(7);
    assert_eq!(t.coefficients, vec![7, 1, 2]);
    assert_eq!(t.exponents, vec![0, 0, 0, 1, 1, 0]);
    let u = t.add_scalar(-7);
    assert_eq!(u.coefficients, vec![1, 2]);
}

#[test]
fn constructors_and_inspection() {
    let z = Poly::new();
    assert!(z.is_zero());
    assert_eq!(z.nvars(), 0);
    assert!(z.is_constant());
    let c = Poly::from_constant_with_nvars(5, 3);
    assert_eq!(c.nterms(), 1);
    assert_eq!(c.nvars(), 3);
    assert_eq!(c.exponents, vec![0, 0, 0]);
    assert!(c.is_constant());
    assert!(!c.is_one());
    assert!(Poly::from_constant_with_nvars(0, 3).is_zero());
    let one = Poly::one();
    assert!(one.is_one());
    assert!(Poly::from_constant_with_nvars(1, 4).is_one());
    let m = Poly::from_monomial(4, vec![1, 2]);
    assert_eq!(m.nvars(), 2);
    assert!(!m.is_constant());
    assert_eq!(m.exponents(0), &[1, 2]);
    assert_eq!(m.last_exponents(), &[1, 2]);
    assert!(Poly::from_monomial(0, vec![1, 2]).is_zero());
    let two = poly(1, &[(1, &[0]), (1, &[1])]);
    assert!(!two.is_constant());
    let v = two.to_monomial_view(1);
    assert_eq!(*v.coefficient, 1);
    assert_eq!(v.exponents, &[1]);
    let mut it = two.into_iter();
    let first = it.next().unwrap();
    assert_eq!((*first.coefficient, first.exponents), (1, &[0u32][..]));
    assert!(it.next().is_some());
    assert!(it.next().is_none());
    let mut w = two.duplicate();
    w.clear();
    assert!(w.is_zero());
    assert_eq!(w.nvars(), 1);
}

#[test]
fn coefficients_wrap_around() {
    let a = poly(1, &[(i64::MAX, &[1])]);
    let s = a.add(&a).unwrap();
    assert_eq!(s.coefficients, vec![-2]);
    let big = poly(1, &[(1i64 << 32, &[1])]);
    let p = big.mul(&big).unwrap();
    assert!(p.is_zero());
}
