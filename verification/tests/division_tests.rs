use reform::error::KernelError;
use reform::poly::raw::multivar::MultivariatePolynomial;

type Poly = MultivariatePolynomial<i64, u32>;

fn poly(nvars: usize, terms: &[(i64, &[u32])]) -> Poly {
    let mut p = Poly::with_nvars(nvars);
    for (c, e) in terms {
        p.append_monomial(*c, e).unwrap();
    }
    p
}

fn same(a: &Poly, b: &Poly) -> bool {
    a.nvars == b.nvars && a.coefficients == b.coefficients && a.exponents == b.exponents
}

fn check_round_trip(a: &Poly, b: &Poly) -> (Poly, Poly) {
    let (q, r) = a.divmod(b).unwrap();
    let back = q.mul(b).unwrap().add(&r).unwrap();
    assert!(back.coefficients == a.coefficients && back.exponents == a.exponents);
    (q, r)
}

#[test]
fn x_squared_minus_one_by_x_minus_one() {
    let a = poly(1, &[(1, &[2]), (-1, &[0])]);
    let b = poly(1, &[(1, &[1]), (-1, &[0])]);
    let (q, r) = a.divmod(&b).unwrap();
    assert!(same(&q, &poly(1, &[(1, &[1]), (1, &[0])])));
    assert!(r.is_zero());
    assert_eq!(r.nvars, 1);
    let (q, r) = a.heap_division(&b).unwrap();
    assert_eq!(q.coefficients, vec![1, 1]);
    assert_eq!(q.exponents, vec![0, 1]);
    assert!(r.is_zero());
}

#[test]
fn division_round_trips() {
    let a = poly(2, &[(3, &[2, 1]), (2, &[1, 1]), (-7, &[0, 3]), (5, &[0, 0]), (4, &[3, 0])]);
    let b = poly(2, &[(1, &[1, 0]), (2, &[0, 1])]);
    let (q, r) = check_round_trip(&a, &b);
    // by hand: 4x^3 + 3x^2y + 2xy - 7y^3 + 5 = (4x^2 - 5xy + 10y^2 + 2y)(x + 2y) - 27y^3 - 4y^2 + 5
    assert!(same(&q, &poly(2, &[(4, &[2, 0]), (-5, &[1, 1]), (10, &[0, 2]), (2, &[0, 1])])));
    assert!(same(&r, &poly(2, &[(-27, &[0, 3]), (-4, &[0, 2]), (5, &[0, 0])])));
    let c = poly(2, &[(2, &[1, 1]), (1, &[0, 0])]);
    check_round_trip(&a, &c);
    check_round_trip(&c, &a);
    check_round_trip(&a, &a);
    let product = a.mul(&b).unwrap();
    let (q, r) = check_round_trip(&product, &b);
    assert!(same(&q, &a));
    assert!(r.is_zero());
}

#[test]
fn inexact_coefficients_go_to_the_remainder() {
    // 3x^2 + 1 by 2x + 1 over the integers: 3x^2 is no multiple of 2x
    let a = poly(1, &[(3, &[2]), (1, &[0])]);
    let b = poly(1, &[(2, &[1]), (1, &[0])]);
    let (q, r) = check_round_trip(&a, &b);
    assert!(q.is_zero());
    assert!(same(&r, &a));
    // 4x^2 + 1 by 2x + 1: q = 2x - 1, r = 2
    let a = poly(1, &[(4, &[2]), (1, &[0])]);
    let (q, r) = check_round_trip(&a, &b);
    assert!(same(&q, &poly(1, &[(2, &[1]), (-1, &[0])])));
    assert!(same(&r, &poly(1, &[(2, &[0])])));
}

#[test]
fn division_by_a_single_term() {
    // 6x^2y + 4xy^2 + 3y + 5x by 2xy
    let a = poly(2, &[(6, &[2, 1]), (4, &[1, 2]), (3, &[0, 1]), (5, &[1, 0])]);
    let d = poly(2, &[(2, &[1, 1])]);
    let (q, r) = check_round_trip(&a, &d);
    assert!(same(&q, &poly(2, &[(3, &[1, 0]), (2, &[0, 1])])));
    assert!(same(&r, &poly(2, &[(3, &[0, 1]), (5, &[1, 0])])));
    // the exponents fit, the coefficient does not
    let a = poly(2, &[(7, &[2, 1])]);
    let (q, r) = check_round_trip(&a, &d);
    assert!(q.is_zero());
    assert!(same(&r, &a));
}

#[test]
fn division_by_one_of_its_own_terms() {
    let a = poly(2, &[(6, &[2, 1]), (4, &[1, 2]), (3, &[0, 1]), (5, &[1, 0]), (12, &[3, 3])]);
    for i in 0..a.nterms() {
        let d = Poly::from_monomial(a.coefficients[i], a.exponents(i).to_vec());
        let (q, r) = check_round_trip(&a, &d);
        // the term itself has gone to the quotient, as the constant one
        let e = a.exponents(i);
        for k in 0..r.nterms() {
            assert_ne!(r.exponents(k), e);
        }
        assert_eq!(q.coefficients[0], 1);
        assert!(q.exponents(0).iter().all(|x| *x == 0));
    }
}

#[test]
fn division_shortcuts() {
    let a = poly(2, &[(6, &[2, 1]), (4, &[1, 2])]);
    let b = poly(2, &[(1, &[1, 0]), (2, &[0, 1])]);
    // a zero dividend
    let z = Poly::with_nvars(2);
    let (q, r) = z.divmod(&b).unwrap();
    assert!(q.is_zero() && r.is_zero());
    // the divisor one, whatever its number of variables
    let (q, r) = a.divmod(&Poly::one()).unwrap();
    assert!(same(&q, &a));
    assert!(r.is_zero());
    assert_eq!(r.nvars, 2);
    // different numbers of variables
    let c = poly(3, &[(1, &[1, 0, 0])]);
    assert!(matches!(a.divmod(&c), Err(KernelError::DimensionMismatch)));
}

#[test]
fn division_reports_exponent_overflow() {
    // x^2 by x - y^200 over 8-bit exponents: the quotient is x + y^200, and
    // y^200 * y^200 does not fit
    let mut a: MultivariatePolynomial<i64, u8> = MultivariatePolynomial::with_nvars(2);
    a.append_monomial(1, &[2, 0]).unwrap();
    let mut b: MultivariatePolynomial<i64, u8> = MultivariatePolynomial::with_nvars(2);
    b.append_monomial(1, &[1, 0]).unwrap();
    b.append_monomial(-1, &[0, 200]).unwrap();
    assert!(matches!(a.divmod(&b), Err(KernelError::Overflow)));
}

#[test]
fn long_division_agrees_with_divmod() {
    let a = poly(2, &[(3, &[2, 1]), (2, &[1, 1]), (-7, &[0, 3]), (5, &[0, 0]), (4, &[3, 0])]);
    let b = poly(2, &[(1, &[1, 0]), (2, &[0, 1])]);
    let (q, r) = a.long_division(&b).unwrap();
    let back = q.mul(&b).unwrap().add(&r).unwrap();
    assert!(same(&back, &a));
    let (q2, r2) = a.divmod(&b).unwrap();
    assert!(same(&q, &q2));
    // long division stops at the first leading term that cannot be divided
    assert!(same(&r, &r2));
    // 4x^2 + 2x + 1 by 2x + 1: q = 2x, r = 1
    let a = poly(1, &[(4, &[2]), (2, &[1]), (1, &[0])]);
    let b = poly(1, &[(2, &[1]), (1, &[0])]);
    let (q, r) = a.long_division(&b).unwrap();
    assert!(same(&q, &poly(1, &[(2, &[1])])));
    assert!(same(&r, &poly(1, &[(1, &[0])])));
    // an inexact leading coefficient stops the division at once
    let a = poly(1, &[(3, &[2]), (4, &[1])]);
    let (q, r) = a.long_division(&b).unwrap();
    assert!(q.is_zero());
    assert!(same(&r, &a));
}

#[test]
fn synthetic_division_of_univariate_polynomials() {
    // x^3 - 2x^2 - 4 by x - 3: q = x^2 + x + 3, r = 5
    let a = poly(1, &[(1, &[3]), (-2, &[2]), (-4, &[0])]);
    let b = poly(1, &[(1, &[1]), (-3, &[0])]);
    let (q, r) = a.synthetic_division(&b);
    assert!(same(&q, &poly(1, &[(1, &[2]), (1, &[1]), (3, &[0])])));
    assert!(same(&r, &poly(1, &[(5, &[0])])));
    // in the second of three variables
    let a = poly(3, &[(2, &[0, 4, 0]), (-3, &[0, 2, 0]), (1, &[0, 1, 0]), (7, &[0, 0, 0])]);
    let b = poly(3, &[(1, &[0, 2, 0]), (1, &[0, 0, 0])]);
    let (q, r) = a.synthetic_division(&b);
    // 2y^4 - 3y^2 + y + 7 = (2y^2 - 5)(y^2 + 1) + y + 12
    assert!(same(&q, &poly(3, &[(2, &[0, 2, 0]), (-5, &[0, 0, 0])])));
    assert!(same(&r, &poly(3, &[(1, &[0, 1, 0]), (12, &[0, 0, 0])])));
    let back = q.mul(&b).unwrap().add(&r).unwrap();
    assert!(same(&back, &a));
    // where a coefficient does not divide, the term goes to the remainder
    let a = poly(1, &[(4, &[2]), (3, &[1]), (1, &[0])]);
    let b = poly(1, &[(2, &[1]), (1, &[0])]);
    let (q, r) = a.synthetic_division(&b);
    let back = q.mul(&b).unwrap().add(&r).unwrap();
    assert!(same(&back, &a));
    assert!(same(&q, &poly(1, &[(2, &[1])])));
    assert!(same(&r, &poly(1, &[(1, &[1]), (1, &[0])])));
    // a constant by a constant, and a divisor of higher degree
    let c = poly(1, &[(6, &[0])]);
    let d = poly(1, &[(3, &[0])]);
    let (q, r) = c.synthetic_division(&d);
    assert!(same(&q, &poly(1, &[(2, &[0])])));
    assert!(r.is_zero());
    let (q, r) = b.synthetic_division(&a);
    assert!(q.is_zero());
    assert!(same(&r, &b));
}

#[test]
fn division_succeeds_where_the_leading_term_dominates() {
    // the leading term xy of the divisor has the largest exponent of both
    // variables, so no product leaves the range of the exponents
    let mut a: MultivariatePolynomial<i64, u8> = MultivariatePolynomial::with_nvars(2);
    a.append_monomial(1, &[255, 255]).unwrap();
    a.append_monomial(3, &[254, 255]).unwrap();
    a.append_monomial(-2, &[200, 7]).unwrap();
    a.append_monomial(5, &[0, 0]).unwrap();
    let mut b: MultivariatePolynomial<i64, u8> = MultivariatePolynomial::with_nvars(2);
    b.append_monomial(1, &[1, 1]).unwrap();
    b.append_monomial(1, &[1, 0]).unwrap();
    b.append_monomial(-1, &[0, 1]).unwrap();
    b.append_monomial(2, &[0, 0]).unwrap();
    for (q, r) in [a.divmod(&b).unwrap(), a.long_division(&b).unwrap()] {
        let back = q.mul(&b).unwrap().add(&r).unwrap();
        assert!(back.eq(&a));
        assert!(q.check_consistency() && r.check_consistency());
    }
}
