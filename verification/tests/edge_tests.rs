use reform::error::KernelError;
use reform::poly::exponent::Exponent;
use reform::poly::raw::finitefield::FiniteField;
use reform::poly::raw::multivar::MultivariatePolynomial;
use reform::poly::ring::Ring;
use reform::structure::{
    Element, Func, IdentityStatement, IdentityStatementMode, NumOrder, Statement,
};

type Poly = MultivariatePolynomial<i64, u32>;
type Small = MultivariatePolynomial<i64, u8>;

fn poly(nvars: usize, terms: &[(i64, &[u32])]) -> Poly {
    let mut p = Poly::with_nvars(nvars);
    for (c, e) in terms {
        p.append_monomial(*c, e).unwrap();
    }
    p
}

fn small(nvars: usize, terms: &[(i64, &[u8])]) -> Small {
    let mut p = Small::with_nvars(nvars);
    for (c, e) in terms {
        p.append_monomial(*c, e).unwrap();
    }
    p
}

#[test]
fn long_division_stops_where_heap_division_goes_on() {
    // 3x^2 + 4x by 2x + 1: the leading coefficient 3 cannot be divided by 2
    let a = poly(1, &[(3, &[2]), (4, &[1])]);
    let b = poly(1, &[(2, &[1]), (1, &[0])]);
    let (q, r) = a.long_division(&b).unwrap();
    assert!(q.is_zero());
    assert!(r.eq(&a));
    // the heap division puts 3x^2 aside and divides 4x
    let (q, r) = a.heap_division(&b).unwrap();
    assert!(q.eq(&poly(1, &[(2, &[0])])));
    assert!(r.eq(&poly(1, &[(3, &[2]), (-2, &[0])])));
    let back = q.mul(&b).unwrap().add(&r).unwrap();
    assert!(back.eq(&a));
}

#[test]
fn quotient_terms_lie_above_the_remainder_of_long_division() {
    // x^3 y + x y + y by x + 1 divides down to a remainder without x
    let a = poly(2, &[(1, &[3, 1]), (1, &[1, 1]), (1, &[0, 1])]);
    let b = poly(2, &[(1, &[1, 0]), (1, &[0, 0])]);
    let (q, r) = a.long_division(&b).unwrap();
    // x^3 y + x y + y = (x^2 y - x y + 2y)(x + 1) - y
    assert!(q.eq(&poly(2, &[(1, &[2, 1]), (-1, &[1, 1]), (2, &[0, 1])])));
    assert!(r.eq(&poly(2, &[(-1, &[0, 1])])));
    let top = r.exponents(r.nterms() - 1).to_vec();
    let lead = b.exponents(b.nterms() - 1).to_vec();
    for j in 0..q.nterms() {
        let sum: Vec<u32> = q.exponents(j).iter().zip(lead.iter()).map(|(x, y)| x + y).collect();
        assert!(sum > top);
    }
}

#[test]
fn quotient_terms_stay_below_the_leading_term_of_the_dividend() {
    let a = poly(2, &[(3, &[2, 1]), (2, &[1, 1]), (-7, &[0, 3]), (5, &[0, 0]), (4, &[3, 0])]);
    let b = poly(2, &[(1, &[1, 0]), (2, &[0, 1])]);
    let (q, r) = a.heap_division(&b).unwrap();
    let top = a.exponents(a.nterms() - 1).to_vec();
    let lead = b.exponents(b.nterms() - 1).to_vec();
    for j in 0..q.nterms() {
        let sum: Vec<u32> = q.exponents(j).iter().zip(lead.iter()).map(|(x, y)| x + y).collect();
        assert!(sum <= top);
    }
    for j in 0..r.nterms() {
        assert!(r.exponents(j).to_vec() <= top);
    }
}

#[test]
fn overflow_comes_with_the_quotient_term_that_does_not_fit() {
    // x^2 by x - y^200: the first term x of the quotient fits, the second,
    // y^200, does not: y^200 * y^200 is beyond 255
    let a = small(2, &[(1, &[2, 0])]);
    let b = small(2, &[(1, &[1, 0]), (-1, &[0, 200])]);
    assert!(matches!(a.heap_division(&b), Err(KernelError::Overflow)));
    assert!(matches!(a.long_division(&b), Err(KernelError::Overflow)));
    assert!(matches!(a.divmod(&b), Err(KernelError::Overflow)));
    // x^2 by x - y^100: the quotient is x + y^100, the remainder y^200
    let b = small(2, &[(1, &[1, 0]), (-1, &[0, 100])]);
    for (q, r) in [a.heap_division(&b).unwrap(), a.long_division(&b).unwrap()] {
        assert!(q.eq(&small(2, &[(1, &[1, 0]), (1, &[0, 100])])));
        assert!(r.eq(&small(2, &[(1, &[0, 200])])));
    }
    // x by x - y^200: the only term of the quotient is one, which fits
    let a = small(2, &[(1, &[1, 0])]);
    let b = small(2, &[(1, &[1, 0]), (-1, &[0, 200])]);
    let (q, r) = a.heap_division(&b).unwrap();
    assert!(q.eq(&small(2, &[(1, &[0, 0])])));
    assert!(r.eq(&small(2, &[(1, &[0, 200])])));
}

#[test]
fn division_by_a_single_term_sends_every_term_to_one_place() {
    let a = poly(2, &[(6, &[2, 1]), (4, &[1, 2]), (3, &[0, 1]), (5, &[1, 0]), (9, &[3, 3])]);
    let d = poly(2, &[(3, &[1, 1])]);
    let (q, r) = a.divmod(&d).unwrap();
    assert_eq!(q.nterms() + r.nterms(), a.nterms());
    // 6x^2y and 9x^3y^3 can be divided by 3xy
    assert!(q.eq(&poly(2, &[(2, &[1, 0]), (3, &[2, 2])])));
    assert!(r.eq(&poly(2, &[(4, &[1, 2]), (3, &[0, 1]), (5, &[1, 0])])));
    let (q2, r2) = a.monomial_division(&d);
    assert!(q2.eq(&q) && r2.eq(&r));
}

#[test]
fn synthetic_division_stays_in_its_variable() {
    let a = poly(3, &[(2, &[0, 4, 0]), (-3, &[0, 2, 0]), (1, &[0, 1, 0]), (7, &[0, 0, 0])]);
    let b = poly(3, &[(2, &[0, 2, 0]), (1, &[0, 0, 0])]);
    let (q, r) = a.synthetic_division(&b);
    for p in [&q, &r] {
        for i in 0..p.nterms() {
            assert_eq!(p.exponents(i)[0], 0);
            assert_eq!(p.exponents(i)[2], 0);
        }
    }
    let back = q.mul(&b).unwrap().add(&r).unwrap();
    assert!(back.eq(&a));
    // no term of the quotient, times the leading term of the divisor, is
    // above the leading term of the dividend
    for j in 0..q.nterms() {
        assert!(q.exponents(j)[1] + 2 <= 4);
    }
    // constants have no variable at all
    let c = poly(3, &[(6, &[0, 0, 0])]);
    let d = poly(3, &[(4, &[0, 0, 0])]);
    let (q, r) = c.synthetic_division(&d);
    assert!(q.is_zero());
    assert!(r.eq(&c));
}

#[test]
fn the_zero_polynomial_accepts_any_variable() {
    let z = Poly::with_nvars(2);
    assert_eq!(z.degree(5), 0);
    assert_eq!(z.ldegree(7), 0);
    assert_eq!(z.lcoeff_varorder(&[9, 4]), 0);
    assert!(z.lcoeff_last(3).is_zero());
    assert!(z.lcoeff_last_varorder(&[]).is_zero());
    assert!(z.lcoeff_last_varorder(&[8]).is_zero());
    let r = z.replace(4, 3);
    assert!(r.is_zero());
    assert_eq!(r.nvars(), 2);
    assert!(z.to_univariate_polynomial(9).is_empty());
    assert!(z.to_multivariate_polynomial(&[5], true).is_empty());
    let mut cache: Vec<Vec<i64>> = vec![];
    let r = z.replace_all_except(6, &[], &mut cache);
    assert!(r.is_zero());
    assert_eq!(r.nvars(), 2);
}

#[test]
fn the_default_polynomial_is_zero() {
    let z = Poly::default();
    assert!(z.is_zero());
    assert_eq!(z.nvars(), 0);
    assert_eq!(z.nterms(), 0);
    assert!(z.check_consistency());
}

#[test]
fn an_element_divides_itself_exactly() {
    for a in [1i64, -1, 7, -12, i64::MIN, i64::MAX] {
        assert_eq!(Ring::div(a, a), 1);
        assert_eq!(Ring::rem(a, a), 0);
    }
    type F = FiniteField<251>;
    for n in [1u64, 2, 100, 250] {
        assert_eq!(F::new(n).div(F::new(n)), F::one());
        assert_eq!(F::new(n).rem(F::new(n)), F::zero());
    }
    // also where the element has no inverse
    type S = FiniteField<6>;
    for n in [2u64, 3, 4] {
        assert_eq!(S::new(n).div(S::new(n)), S::one());
        assert_eq!(S::new(n).rem(S::new(n)), S::zero());
        let q = S::new(5).div(S::new(n));
        let r = S::new(5).rem(S::new(n));
        assert_eq!(q.mul(S::new(n)).add(r), S::new(5));
    }
}

#[test]
fn exponents_as_powers_of_32_bits() {
    assert_eq!(200u8.to_u32(), Some(200));
    assert_eq!(65535u16.to_u32(), Some(65535));
    assert_eq!(u32::MAX.to_u32(), Some(u32::MAX));
    assert_eq!((u32::MAX as u64).to_u32(), Some(u32::MAX));
    assert_eq!((u32::MAX as u64 + 1).to_u32(), None);
    let mut a: MultivariatePolynomial<i64, u64> = MultivariatePolynomial::with_nvars(2);
    a.append_monomial(3, &[70_000, 1]).unwrap();
    a.append_monomial(5, &[0, 2]).unwrap();
    let parts = a.to_univariate_polynomial(0);
    let powers: Vec<u32> = parts.iter().map(|p| p.1).collect();
    assert_eq!(powers, vec![0, 70_000]);
}

#[test]
fn elements_and_statements_are_copied_in_depth() {
    let e = Element::Term(
        true,
        vec![
            Element::Num(false, true, 3, 4),
            Element::Pow(
                false,
                Box::new(Element::Var("x".to_string())),
                Box::new(Element::Num(false, false, 2, 1)),
            ),
            Element::Fn(
                true,
                Func {
                    name: "f".to_string(),
                    args: vec![
                        Element::Wildcard(
                            "a".to_string(),
                            vec![Element::NumberRange(true, 1, 2, NumOrder::GreaterEqual)],
                        ),
                        Element::VariableArgument("b".to_string()),
                        Element::SubExpr(false, vec![Element::Var("y".to_string())]),
                    ],
                },
            ),
        ],
    );
    assert_eq!(e.clone(), e);
    let id = IdentityStatement {
        mode: IdentityStatementMode::Many,
        lhs: e.clone(),
        rhs: Element::Var("z".to_string()),
    };
    assert_eq!(id.clone(), id);
    let s = Statement::Repeat(vec![
        Statement::IdentityStatement(id),
        Statement::IfElse(
            e.clone(),
            vec![Statement::Expand, Statement::Multiply(e.clone())],
            vec![Statement::Repeat(vec![Statement::Print, Statement::Jump(3)])],
        ),
        Statement::SplitArg("f".to_string()),
        Statement::Symmetrize("g".to_string()),
        Statement::Eval(e.clone(), 7),
        Statement::JumpIfChanged(2),
        Statement::PushChange,
    ]);
    assert_eq!(s.clone(), s);
    let f = Func { name: "h".to_string(), args: vec![e.clone(), e] };
    assert_eq!(f.clone(), f);
}

#[test]
fn synthetic_division_agrees_with_heap_division() {
    let pairs = [
        (poly(1, &[(4, &[2]), (3, &[1]), (1, &[0])]), poly(1, &[(2, &[1]), (1, &[0])])),
        (poly(1, &[(1, &[3]), (-2, &[2]), (-4, &[0])]), poly(1, &[(1, &[1]), (-3, &[0])])),
        (poly(1, &[(3, &[2]), (4, &[1])]), poly(1, &[(2, &[1]), (1, &[0])])),
        (
            poly(2, &[(2, &[0, 4]), (-3, &[0, 2]), (1, &[0, 1]), (7, &[0, 0])]),
            poly(2, &[(2, &[0, 2]), (1, &[0, 0])]),
        ),
        (poly(1, &[(2, &[1]), (1, &[0])]), poly(1, &[(4, &[2]), (3, &[1]), (1, &[0])])),
    ];
    for (a, b) in pairs.iter() {
        let (q, r) = a.synthetic_division(b);
        let (q2, r2) = a.heap_division(b).unwrap();
        assert!(q.eq(&q2));
        assert!(r.eq(&r2));
    }
}
