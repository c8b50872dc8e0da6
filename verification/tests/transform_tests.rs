use reform::poly::raw::finitefield::{from_integer, FiniteField};
use reform::poly::raw::monomial::Monomial;
use reform::poly::raw::multivar::{MultivariatePolynomial, TermOrder};
use reform::poly::raw::transform::power;
use reform::poly::ring::{Field, Ring, GCD};

type Poly = MultivariatePolynomial<i64, u32>;

fn poly(nvars: usize, terms: &[(i64, &[u32])]) -> Poly {
    let mut p = Poly::with_nvars(nvars);
    for (c, e) in terms {
        p.append_monomial(*c, e).unwrap();
    }
    p
}

fn sample() -> Poly {
    // 3 x0^2 x1 + 2 x0 x2^3 - 7 x1^2 x2 + 5 + 4 x0^2 x1 x2
    poly(
        3,
        &[(3, &[2, 1, 0]), (2, &[1, 0, 3]), (-7, &[0, 2, 1]), (5, &[0, 0, 0]), (4, &[2, 1, 1])],
    )
}

#[test]
fn rearrange_there_and_back() {
    let a = sample();
    for perm in [[0usize, 1, 2], [1, 2, 0], [2, 0, 1], [2, 1, 0], [0, 2, 1], [1, 0, 2]] {
        let there = a.rearrange(&perm, false);
        assert!(there.check_consistency());
        let back = there.rearrange(&perm, true);
        assert!(back.eq(&a));
        let there = a.rearrange(&perm, true);
        let back = there.rearrange(&perm, false);
        assert!(back.eq(&a));
    }
    // variable x of the result is variable varmap[x] of the polynomial
    let r = a.rearrange(&[2, 0, 1], false);
    let expected = poly(
        3,
        &[(3, &[0, 2, 1]), (2, &[3, 1, 0]), (-7, &[1, 0, 2]), (5, &[0, 0, 0]), (4, &[1, 2, 1])],
    );
    assert!(r.eq(&expected));
    let r = a.rearrange(&[2, 0, 1], true);
    let expected = poly(
        3,
        &[(3, &[1, 0, 2]), (2, &[0, 3, 1]), (-7, &[2, 1, 0]), (5, &[0, 0, 0]), (4, &[1, 1, 2])],
    );
    assert!(r.eq(&expected));
}

#[test]
fn replace_a_variable_by_a_value() {
    let a = sample();
    // x0 = 2: 12 x1 + 4 x2^3 - 7 x1^2 x2 + 5 + 16 x1 x2
    let r = a.replace(0, 2);
    let expected = poly(
        3,
        &[(12, &[0, 1, 0]), (4, &[0, 0, 3]), (-7, &[0, 2, 1]), (5, &[0, 0, 0]), (16, &[0, 1, 1])],
    );
    assert!(r.eq(&expected));
    // terms that fall together are added, and may cancel
    let b = poly(2, &[(1, &[1, 1]), (-2, &[0, 1]), (3, &[2, 0])]);
    let r = b.replace(0, 2);
    assert!(r.eq(&poly(2, &[(12, &[0, 0])])));
    assert_eq!(power(3i64, 4u32), 81);
    assert_eq!(power(3i64, 0u32), 1);
    assert_eq!(power(0i64, 0u8), 1);
}

#[test]
fn replace_all_but_one_variable() {
    let a = sample();
    let mut cache: Vec<Vec<i64>> = vec![vec![0; 4], vec![0; 2], vec![0; 4]];
    // x0 = 2, x2 = 3, keep x1:
    // 12 x1 + 2*2*27 - 7*3 x1^2 + 5 + 4*4*3 x1 = -21 x1^2 + 60 x1 + 113
    let r = a.replace_all_except(1, &[(0, 2), (2, 3)], &mut cache);
    let expected = poly(3, &[(-21, &[0, 2, 0]), (60, &[0, 1, 0]), (113, &[0, 0, 0])]);
    assert!(r.eq(&expected));
    assert_eq!(cache[0], vec![0, 2, 4, 0]);
    assert_eq!(cache[2], vec![0, 3, 0, 27]);
    assert_eq!(cache[1], vec![0, 0]);
    // with the cache filled, and with one that is too short
    let again = a.replace_all_except(1, &[(0, 2), (2, 3)], &mut cache);
    assert!(again.eq(&expected));
    let mut none: Vec<Vec<i64>> = vec![vec![], vec![], vec![]];
    let direct = a.replace_all_except(1, &[(0, 2), (2, 3)], &mut none);
    assert!(direct.eq(&expected));
}

#[test]
fn degrees_and_leading_coefficients() {
    let a = sample();
    assert_eq!(a.degree(0), 2);
    assert_eq!(a.degree(1), 2);
    assert_eq!(a.degree(2), 3);
    assert_eq!(a.ldegree(0), 2);
    assert_eq!(a.ldegree(2), 1);
    assert_eq!(a.ldegree_max(), 2);
    assert_eq!(a.lcoeff(), 4);
    let z = Poly::with_nvars(3);
    assert_eq!(z.degree(1), 0);
    assert_eq!(z.ldegree(1), 0);
    assert_eq!(z.ldegree_max(), 0);
    assert_eq!(z.lcoeff(), 0);
    assert_eq!(z.lcoeff_varorder(&[2, 1, 0]), 0);
    assert_eq!(a.lcoeff_varorder(&[0, 1, 2]), 4);
    assert_eq!(a.lcoeff_varorder(&[2, 1, 0]), 2);
    assert_eq!(a.lcoeff_varorder(&[1, 0, 2]), -7);
    assert_eq!(a.lcoeff_varorder(&[1, 2, 0]), -7);
    // a tie for the variables that are looked at goes to the last term
    assert_eq!(a.lcoeff_varorder(&[0]), 4);
    assert_eq!(a.compare_in_order(0, 1, &[2, 1]), TermOrder::Less);
}

#[test]
fn leading_coefficient_as_polynomial() {
    let a = sample();
    // the leading terms in x0, x1 are 3 x0^2 x1 + 4 x0^2 x1 x2: 3 + 4 x2
    let l = a.lcoeff_last(2);
    assert!(l.eq(&poly(3, &[(3, &[0, 0, 0]), (4, &[0, 0, 1])])));
    let l = a.lcoeff_last_varorder(&[0, 1, 2]);
    assert!(l.eq(&poly(3, &[(3, &[0, 0, 0]), (4, &[0, 0, 1])])));
    // by x2, then x1, as a polynomial in x0: 2 x0 x2^3 gives 2 x0
    let l = a.lcoeff_last_varorder(&[2, 1, 0]);
    assert!(l.eq(&poly(3, &[(2, &[1, 0, 0])])));
    // by x1 alone, as a polynomial in x2: -7 x1^2 x2 gives -7 x2
    let l = a.lcoeff_last_varorder(&[1, 2]);
    assert!(l.eq(&poly(3, &[(-7, &[0, 0, 1])])));
    let z = Poly::with_nvars(3);
    assert!(z.lcoeff_last(2).is_zero());
    assert!(z.lcoeff_last_varorder(&[0, 1, 2]).is_zero());
}

#[test]
fn univariate_decomposition() {
    let a = sample();
    let parts = a.to_univariate_polynomial(0);
    assert_eq!(parts.len(), 3);
    assert_eq!(parts[0].1, 0);
    assert!(parts[0].0.eq(&poly(3, &[(-7, &[0, 2, 1]), (5, &[0, 0, 0])])));
    assert_eq!(parts[1].1, 1);
    assert!(parts[1].0.eq(&poly(3, &[(2, &[0, 0, 3])])));
    assert_eq!(parts[2].1, 2);
    assert!(parts[2].0.eq(&poly(3, &[(3, &[0, 1, 0]), (4, &[0, 1, 1])])));
    // powers without a term are left out
    let parts = a.to_univariate_polynomial(2);
    let powers: Vec<u32> = parts.iter().map(|p| p.1).collect();
    assert_eq!(powers, vec![0, 1, 3]);
    // expanded again and summed up, the parts give the polynomial
    let mut sum = Poly::with_nvars(3);
    for (p, d) in a.to_univariate_polynomial(1) {
        let x = Poly::from_monomial(1, vec![0, d, 0]);
        sum = sum.add(&p.mul(&x).unwrap()).unwrap();
    }
    assert!(sum.eq(&a));
    assert!(Poly::with_nvars(3).to_univariate_polynomial(0).is_empty());
}

#[test]
fn multivariate_decomposition() {
    let a = sample();
    for listed in [true, false] {
        let groups = a.to_multivariate_polynomial(&[0, 1], listed);
        // keys: (2,1), (1,0), (0,2), (0,0) in x0, x1; or the powers 0, 1, 3 of x2
        assert_eq!(groups.len(), if listed { 4 } else { 3 });
        let mut sum = Poly::with_nvars(3);
        for (i, (key, p)) in groups.iter().enumerate() {
            for (other, _) in groups.iter().skip(i + 1) {
                assert_ne!(key, other);
            }
            let x = Poly::from_monomial(1, key.clone());
            sum = sum.add(&p.mul(&x).unwrap()).unwrap();
        }
        assert!(sum.eq(&a));
    }
    let groups = a.to_multivariate_polynomial(&[0, 1], true);
    let g = groups.iter().find(|g| g.0 == vec![2, 1, 0]).unwrap();
    assert!(g.1.eq(&poly(3, &[(3, &[0, 0, 0]), (4, &[0, 0, 1])])));
    let groups = a.to_multivariate_polynomial(&[0, 1], false);
    let g = groups.iter().find(|g| g.0 == vec![0, 0, 1]).unwrap();
    assert!(g.1.eq(&poly(3, &[(-7, &[0, 2, 0]), (4, &[2, 1, 0])])));
    assert!(Poly::with_nvars(3).to_multivariate_polynomial(&[0], true).is_empty());
}

#[test]
fn content_of_the_coefficients() {
    assert_eq!(poly(1, &[(12, &[0]), (-18, &[1]), (30, &[2])]).content(), 6);
    assert_eq!(poly(1, &[(-4, &[3])]).content(), -4);
    assert_eq!(Poly::with_nvars(1).content(), 0);
    assert_eq!(<i64 as GCD>::gcd(0, -5), 5);
    assert_eq!(<i64 as GCD>::gcd(i64::MIN, 0), i64::MIN);
    assert_eq!(<i64 as GCD>::gcd(i64::MIN, 6), 2);
}

#[test]
fn consistency_and_equality() {
    let a = sample();
    assert!(a.check_consistency());
    let mut broken = a.clone();
    broken.coefficients[1] = 0;
    assert!(!broken.check_consistency());
    let mut broken = a.clone();
    broken.exponents.swap(0, 4);
    assert!(!broken.check_consistency());
    let mut broken = a.clone();
    broken.nterms = 4;
    assert!(!broken.check_consistency());
    let mut broken = a.clone();
    broken.exponents.pop();
    assert!(!broken.check_consistency());
    assert!(a.eq(&a.clone()));
    assert!(!a.eq(&a.add_scalar(1)));
    assert!(!a.eq(&Poly::with_nvars(3)));
    assert!(Poly::with_nvars(2).eq(&Poly::with_nvars(5)));
    assert!(!a.eq(&Poly::with_nvars(5)));
    assert!(a.reversed().reversed().eq(&a));
}

#[test]
fn monomials() {
    let m: Monomial<i64, u32> = Monomial::new(6, vec![2, 1]);
    let d: Monomial<i64, u32> = Monomial::new(3, vec![1, 1]);
    assert!(m.divides(&d));
    assert!(!d.divides(&m));
    let q = m.divide(&d);
    assert_eq!((q.coefficient, q.exponents.clone()), (2, vec![1, 0]));
    let p = q.multiply(&d).unwrap();
    assert_eq!((p.coefficient, p.exponents.clone()), (6, vec![2, 1]));
    assert_eq!(m.compare(&d), TermOrder::Greater);
    assert_eq!(d.compare(&m), TermOrder::Less);
    assert_eq!(m.compare(&p), TermOrder::Equal);
    let n = p.negate();
    assert_eq!(n.coefficient, -6);
    let odd: Monomial<i64, u32> = Monomial::new(7, vec![2, 1]);
    assert!(!odd.divides(&d));
    let a = sample();
    let t = a.to_monomial(4);
    assert_eq!((t.coefficient, t.exponents), (4, vec![2, 1, 1]));
}

#[test]
fn finite_field_ring() {
    type F = FiniteField<251>;
    let a = F::new(100);
    let b = F::new(200);
    assert_eq!(a.add(b).n, 49);
    assert_eq!(a.sub(b).n, 151);
    assert_eq!(a.mul(b).n, 171);
    assert_eq!(a.neg().n, 151);
    assert_eq!(a.add(a.neg()), F::zero());
    let i = a.inv().unwrap();
    assert_eq!(a.mul(i), F::one());
    assert_eq!(a.div(a), F::one());
    assert_eq!(a.rem(b), F::zero());
    assert_eq!(b.mul(a.div(b)), a);
    assert!(F::zero().inv().is_err());
    assert!(F::new(251).is_zero());
    assert_eq!(F::new(252), F::one());
    assert_eq!(from_integer::<251>(-1).n, 250);
    assert_eq!(from_integer::<251>(-251).n, 0);
    assert_eq!(from_integer::<251>(i64::MIN).n, 91);
    assert_eq!(from_integer::<251>(502).n, 0);
    // a modulus that is not prime: 2 has no inverse modulo 6
    type S = FiniteField<6>;
    assert!(S::new(2).inv().is_err());
    assert_eq!(S::new(4).div(S::new(2)), S::zero());
    assert_eq!(S::new(4).rem(S::new(2)), S::new(4));
    assert_eq!(S::new(4).div(S::new(5)), S::new(2));
    // a modulus below two gives the ring of the single element zero
    type Z = FiniteField<1>;
    assert_eq!(Z::new(7), Z::zero());
    assert_eq!(Z::one(), Z::zero());
    assert!(Z::one().is_one());
    assert_eq!(Z::zero().inv(), Ok(Z::zero()));
}

#[test]
fn polynomial_modulo_a_prime() {
    let a = poly(2, &[(7, &[0, 1]), (-1, &[1, 0]), (502, &[1, 1]), (3, &[2, 0])]);
    let f = a.to_finite_field::<251>();
    assert!(f.check_consistency());
    let n: Vec<u64> = f.coefficients.iter().map(|c| c.n).collect();
    assert_eq!(n, vec![7, 250, 3]);
    assert_eq!(f.exponents, vec![0, 1, 1, 0, 2, 0]);
    // over a field, x^2 + 3x + 2 by 2x + 2 divides exactly
    type PF = MultivariatePolynomial<FiniteField<7>, u32>;
    let num = poly(1, &[(1, &[2]), (3, &[1]), (2, &[0])]).to_finite_field::<7>();
    let den = poly(1, &[(2, &[1]), (2, &[0])]).to_finite_field::<7>();
    let (q, r): (PF, PF) = num.divmod(&den).unwrap();
    assert!(r.is_zero());
    // (x + 2) / 2 = 4x + 1
    let n: Vec<u64> = q.coefficients.iter().map(|c| c.n).collect();
    assert_eq!(n, vec![1, 4]);
    assert!(q.mul(&den).unwrap().eq(&num));
}
