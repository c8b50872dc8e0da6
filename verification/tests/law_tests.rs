use reform::poly::raw::heap::TermHeap;
use reform::poly::raw::multivar::MultivariatePolynomial;

type Poly = MultivariatePolynomial<i64, u16>;

/// A small pseudo-random generator, so that every run sees the same values.
struct Lcg(u64);

impl Lcg {
    fn next(&mut self) -> u64 {
        self.0 = self.0.wrapping_mul(6364136223846793005).wrapping_add(1442695040888963407);
        self.0 >> 33
    }

    fn poly(&mut self, nvars: usize, terms: usize, degree: u64, size: i64) -> Poly {
        let mut p = Poly::with_nvars(nvars);
        for _ in 0..terms {
            let c = (self.next() % (2 * size as u64 + 1)) as i64 - size;
            let e: Vec<u16> = (0..nvars).map(|_| (self.next() % (degree + 1)) as u16).collect();
            p.append_monomial(c, &e).unwrap();
            assert!(p.check_consistency());
        }
        p
    }
}

#[test]
fn every_result_is_in_canonical_form() {
    let mut g = Lcg(1);
    for _ in 0..50 {
        let a = g.poly(3, 6, 3, 5);
        let b = g.poly(3, 4, 2, 5);
        assert!(a.add(&b).unwrap().check_consistency());
        assert!(a.sub(&b).unwrap().check_consistency());
        assert!(a.neg().check_consistency());
        assert!(a.mul(&b).unwrap().check_consistency());
        assert!(a.mul_scalar(3).check_consistency());
        assert!(a.add_scalar(-2).check_consistency());
        assert!(a.replace(1, 2).check_consistency());
        assert!(a.rearrange(&[2, 0, 1], false).check_consistency());
        if !b.is_zero() {
            let (q, r) = a.divmod(&b).unwrap();
            assert!(q.check_consistency());
            assert!(r.check_consistency());
        }
    }
}

#[test]
fn ring_laws_on_many_polynomials() {
    let mut g = Lcg(2);
    for _ in 0..50 {
        let a = g.poly(2, 5, 4, 9);
        let b = g.poly(2, 5, 4, 9);
        let c = g.poly(2, 3, 4, 9);
        assert!(a.add(&b).unwrap().eq(&b.add(&a).unwrap()));
        assert!(a.add(&b).unwrap().add(&c).unwrap().eq(&a.add(&b.add(&c).unwrap()).unwrap()));
        assert!(a.mul(&b).unwrap().eq(&b.mul(&a).unwrap()));
        assert!(a.add(&a.neg()).unwrap().is_zero());
        // the product distributes over the sum
        let left = a.mul(&b.add(&c).unwrap()).unwrap();
        let right = a.mul(&b).unwrap().add(&a.mul(&c).unwrap()).unwrap();
        assert!(left.eq(&right));
    }
}

#[test]
fn division_round_trips_on_many_polynomials() {
    let mut g = Lcg(3);
    let mut exact = 0;
    for round in 0..200 {
        let nvars = 1 + round % 3;
        let a = g.poly(nvars, 7, 4, 6);
        let mut b = g.poly(nvars, 3, 2, 2);
        if b.is_zero() {
            b = Poly::from_constant_with_nvars(1, nvars);
        }
        for dividend in [a.duplicate(), a.mul(&b).unwrap()] {
            let (q, r) = dividend.divmod(&b).unwrap();
            let back = q.mul(&b).unwrap().add(&r).unwrap();
            assert!(back.coefficients == dividend.coefficients);
            assert!(back.exponents == dividend.exponents);
            if r.is_zero() {
                exact += 1;
            }
            if b.nterms() > 1 {
                let (q2, r2) = dividend.heap_division(&b).unwrap();
                assert!(q2.eq(&q) && r2.eq(&r));
                // no term of the remainder can be divided by the leading term
                let lead = b.to_monomial(b.nterms() - 1);
                for i in 0..r.nterms() {
                    assert!(!r.to_monomial(i).divides(&lead));
                }
            }
        }
    }
    assert!(exact > 0);
}

#[test]
fn heap_division_of_zero() {
    let z = Poly::with_nvars(2);
    let mut b = Poly::with_nvars(2);
    b.append_monomial(1, &[1, 0]).unwrap();
    b.append_monomial(1, &[0, 1]).unwrap();
    let (q, r) = z.heap_division(&b).unwrap();
    assert!(q.is_zero() && r.is_zero());
}

#[test]
fn queue_hands_out_the_largest_term_first() {
    let mut h: TermHeap<i64, u16> = TermHeap::new(2);
    let terms: [(i64, [u16; 2]); 7] =
        [(1, [0, 3]), (2, [2, 0]), (3, [1, 1]), (4, [2, 0]), (5, [0, 0]), (6, [3, 1]), (7, [1, 5])];
    for (k, (c, e)) in terms.iter().enumerate() {
        h.push(*c, e, (k, 0));
        assert_eq!(h.len(), k + 1);
    }
    let mut seen = vec![];
    while h.len() > 0 {
        let (m, origin) = h.pop();
        assert_eq!(terms[origin.0].0, m.coefficient);
        seen.push(m.exponents.clone());
    }
    assert_eq!(
        seen,
        vec![vec![3, 1], vec![2, 0], vec![2, 0], vec![1, 5], vec![1, 1], vec![0, 3], vec![0, 0]]
    );
}
