//! Linear systems over Zp: what it means to solve one, and the row
//! operations that keep its solutions.

use vstd::prelude::*;
use vstd::arithmetic::div_mod::{
    lemma_fundamental_div_mod, lemma_mod_bound, lemma_mod_multiples_basic, lemma_small_mod,
};
use crate::poly::raw::zp::UnsignedInteger;

verus! {

/// The numbers that the entries of `r` store.
pub open spec fn row_values<T: UnsignedInteger>(r: Seq<T>) -> Seq<nat> {
    Seq::new(r.len(), |j: int| r[j].value())
}

/// The numbers that the entries of the rows of `m` store.
pub open spec fn matrix_values<T: UnsignedInteger>(m: Seq<Vec<T>>) -> Seq<Seq<nat>> {
    Seq::new(m.len(), |i: int| row_values(m[i]@))
}

/// The sum of the products of the first `n` entries of `row` and `x`.
pub open spec fn dot(row: Seq<nat>, x: Seq<nat>, n: nat) -> nat
    decreases n,
{
    if n == 0 {
        0
    } else {
        dot(row, x, (n - 1) as nat) + row[n - 1] * x[n - 1]
    }
}

/// The product of `row` and `x` is `c * t` modulo `p`.
pub open spec fn row_holds(row: Seq<nat>, c: nat, x: Seq<nat>, t: nat, p: nat) -> bool {
    dot(row, x, row.len()) % p == (c * t) % p
}

/// `m * x == t * c` modulo `p`. With `t == 1` that is the system with the
/// right-hand side `c`, with `t == 0` the homogeneous system.
pub open spec fn system_holds(
    m: Seq<Seq<nat>>,
    c: Seq<nat>,
    x: Seq<nat>,
    t: nat,
    p: nat,
) -> bool {
    forall|i: int| 0 <= i < m.len() ==> row_holds(#[trigger] m[i], c[i], x, t, p)
}

/// `x` solves `m * x == c` modulo `p`.
pub open spec fn is_solution(m: Seq<Seq<nat>>, c: Seq<nat>, x: Seq<nat>, p: nat) -> bool {
    &&& x.len() == m.len()
    &&& forall|i: int| 0 <= i < m.len() ==> dot(#[trigger] m[i], x, m[i].len()) % p == c[i] % p
}

/// `v` is a vector of Zp, not zero, with `m * v == 0` modulo `p`.
pub open spec fn kernel_witness(m: Seq<Seq<nat>>, v: Seq<nat>, p: nat) -> bool {
    &&& v.len() == m.len()
    &&& forall|j: int| 0 <= j < v.len() ==> v[j] < p
    &&& exists|j: int| 0 <= j < v.len() && v[j] != 0
    &&& forall|i: int| 0 <= i < m.len() ==> dot(#[trigger] m[i], v, m[i].len()) % p == 0
}

/// The matrix `m` is singular modulo `p`: some vector that is not zero is
/// sent to zero.
pub open spec fn is_singular(m: Seq<Seq<nat>>, p: nat) -> bool {
    exists|v: Seq<nat>| kernel_witness(m, v, p)
}

/// `m` has `n` rows of `n` entries, and `c` has `n` entries.
pub open spec fn is_square(m: Seq<Seq<nat>>, c: Seq<nat>) -> bool {
    &&& c.len() == m.len()
    &&& forall|i: int| 0 <= i < m.len() ==> (#[trigger] m[i]).len() == m.len()
}

/// All entries of `m` and `c` are below `p`.
pub open spec fn is_reduced(m: Seq<Seq<nat>>, c: Seq<nat>, p: nat) -> bool {
    &&& forall|i: int, j: int| 0 <= i < m.len() && 0 <= j < m[i].len() ==> (#[trigger] m[i][j]) < p
    &&& forall|i: int| 0 <= i < c.len() ==> (#[trigger] c[i]) < p
}

/// The first `k` columns of `m` are those of the unit matrix.
pub open spec fn unit_columns(m: Seq<Seq<nat>>, k: nat) -> bool {
    forall|i: int, j: int|
        0 <= i < m.len() && 0 <= j < k ==> (#[trigger] m[i][j]) == (if i == j {
            1nat
        } else {
            0nat
        })
}

/// The two systems have the same solutions, for the right-hand sides as
/// they are and for the right-hand side zero.
pub open spec fn equivalent(
    m1: Seq<Seq<nat>>,
    c1: Seq<nat>,
    m2: Seq<Seq<nat>>,
    c2: Seq<nat>,
    p: nat,
) -> bool {
    forall|x: Seq<nat>, t: nat| #[trigger]
        system_holds(m1, c1, x, t, p) == system_holds(m2, c2, x, t, p)
}

/// `a` and `b` leave the same remainder modulo `p`.
pub open spec fn congruent(a: int, b: int, p: int) -> bool {
    (a - b) % p == 0
}

pub proof fn lemma_congruent_multiple(a: int, b: int, p: int) -> (k: int)
    requires
        0 < p,
        congruent(a, b, p),
    ensures
        a - b == p * k,
{
    lemma_fundamental_div_mod(a - b, p);
    (a - b) / p
}

pub proof fn lemma_multiple_congruent(a: int, b: int, k: int, p: int)
    requires
        0 < p,
        a - b == p * k,
    ensures
        congruent(a, b, p),
{
    lemma_mod_multiples_basic(k, p);
    assert(k * p == p * k) by (nonlinear_arith);
}

/// Numbers with the same remainder are congruent, and the other way round.
pub proof fn lemma_congruent_iff(a: int, b: int, p: int)
    requires
        0 < p,
    ensures
        congruent(a, b, p) <==> a % p == b % p,
{
    vstd::arithmetic::div_mod::lemma_mod_equivalence(a, b, p);
}

pub proof fn lemma_congruent_transitive(a: int, b: int, c: int, p: int)
    requires
        0 < p,
        congruent(a, b, p),
        congruent(b, c, p),
    ensures
        congruent(a, c, p),
{
    let k1 = lemma_congruent_multiple(a, b, p);
    let k2 = lemma_congruent_multiple(b, c, p);
    assert(a - c == p * (k1 + k2)) by (nonlinear_arith)
        requires
            a - b == p * k1,
            b - c == p * k2,
    {}
    lemma_multiple_congruent(a, c, k1 + k2, p);
}

pub proof fn lemma_congruent_symmetric(a: int, b: int, p: int)
    requires
        0 < p,
        congruent(a, b, p),
    ensures
        congruent(b, a, p),
{
    let k = lemma_congruent_multiple(a, b, p);
    assert(b - a == p * (-k)) by (nonlinear_arith)
        requires
            a - b == p * k,
    {}
    lemma_multiple_congruent(b, a, -k, p);
}

/// `s1 * a1 + s2 * a2` is congruent to `s1 * b1 + s2 * b2` where `a1` is to
/// `b1` and `a2` to `b2`.
pub proof fn lemma_congruent_combination(
    a1: int,
    b1: int,
    a2: int,
    b2: int,
    s1: int,
    s2: int,
    p: int,
)
    requires
        0 < p,
        congruent(a1, b1, p),
        congruent(a2, b2, p),
    ensures
        congruent(s1 * a1 + s2 * a2, s1 * b1 + s2 * b2, p),
{
    let k1 = lemma_congruent_multiple(a1, b1, p);
    let k2 = lemma_congruent_multiple(a2, b2, p);
    assert((s1 * a1 + s2 * a2) - (s1 * b1 + s2 * b2) == p * (s1 * k1 + s2 * k2))
        by (nonlinear_arith)
        requires
            a1 - b1 == p * k1,
            a2 - b2 == p * k2,
    {}
    lemma_multiple_congruent(s1 * a1 + s2 * a2, s1 * b1 + s2 * b2, s1 * k1 + s2 * k2, p);
}

/// Where every entry of `r3` is congruent to `s1` times that of `r1` plus
/// `s2` times that of `r2`, the product of `r3` with `x` is congruent to
/// `s1` times that of `r1` plus `s2` times that of `r2`.
pub proof fn lemma_dot_combination(
    r1: Seq<nat>,
    r2: Seq<nat>,
    r3: Seq<nat>,
    s1: int,
    s2: int,
    x: Seq<nat>,
    n: nat,
    p: int,
)
    requires
        0 < p,
        forall|j: int| 0 <= j < n ==> congruent(#[trigger] r3[j] as int, s1 * r1[j] + s2 * r2[j], p),
    ensures
        congruent(dot(r3, x, n) as int, s1 * dot(r1, x, n) + s2 * dot(r2, x, n), p),
    decreases n,
{
    if n == 0 {
        assert(s1 * 0 + s2 * 0 == 0) by (nonlinear_arith);
        lemma_multiple_congruent(0, 0, 0, p);
        assert(p * 0 == 0);
    } else {
        let m = (n - 1) as nat;
        lemma_dot_combination(r1, r2, r3, s1, s2, x, m, p);
        let k1 = lemma_congruent_multiple(dot(r3, x, m) as int, s1 * dot(r1, x, m) + s2 * dot(r2, x, m), p);
        assert(congruent(r3[m as int] as int, s1 * r1[m as int] + s2 * r2[m as int], p));
        let k2 = lemma_congruent_multiple(r3[m as int] as int, s1 * r1[m as int] + s2 * r2[m as int], p);
        let xm = x[m as int] as int;
        let d1 = dot(r1, x, m) as int;
        let d2 = dot(r2, x, m) as int;
        let d3 = dot(r3, x, m) as int;
        let e1 = r1[m as int] as int;
        let e2 = r2[m as int] as int;
        let e3 = r3[m as int] as int;
        assert((e3 - (s1 * e1 + s2 * e2)) * xm == e3 * xm - s1 * (e1 * xm) - s2 * (e2 * xm))
            by (nonlinear_arith);
        assert((p * k2) * xm == p * (k2 * xm)) by (nonlinear_arith);
        assert(s1 * (d1 + e1 * xm) == s1 * d1 + s1 * (e1 * xm)) by (nonlinear_arith);
        assert(s2 * (d2 + e2 * xm) == s2 * d2 + s2 * (e2 * xm)) by (nonlinear_arith);
        assert(p * (k1 + k2 * xm) == p * k1 + p * (k2 * xm)) by (nonlinear_arith);
        assert((d3 + e3 * xm) - (s1 * (d1 + e1 * xm) + s2 * (d2 + e2 * xm)) == p * (k1 + k2 * xm));
        lemma_multiple_congruent(
            d3 + e3 * xm,
            s1 * (d1 + e1 * xm) + s2 * (d2 + e2 * xm),
            k1 + k2 * xm,
            p,
        );
    }
}

/// A row that is a combination of two rows that hold, with the same
/// combination of their right-hand sides, holds.
pub proof fn lemma_row_combination(
    r1: Seq<nat>,
    c1: nat,
    r2: Seq<nat>,
    c2: nat,
    r3: Seq<nat>,
    c3: nat,
    s1: int,
    s2: int,
    x: Seq<nat>,
    t: nat,
    p: nat,
)
    requires
        0 < p,
        r1.len() == r3.len(),
        r2.len() == r3.len(),
        forall|j: int|
            0 <= j < r3.len() ==> congruent(#[trigger] r3[j] as int, s1 * r1[j] + s2 * r2[j], p as int),
        congruent(c3 as int, s1 * c1 + s2 * c2, p as int),
        row_holds(r1, c1, x, t, p),
        row_holds(r2, c2, x, t, p),
    ensures
        row_holds(r3, c3, x, t, p),
{
    let n = r3.len();
    let pi = p as int;
    let d1 = dot(r1, x, n) as int;
    let d2 = dot(r2, x, n) as int;
    let d3 = dot(r3, x, n) as int;
    let t1 = (c1 * t) as int;
    let t2 = (c2 * t) as int;
    let t3 = (c3 * t) as int;
    lemma_dot_combination(r1, r2, r3, s1, s2, x, n, pi);
    lemma_congruent_iff(d1, t1, pi);
    lemma_congruent_iff(d2, t2, pi);
    lemma_congruent_combination(d1, t1, d2, t2, s1, s2, pi);
    lemma_congruent_transitive(d3, s1 * d1 + s2 * d2, s1 * t1 + s2 * t2, pi);
    // c3 * t is congruent to (s1 * c1 + s2 * c2) * t
    let k = lemma_congruent_multiple(c3 as int, s1 * c1 + s2 * c2, pi);
    assert((c3 - (s1 * c1 + s2 * c2)) * t == c3 * t - s1 * (c1 * t) - s2 * (c2 * t))
        by (nonlinear_arith);
    assert((pi * k) * t == pi * (k * t)) by (nonlinear_arith);
    assert(t3 - (s1 * t1 + s2 * t2) == pi * (k * t));
    lemma_multiple_congruent(t3, s1 * t1 + s2 * t2, k * t, pi);
    lemma_congruent_symmetric(t3, s1 * t1 + s2 * t2, pi);
    lemma_congruent_transitive(d3, s1 * t1 + s2 * t2, t3, pi);
    lemma_congruent_iff(d3, t3, pi);
}

/// Where all products of entries but those at `i0` and `k0` are zero, the
/// product of `row` and `x` is the sum of these two.
pub proof fn lemma_dot_support(row: Seq<nat>, x: Seq<nat>, n: nat, i0: int, k0: int)
    requires
        i0 != k0,
        forall|j: int| 0 <= j < n && j != i0 && j != k0 ==> #[trigger] row[j] * x[j] == 0,
    ensures
        dot(row, x, n) == (if 0 <= i0 < n {
            row[i0] * x[i0]
        } else {
            0
        }) + (if 0 <= k0 < n {
            row[k0] * x[k0]
        } else {
            0
        }),
    decreases n,
{
    if n > 0 {
        lemma_dot_support(row, x, (n - 1) as nat, i0, k0);
        let j = n - 1;
        if j != i0 && j != k0 {
            assert(row[j] * x[j] == 0);
        }
    }
}

/// Replacing row `i` by a combination of itself and row `k`, from which the
/// old row `i` can be had back as a combination as well, keeps the solutions.
pub proof fn lemma_replace_row(
    m: Seq<Seq<nat>>,
    c: Seq<nat>,
    i: int,
    k: int,
    nr: Seq<nat>,
    nc: nat,
    s1: int,
    s2: int,
    z1: int,
    z2: int,
    p: nat,
)
    requires
        0 < p,
        is_square(m, c),
        0 <= i < m.len(),
        0 <= k < m.len(),
        nr.len() == m.len(),
        forall|j: int|
            0 <= j < m.len() ==> congruent(#[trigger] nr[j] as int, s1 * m[i][j] + s2 * m[k][j], p as int),
        congruent(nc as int, s1 * c[i] + s2 * c[k], p as int),
        forall|j: int|
            0 <= j < m.len() ==> congruent(
                #[trigger] m[i][j] as int,
                z1 * nr[j] + z2 * m.update(i, nr)[k][j],
                p as int,
            ),
        congruent(c[i] as int, z1 * nc + z2 * c.update(i, nc)[k], p as int),
    ensures
        equivalent(m, c, m.update(i, nr), c.update(i, nc), p),
{
    let m2 = m.update(i, nr);
    let c2 = c.update(i, nc);
    assert forall|x: Seq<nat>, t: nat| #[trigger]
        system_holds(m, c, x, t, p) == system_holds(m2, c2, x, t, p) by {
        if system_holds(m, c, x, t, p) {
            assert forall|j: int| 0 <= j < m2.len() implies row_holds(
                #[trigger] m2[j],
                c2[j],
                x,
                t,
                p,
            ) by {
                assert(row_holds(m[j], c[j], x, t, p));
                if j == i {
                    assert(row_holds(m[i], c[i], x, t, p));
                    assert(row_holds(m[k], c[k], x, t, p));
                    lemma_row_combination(m[i], c[i], m[k], c[k], nr, nc, s1, s2, x, t, p);
                }
            }
        }
        if system_holds(m2, c2, x, t, p) {
            assert forall|j: int| 0 <= j < m.len() implies row_holds(
                #[trigger] m[j],
                c[j],
                x,
                t,
                p,
            ) by {
                assert(row_holds(m2[j], c2[j], x, t, p));
                if j == i {
                    assert(row_holds(m2[i], c2[i], x, t, p));
                    assert(row_holds(m2[k], c2[k], x, t, p));
                    lemma_row_combination(nr, nc, m2[k], c2[k], m[i], c[i], z1, z2, x, t, p);
                }
            }
        }
    }
}

/// Swapping two rows keeps the solutions.
pub proof fn lemma_swap_rows(m: Seq<Seq<nat>>, c: Seq<nat>, i: int, j: int, p: nat)
    requires
        is_square(m, c),
        0 <= i < m.len(),
        0 <= j < m.len(),
    ensures
        equivalent(m, c, m.update(i, m[j]).update(j, m[i]), c.update(i, c[j]).update(j, c[i]), p),
{
    let m2 = m.update(i, m[j]).update(j, m[i]);
    let c2 = c.update(i, c[j]).update(j, c[i]);
    assert forall|x: Seq<nat>, t: nat| #[trigger]
        system_holds(m, c, x, t, p) == system_holds(m2, c2, x, t, p) by {
        if system_holds(m, c, x, t, p) {
            assert forall|r: int| 0 <= r < m2.len() implies row_holds(
                #[trigger] m2[r],
                c2[r],
                x,
                t,
                p,
            ) by {
                assert(row_holds(m[i], c[i], x, t, p));
                assert(row_holds(m[j], c[j], x, t, p));
                assert(row_holds(m[r], c[r], x, t, p));
            }
        }
        if system_holds(m2, c2, x, t, p) {
            assert forall|r: int| 0 <= r < m.len() implies row_holds(
                #[trigger] m[r],
                c[r],
                x,
                t,
                p,
            ) by {
                assert(row_holds(m2[i], c2[i], x, t, p));
                assert(row_holds(m2[j], c2[j], x, t, p));
                assert(row_holds(m2[r], c2[r], x, t, p));
            }
        }
    }
}

pub proof fn lemma_equivalent_transitive(
    m1: Seq<Seq<nat>>,
    c1: Seq<nat>,
    m2: Seq<Seq<nat>>,
    c2: Seq<nat>,
    m3: Seq<Seq<nat>>,
    c3: Seq<nat>,
    p: nat,
)
    requires
        equivalent(m1, c1, m2, c2, p),
        equivalent(m2, c2, m3, c3, p),
    ensures
        equivalent(m1, c1, m3, c3, p),
{
    assert forall|x: Seq<nat>, t: nat| #[trigger]
        system_holds(m1, c1, x, t, p) == system_holds(m3, c3, x, t, p) by {
        assert(system_holds(m1, c1, x, t, p) == system_holds(m2, c2, x, t, p));
        assert(system_holds(m2, c2, x, t, p) == system_holds(m3, c3, x, t, p));
    }
}

pub proof fn lemma_equivalent_symmetric(
    m1: Seq<Seq<nat>>,
    c1: Seq<nat>,
    m2: Seq<Seq<nat>>,
    c2: Seq<nat>,
    p: nat,
)
    requires
        equivalent(m1, c1, m2, c2, p),
    ensures
        equivalent(m2, c2, m1, c1, p),
{
    assert forall|x: Seq<nat>, t: nat| #[trigger]
        system_holds(m2, c2, x, t, p) == system_holds(m1, c1, x, t, p) by {
        assert(system_holds(m1, c1, x, t, p) == system_holds(m2, c2, x, t, p));
    }
}

pub proof fn lemma_equivalent_reflexive(m: Seq<Seq<nat>>, c: Seq<nat>, p: nat)
    ensures
        equivalent(m, c, m, c, p),
{
}

/// With the right-hand side taken zero times, a system holds of the vectors
/// that the matrix sends to zero.
pub proof fn lemma_homogeneous(m: Seq<Seq<nat>>, c: Seq<nat>, v: Seq<nat>, p: nat)
    requires
        0 < p,
    ensures
        system_holds(m, c, v, 0, p) <==> (forall|i: int|
            0 <= i < m.len() ==> dot(#[trigger] m[i], v, m[i].len()) % p == 0),
{
    lemma_small_mod(0, p);
    if system_holds(m, c, v, 0, p) {
        assert forall|i: int| 0 <= i < m.len() implies dot(#[trigger] m[i], v, m[i].len()) % p
            == 0 by {
            assert(row_holds(m[i], c[i], v, 0, p));
            assert(c[i] * 0 == 0);
        }
    }
    if forall|i: int| 0 <= i < m.len() ==> dot(#[trigger] m[i], v, m[i].len()) % p == 0 {
        assert forall|i: int| 0 <= i < m.len() implies row_holds(#[trigger] m[i], c[i], v, 0, p) by {
            assert(c[i] * 0 == 0);
        }
    }
}

/// With the right-hand side taken once, a system holds of its solutions.
pub proof fn lemma_inhomogeneous(m: Seq<Seq<nat>>, c: Seq<nat>, x: Seq<nat>, p: nat)
    requires
        x.len() == m.len(),
    ensures
        system_holds(m, c, x, 1, p) <==> is_solution(m, c, x, p),
{
    if system_holds(m, c, x, 1, p) {
        assert forall|i: int| 0 <= i < m.len() implies dot(#[trigger] m[i], x, m[i].len()) % p
            == c[i] % p by {
            assert(row_holds(m[i], c[i], x, 1, p));
            assert(c[i] * 1 == c[i]);
        }
    }
    if is_solution(m, c, x, p) {
        assert forall|i: int| 0 <= i < m.len() implies row_holds(#[trigger] m[i], c[i], x, 1, p) by {
            assert(c[i] * 1 == c[i]);
        }
    }
}

/// A matrix that has the solutions of a singular matrix is singular.
pub proof fn lemma_singular_transfer(
    m1: Seq<Seq<nat>>,
    c1: Seq<nat>,
    m2: Seq<Seq<nat>>,
    c2: Seq<nat>,
    p: nat,
)
    requires
        0 < p,
        m1.len() == m2.len(),
        equivalent(m1, c1, m2, c2, p),
        is_singular(m2, p),
    ensures
        is_singular(m1, p),
{
    let v = choose|v: Seq<nat>| kernel_witness(m2, v, p);
    lemma_homogeneous(m2, c2, v, p);
    lemma_homogeneous(m1, c1, v, p);
    assert(system_holds(m1, c1, v, 0, p) == system_holds(m2, c2, v, 0, p));
    assert(kernel_witness(m1, v, p));
}

/// The unit matrix has the right-hand side as its solution, and sends no
/// vector of Zp to zero but zero.
pub proof fn lemma_unit_matrix(m: Seq<Seq<nat>>, c: Seq<nat>, p: nat)
    requires
        1 < p,
        is_square(m, c),
        is_reduced(m, c, p),
        unit_columns(m, m.len()),
    ensures
        is_solution(m, c, c, p),
        !is_singular(m, p),
{
    let n = m.len();
    assert forall|i: int| 0 <= i < n implies dot(#[trigger] m[i], c, m[i].len()) % p == c[i] % p by {
        assert forall|j: int| 0 <= j < n && j != i && j != -1 implies #[trigger] m[i][j] * c[j]
            == 0 by {
            assert(m[i][j] == 0);
            assert(0 * c[j] == 0);
        }
        lemma_dot_support(m[i], c, n, i, -1);
        assert(m[i][i] == 1);
        assert(1 * c[i] == c[i]);
    }
    if is_singular(m, p) {
        let v = choose|v: Seq<nat>| kernel_witness(m, v, p);
        assert forall|i: int| 0 <= i < n implies v[i] == 0 by {
            assert forall|j: int| 0 <= j < n && j != i && j != -1 implies #[trigger] m[i][j] * v[j]
                == 0 by {
                assert(m[i][j] == 0);
                assert(0 * v[j] == 0);
            }
            lemma_dot_support(m[i], v, n, i, -1);
            assert(m[i][i] == 1);
            assert(1 * v[i] == v[i]);
            assert(dot(m[i], v, m[i].len()) % p == 0);
            lemma_small_mod(v[i], p);
        }
    }
}

/// A matrix whose first `k` columns are those of the unit matrix, and whose
/// column `k` is zero from row `k` on, is singular.
pub proof fn lemma_no_pivot(m: Seq<Seq<nat>>, c: Seq<nat>, k: int, p: nat)
    requires
        1 < p,
        is_square(m, c),
        is_reduced(m, c, p),
        0 <= k < m.len(),
        unit_columns(m, k as nat),
        forall|i: int| k <= i < m.len() ==> (#[trigger] m[i])[k] == 0,
    ensures
        is_singular(m, p),
{
    let n = m.len();
    let v = Seq::new(
        n,
        |j: int|
            if j < k {
                ((p - m[j][k]) % (p as int)) as nat
            } else if j == k {
                1nat
            } else {
                0nat
            },
    );
    assert forall|j: int| 0 <= j < v.len() implies v[j] < p by {
        if j < k {
            lemma_mod_bound(p - m[j][k], p as int);
        }
    }
    assert(v[k] != 0);
    assert forall|i: int| 0 <= i < n implies dot(#[trigger] m[i], v, m[i].len()) % p == 0 by {
        let i0 = if i < k { i } else { -1 };
        assert forall|j: int| 0 <= j < n && j != i0 && j != k implies #[trigger] m[i][j] * v[j]
            == 0 by {
            if j < k {
                assert(m[i][j] == 0);
                assert(0 * v[j] == 0);
            } else {
                assert(v[j] == 0);
                assert(m[i][j] * 0 == 0);
            }
        }
        lemma_dot_support(m[i], v, n, i0, k);
        assert(m[i][k] * 1 == m[i][k]);
        if i < k {
            assert(m[i][i] == 1);
            assert(1 * v[i] == v[i]);
            let x = m[i][k];
            assert(x < p);
            if x == 0 {
                vstd::arithmetic::div_mod::lemma_mod_self_0(p as int);
                lemma_small_mod(0, p);
            } else {
                lemma_small_mod((p - x) as nat, p);
                vstd::arithmetic::div_mod::lemma_mod_self_0(p as int);
            }
        } else {
            assert(m[i][k] == 0);
            lemma_small_mod(0, p);
        }
    }
    assert(kernel_witness(m, v, p));
}

/// The product of two vectors does not depend on their order.
pub proof fn lemma_dot_commutative(x: Seq<nat>, y: Seq<nat>, n: nat)
    ensures
        dot(x, y, n) == dot(y, x, n),
    decreases n,
{
    if n > 0 {
        lemma_dot_commutative(x, y, (n - 1) as nat);
        assert(x[n - 1] * y[n - 1] == y[n - 1] * x[n - 1]) by (nonlinear_arith);
    }
}

/// A system whose matrix is not singular has at most one solution in Zp.
pub proof fn lemma_solution_unique(
    m: Seq<Seq<nat>>,
    c: Seq<nat>,
    x: Seq<nat>,
    y: Seq<nat>,
    p: nat,
)
    requires
        1 < p,
        is_square(m, c),
        !is_singular(m, p),
        is_solution(m, c, x, p),
        is_solution(m, c, y, p),
        forall|j: int| 0 <= j < x.len() ==> x[j] < p,
        forall|j: int| 0 <= j < y.len() ==> y[j] < p,
    ensures
        x == y,
{
    let n = m.len();
    let pi = p as int;
    // the difference of the two solutions, in Zp
    let d = Seq::new(n, |j: int| ((x[j] - y[j]) % pi) as nat);
    assert forall|j: int| 0 <= j < n implies d[j] < p && congruent(
        #[trigger] d[j] as int,
        1int * x[j] + (-1int) * y[j],
        pi,
    ) by {
        lemma_mod_bound(x[j] - y[j], pi);
        lemma_fundamental_div_mod(x[j] - y[j], pi);
        let k = (x[j] - y[j]) / pi;
        assert(pi * (-k) == -(pi * k)) by (nonlinear_arith);
        lemma_multiple_congruent(d[j] as int, 1int * x[j] + (-1int) * y[j], -k, pi);
    }
    assert forall|i: int| 0 <= i < n implies dot(#[trigger] m[i], d, m[i].len()) % p == 0 by {
        let row = m[i];
        lemma_dot_combination(x, y, d, 1, -1, row, n, pi);
        lemma_dot_commutative(row, d, n);
        lemma_dot_commutative(row, x, n);
        lemma_dot_commutative(row, y, n);
        let dx = dot(row, x, n) as int;
        let dy = dot(row, y, n) as int;
        let dd = dot(row, d, n) as int;
        lemma_congruent_iff(dx, c[i] as int, pi);
        lemma_congruent_iff(dy, c[i] as int, pi);
        lemma_congruent_combination(dx, c[i] as int, dy, c[i] as int, 1, -1, pi);
        lemma_congruent_transitive(dd, 1 * dx + (-1) * dy, 1 * c[i] + (-1) * c[i], pi);
        lemma_congruent_iff(dd, 0, pi);
        lemma_small_mod(0, p);
    }
    if exists|j: int| 0 <= j < n && d[j] != 0 {
        assert(kernel_witness(m, d, p));
    }
    assert forall|j: int| 0 <= j < n implies x[j] == y[j] by {
        assert(d[j] == 0);
        lemma_congruent_iff(x[j] as int, y[j] as int, pi);
        lemma_small_mod(x[j], p);
        lemma_small_mod(y[j], p);
    }
    assert(x =~= y);
}

} // verus!
