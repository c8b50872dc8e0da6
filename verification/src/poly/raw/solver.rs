//! The row operations of Gaussian elimination over Zp.

use vstd::prelude::*;
use vstd::arithmetic::div_mod::{lemma_fundamental_div_mod, lemma_mod_bound, lemma_small_mod};
use crate::poly::raw::linear::{
    congruent, equivalent, is_reduced, is_square, lemma_equivalent_reflexive,
    lemma_equivalent_transitive, lemma_multiple_congruent, lemma_replace_row, matrix_values,
    row_values, unit_columns,
};
use crate::poly::raw::zp::{is_prime, lemma_prime_field_inverse, mul_mod, sub_mod, UnsignedInteger};

verus! {

/// The matrix and the vector are those of a system of `n` equations over Zp.
pub open spec fn is_system<T: UnsignedInteger>(m: Seq<Vec<T>>, c: Seq<T>, n: nat, p: nat) -> bool {
    &&& m.len() == n
    &&& is_square(matrix_values(m), row_values(c))
    &&& is_reduced(matrix_values(m), row_values(c), p)
}

/// An entry times `s`, and how to have it back with the inverse `piv` of `s`.
proof fn lemma_scaled_entry(x: nat, s: nat, piv: nat, p: nat)
    requires
        0 < p,
        (piv * s) % p == 1,
    ensures
        congruent(mul_mod(x, s, p) as int, (s as int) * x + 0int * x, p as int),
        congruent(
            x as int,
            (piv as int) * mul_mod(x, s, p) + 0int * mul_mod(x, s, p),
            p as int,
        ),
{
    let pi = p as int;
    let y = mul_mod(x, s, p) as int;
    lemma_fundamental_div_mod((x * s) as int, pi);
    lemma_fundamental_div_mod((piv * s) as int, pi);
    let k1 = ((x * s) as int) / pi;
    let k2 = ((piv * s) as int) / pi;
    assert(0int * x == 0 && 0int * y == 0);
    assert(x * s == s * x) by (nonlinear_arith);
    assert(pi * (-k1) == -(pi * k1)) by (nonlinear_arith);
    assert(y - ((s as int) * x + 0int * x) == pi * (-k1));
    lemma_multiple_congruent(y, (s as int) * x + 0int * x, -k1, pi);
    assert(piv * (x * s) == (piv * s) * x) by (nonlinear_arith);
    assert(piv * (pi * k1 + y) == piv * (pi * k1) + piv * y) by (nonlinear_arith);
    assert(piv * (pi * k1) == pi * (piv * k1)) by (nonlinear_arith);
    assert((pi * k2 + 1) * x == pi * (k2 * x) + x) by (nonlinear_arith);
    assert(pi * (piv * k1 - k2 * x) == pi * (piv * k1) - pi * (k2 * x)) by (nonlinear_arith);
    assert(x - ((piv as int) * y + 0int * y) == pi * (piv * k1 - k2 * x));
    lemma_multiple_congruent(x as int, (piv as int) * y + 0int * y, piv * k1 - k2 * x, pi);
}

/// An entry minus `f` times another, and how to have it back.
proof fn lemma_eliminated_entry(x: nat, y: nat, f: nat, p: nat)
    requires
        0 < p,
    ensures
        congruent(sub_mod(x, mul_mod(f, y, p), p) as int, 1int * x + (-(f as int)) * y, p as int),
        congruent(x as int, 1int * sub_mod(x, mul_mod(f, y, p), p) + (f as int) * y, p as int),
{
    let pi = p as int;
    let fy = mul_mod(f, y, p) as int;
    let e = sub_mod(x, mul_mod(f, y, p), p) as int;
    lemma_fundamental_div_mod((f * y) as int, pi);
    lemma_fundamental_div_mod(x - fy, pi);
    lemma_mod_bound(x - fy, pi);
    let k1 = ((f * y) as int) / pi;
    let k2 = (x - fy) / pi;
    assert((-(f as int)) * y == -(f * y)) by (nonlinear_arith);
    assert(pi * (k1 - k2) == pi * k1 - pi * k2) by (nonlinear_arith);
    assert(pi * (k2 - k1) == pi * k2 - pi * k1) by (nonlinear_arith);
    assert(e - (1int * x + (-(f as int)) * y) == pi * (k1 - k2));
    lemma_multiple_congruent(e, 1int * x + (-(f as int)) * y, k1 - k2, pi);
    assert(x - (1int * e + (f as int) * y) == pi * (k2 - k1));
    lemma_multiple_congruent(x as int, 1int * e + (f as int) * y, k2 - k1, pi);
}

/// A copy of a row.
pub fn copy_row<T: UnsignedInteger>(row: &Vec<T>) -> (r: Vec<T>)
    ensures
        r@ == row@,
{
    let mut out: Vec<T> = Vec::with_capacity(row.len());
    let mut j: usize = 0;
    while j < row.len()
        invariant
            j <= row.len(),
            out@ == row@.subrange(0, j as int),
        decreases row.len() - j,
    {
        out.push(row[j]);
        assert(row@.subrange(0, j + 1) =~= row@.subrange(0, j as int).push(row@[j as int]));
        j = j + 1;
    }
    assert(row@.subrange(0, row.len() as int) =~= row@);
    out
}

/// A copy of a matrix.
pub fn copy_matrix<T: UnsignedInteger>(a: &Vec<Vec<T>>) -> (m: Vec<Vec<T>>)
    ensures
        m@.len() == a@.len(),
        forall|i: int| 0 <= i < a@.len() ==> (#[trigger] m@[i])@ == a@[i]@,
        matrix_values(m@) == matrix_values(a@),
{
    let mut out: Vec<Vec<T>> = Vec::with_capacity(a.len());
    let mut i: usize = 0;
    while i < a.len()
        invariant
            i <= a.len(),
            out@.len() == i,
            forall|r: int| 0 <= r < i ==> (#[trigger] out@[r])@ == a@[r]@,
        decreases a.len() - i,
    {
        out.push(copy_row(&a[i]));
        i = i + 1;
    }
    assert(matrix_values(out@) =~= matrix_values(a@));
    out
}

/// Whether the matrix has as many columns in every row as it has rows, and
/// the vector as many entries.
pub fn check_square<T: UnsignedInteger>(a: &Vec<Vec<T>>, b: &Vec<T>) -> (ok: bool)
    ensures
        ok == is_square(matrix_values(a@), row_values(b@)),
{
    let n = a.len();
    if b.len() != n {
        return false;
    }
    let mut i: usize = 0;
    while i < n
        invariant
            n == a.len(),
            i <= n,
            forall|r: int| 0 <= r < i ==> (#[trigger] matrix_values(a@)[r]).len() == n,
        decreases n - i,
    {
        if a[i].len() != n {
            assert(matrix_values(a@)[i as int].len() != n);
            return false;
        }
        i = i + 1;
    }
    true
}

/// The first row from row `k` on whose entry in column `k` is not zero, or
/// the number of rows where there is none.
pub fn find_pivot<T: UnsignedInteger>(m: &Vec<Vec<T>>, k: usize) -> (r: usize)
    requires
        k < m@.len(),
        is_square(matrix_values(m@), Seq::new(m@.len(), |i: int| 0nat)),
    ensures
        k <= r <= m@.len(),
        r < m@.len() ==> matrix_values(m@)[r as int][k as int] != 0,
        forall|i: int| k <= i < r ==> (#[trigger] matrix_values(m@)[i])[k as int] == 0,
{
    let n = m.len();
    let mut r: usize = k;
    while r < n
        invariant
            n == m@.len(),
            k < n,
            k <= r <= n,
            is_square(matrix_values(m@), Seq::new(m@.len(), |i: int| 0nat)),
            forall|i: int| k <= i < r ==> (#[trigger] matrix_values(m@)[i])[k as int] == 0,
        decreases n - r,
    {
        assert(matrix_values(m@)[r as int].len() == n);
        if !m[r][k].is_zero() {
            return r;
        }
        r = r + 1;
    }
    r
}

/// Swaps the rows `k` and `r` of the system.
pub fn swap_rows<T: UnsignedInteger>(m: &mut Vec<Vec<T>>, c: &mut Vec<T>, k: usize, r: usize)
    requires
        k <= r < old(m)@.len(),
        old(c)@.len() == old(m)@.len(),
    ensures
        final(m)@ == old(m)@.update(k as int, old(m)@[r as int]).update(r as int, old(m)@[k as int]),
        final(c)@ == old(c)@.update(k as int, old(c)@[r as int]).update(r as int, old(c)@[k as int]),
{
    if k == r {
        assert(m@ =~= m@.update(k as int, m@[r as int]).update(r as int, m@[k as int]));
        assert(c@ =~= c@.update(k as int, c@[r as int]).update(r as int, c@[k as int]));
        return ;
    }
    let ghost m0 = m@;
    let ghost c0 = c@;
    let row_r = m.remove(r);
    let row_k = m.remove(k);
    m.insert(k, row_r);
    m.insert(r, row_k);
    assert(m@ =~= m0.update(k as int, m0[r as int]).update(r as int, m0[k as int]));
    let ck = c[k];
    let cr = c[r];
    c[k] = cr;
    c[r] = ck;
    assert(c@ =~= c0.update(k as int, c0[r as int]).update(r as int, c0[k as int]));
}

/// The row with every entry multiplied by `s`.
pub fn scaled_row<T: UnsignedInteger>(row: &Vec<T>, s: T, p: T) -> (r: Vec<T>)
    requires
        s.value() < p.value(),
        forall|j: int| 0 <= j < row@.len() ==> (#[trigger] row@[j]).value() < p.value(),
    ensures
        r@.len() == row@.len(),
        forall|j: int|
            0 <= j < row@.len() ==> (#[trigger] r@[j]).value() == mul_mod(
                row@[j].value(),
                s.value(),
                p.value(),
            ),
{
    let mut out: Vec<T> = Vec::with_capacity(row.len());
    let mut j: usize = 0;
    while j < row.len()
        invariant
            j <= row.len(),
            s.value() < p.value(),
            forall|j: int| 0 <= j < row@.len() ==> (#[trigger] row@[j]).value() < p.value(),
            out@.len() == j,
            forall|i: int|
                0 <= i < j ==> (#[trigger] out@[i]).value() == mul_mod(
                    row@[i].value(),
                    s.value(),
                    p.value(),
                ),
        decreases row.len() - j,
    {
        out.push(crate::poly::raw::zp::mul(row[j], s, p));
        j = j + 1;
    }
    out
}

/// The row minus `f` times the row `pivot_row`.
pub fn eliminated_row<T: UnsignedInteger>(row: &Vec<T>, pivot_row: &Vec<T>, f: T, p: T) -> (r: Vec<T>)
    requires
        f.value() < p.value(),
        pivot_row@.len() == row@.len(),
        forall|j: int| 0 <= j < row@.len() ==> (#[trigger] row@[j]).value() < p.value(),
        forall|j: int| 0 <= j < row@.len() ==> (#[trigger] pivot_row@[j]).value() < p.value(),
    ensures
        r@.len() == row@.len(),
        forall|j: int|
            0 <= j < row@.len() ==> (#[trigger] r@[j]).value() == sub_mod(
                row@[j].value(),
                mul_mod(f.value(), pivot_row@[j].value(), p.value()),
                p.value(),
            ),
{
    let mut out: Vec<T> = Vec::with_capacity(row.len());
    let mut j: usize = 0;
    while j < row.len()
        invariant
            j <= row.len(),
            f.value() < p.value(),
            pivot_row@.len() == row@.len(),
            forall|j: int| 0 <= j < row@.len() ==> (#[trigger] row@[j]).value() < p.value(),
            forall|j: int| 0 <= j < row@.len() ==> (#[trigger] pivot_row@[j]).value() < p.value(),
            out@.len() == j,
            forall|i: int|
                0 <= i < j ==> (#[trigger] out@[i]).value() == sub_mod(
                    row@[i].value(),
                    mul_mod(f.value(), pivot_row@[i].value(), p.value()),
                    p.value(),
                ),
        decreases row.len() - j,
    {
        proof {
            lemma_mod_bound((f.value() * pivot_row@[j as int].value()) as int, p.value() as int);
        }
        let fy = crate::poly::raw::zp::mul(f, pivot_row[j], p);
        out.push(crate::poly::raw::zp::sub(row[j], fy, p));
        j = j + 1;
    }
    out
}

/// Multiplies row `k` by the inverse of its entry in column `k`, which
/// becomes one.
pub fn normalize_pivot<T: UnsignedInteger>(m: &mut Vec<Vec<T>>, c: &mut Vec<T>, k: usize, p: T)
    requires
        is_prime(p.value()),
        k < old(m)@.len(),
        is_system(old(m)@, old(c)@, old(m)@.len(), p.value()),
        unit_columns(matrix_values(old(m)@), k as nat),
        matrix_values(old(m)@)[k as int][k as int] != 0,
    ensures
        is_system(final(m)@, final(c)@, old(m)@.len(), p.value()),
        unit_columns(matrix_values(final(m)@), k as nat),
        matrix_values(final(m)@)[k as int][k as int] == 1,
        equivalent(
            matrix_values(old(m)@),
            row_values(old(c)@),
            matrix_values(final(m)@),
            row_values(final(c)@),
            p.value(),
        ),
{
    let ghost m0 = matrix_values(m@);
    let ghost c0 = row_values(c@);
    let ghost pv = p.value();
    let ghost n = m@.len();
    assert(m0[k as int].len() == n);
    assert(m0[k as int][k as int] < pv);
    let pivot = m[k][k];
    proof {
        lemma_prime_field_inverse(pivot.value(), pv);
    }
    let s = match crate::poly::raw::zp::inv(pivot, p) {
        Ok(s) => s,
        Err(_) => {
            return ;
        },
    };
    assert forall|j: int| 0 <= j < m@[k as int]@.len() implies (#[trigger] m@[k as int]@[j]).value()
        < pv by {
        assert(m0[k as int][j] < pv);
    }
    assert(c0[k as int] < pv);
    let new_row = scaled_row(&m[k], s, p);
    let ghost nr = row_values(new_row@);
    let new_c = crate::poly::raw::zp::mul(c[k], s, p);
    m[k] = new_row;
    c[k] = new_c;
    proof {
        let m1 = matrix_values(m@);
        let c1 = row_values(c@);
        let nc = new_c.value();
        assert(m1 =~= m0.update(k as int, nr));
        assert(c1 =~= c0.update(k as int, nc));
        assert forall|j: int| 0 <= j < n implies congruent(
            #[trigger] nr[j] as int,
            (s.value() as int) * m0[k as int][j] + 0int * m0[k as int][j],
            pv as int,
        ) && congruent(
            #[trigger] m0[k as int][j] as int,
            (pivot.value() as int) * nr[j] + 0int * m0.update(k as int, nr)[k as int][j],
            pv as int,
        ) by {
            lemma_scaled_entry(m0[k as int][j], s.value(), pivot.value(), pv);
        }
        lemma_scaled_entry(c0[k as int], s.value(), pivot.value(), pv);
        lemma_replace_row(
            m0,
            c0,
            k as int,
            k as int,
            nr,
            nc,
            s.value() as int,
            0,
            pivot.value() as int,
            0,
            pv,
        );
        // the entries stay below the modulus, and the unit columns stay
        assert forall|i: int, j: int| 0 <= i < m1.len() && 0 <= j < m1[i].len() implies (
        #[trigger] m1[i][j]) < pv by {
            if i == k {
                lemma_mod_bound((m0[k as int][j] * s.value()) as int, pv as int);
            } else {
                assert(m0[i][j] < pv);
            }
        }
        assert forall|i: int| 0 <= i < c1.len() implies (#[trigger] c1[i]) < pv by {
            if i == k {
                lemma_mod_bound((c0[k as int] * s.value()) as int, pv as int);
            } else {
                assert(c0[i] < pv);
            }
        }
        assert forall|i: int, j: int| 0 <= i < m1.len() && 0 <= j < k implies (
        #[trigger] m1[i][j]) == (if i == j {
            1nat
        } else {
            0nat
        }) by {
            assert(m0[i][j] == (if i == j {
                1nat
            } else {
                0nat
            }));
            if i == k {
                assert(0 * s.value() == 0);
                lemma_small_mod(0, pv);
            }
        }
        assert(m1[k as int][k as int] == 1) by {
            assert(pivot.value() * s.value() == m0[k as int][k as int] * s.value());
        }
    }
}

/// Subtracts from every other row the multiple of row `k` that makes its
/// entry in column `k` zero.
pub fn eliminate_column<T: UnsignedInteger>(m: &mut Vec<Vec<T>>, c: &mut Vec<T>, k: usize, p: T)
    requires
        1 < p.value(),
        k < old(m)@.len(),
        is_system(old(m)@, old(c)@, old(m)@.len(), p.value()),
        unit_columns(matrix_values(old(m)@), k as nat),
        matrix_values(old(m)@)[k as int][k as int] == 1,
    ensures
        is_system(final(m)@, final(c)@, old(m)@.len(), p.value()),
        unit_columns(matrix_values(final(m)@), (k + 1) as nat),
        equivalent(
            matrix_values(old(m)@),
            row_values(old(c)@),
            matrix_values(final(m)@),
            row_values(final(c)@),
            p.value(),
        ),
{
    let ghost m0 = matrix_values(m@);
    let ghost c0 = row_values(c@);
    let ghost pv = p.value();
    let n = m.len();
    proof {
        lemma_equivalent_reflexive(m0, c0, pv);
    }
    let mut i: usize = 0;
    while i < n
        invariant
            1 < pv,
            pv == p.value(),
            n == m@.len(),
            n == old(m)@.len(),
            k < n,
            i <= n,
            is_system(m@, c@, n as nat, pv),
            unit_columns(matrix_values(m@), k as nat),
            matrix_values(m@)[k as int][k as int] == 1,
            equivalent(m0, c0, matrix_values(m@), row_values(c@), pv),
            forall|r: int|
                0 <= r < i && r != k ==> (#[trigger] matrix_values(m@)[r])[k as int] == 0,
        decreases n - i,
    {
        let ghost m1 = matrix_values(m@);
        let ghost c1 = row_values(c@);
        assert(m1[i as int].len() == n);
        assert(m1[k as int].len() == n);
        assert(m1[i as int][k as int] < pv);
        if i != k && !m[i][k].is_zero() {
            let f = m[i][k];
            assert forall|j: int| 0 <= j < m@[i as int]@.len() implies (
            #[trigger] m@[i as int]@[j]).value() < pv by {
                assert(m1[i as int][j] < pv);
            }
            assert forall|j: int| 0 <= j < m@[k as int]@.len() implies (
            #[trigger] m@[k as int]@[j]).value() < pv by {
                assert(m1[k as int][j] < pv);
            }
            assert(c1[i as int] < pv);
            assert(c1[k as int] < pv);
            let new_row = eliminated_row(&m[i], &m[k], f, p);
            let ghost nr = row_values(new_row@);
            proof {
                lemma_mod_bound((f.value() * c1[k as int]) as int, pv as int);
            }
            let fc = crate::poly::raw::zp::mul(f, c[k], p);
            let new_c = crate::poly::raw::zp::sub(c[i], fc, p);
            m[i] = new_row;
            c[i] = new_c;
            proof {
                let m2 = matrix_values(m@);
                let c2 = row_values(c@);
                let nc = new_c.value();
                let fv = f.value();
                assert(m2 =~= m1.update(i as int, nr));
                assert(c2 =~= c1.update(i as int, nc));
                assert forall|j: int| 0 <= j < n implies congruent(
                    #[trigger] nr[j] as int,
                    1int * m1[i as int][j] + (-(fv as int)) * m1[k as int][j],
                    pv as int,
                ) && congruent(
                    #[trigger] m1[i as int][j] as int,
                    1int * nr[j] + (fv as int) * m1.update(i as int, nr)[k as int][j],
                    pv as int,
                ) by {
                    lemma_eliminated_entry(m1[i as int][j], m1[k as int][j], fv, pv);
                }
                lemma_eliminated_entry(c1[i as int], c1[k as int], fv, pv);
                lemma_replace_row(
                    m1,
                    c1,
                    i as int,
                    k as int,
                    nr,
                    nc,
                    1,
                    -(fv as int),
                    1,
                    fv as int,
                    pv,
                );
                lemma_equivalent_transitive(m0, c0, m1, c1, m2, c2, pv);
                assert forall|r: int, j: int| 0 <= r < m2.len() && 0 <= j < m2[r].len() implies (
                #[trigger] m2[r][j]) < pv by {
                    if r == i {
                        lemma_mod_bound(
                            m1[i as int][j] - mul_mod(fv, m1[k as int][j], pv),
                            pv as int,
                        );
                    } else {
                        assert(m1[r][j] < pv);
                    }
                }
                assert forall|r: int| 0 <= r < c2.len() implies (#[trigger] c2[r]) < pv by {
                    if r == i {
                        lemma_mod_bound(c1[i as int] - mul_mod(fv, c1[k as int], pv), pv as int);
                    } else {
                        assert(c1[r] < pv);
                    }
                }
                assert forall|r: int, j: int| 0 <= r < m2.len() && 0 <= j < k implies (
                #[trigger] m2[r][j]) == (if r == j {
                    1nat
                } else {
                    0nat
                }) by {
                    assert(m1[r][j] == (if r == j {
                        1nat
                    } else {
                        0nat
                    }));
                    if r == i {
                        assert(m1[k as int][j] == 0);
                        assert(fv * 0 == 0);
                        lemma_small_mod(0, pv);
                        lemma_small_mod(m1[i as int][j], pv);
                    }
                }
                assert(m2[i as int][k as int] == 0) by {
                    assert(fv * 1 == fv);
                    lemma_small_mod(fv, pv);
                    lemma_small_mod(0, pv);
                }
                assert forall|r: int| 0 <= r < i + 1 && r != k implies (#[trigger] m2[r])[k as int]
                    == 0 by {
                    if r < i {
                        assert(m1[r][k as int] == 0);
                    }
                }
            }
        }
        i = i + 1;
    }
    proof {
        let m2 = matrix_values(m@);
        assert forall|r: int, j: int| 0 <= r < m2.len() && 0 <= j < k + 1 implies (
        #[trigger] m2[r][j]) == (if r == j {
            1nat
        } else {
            0nat
        }) by {
            if j == k {
                if r != k {
                    assert(m2[r][k as int] == 0);
                }
            }
        }
    }
}

} // verus!
