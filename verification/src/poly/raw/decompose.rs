//! Polynomials taken apart by the exponents of some of their variables.

use vstd::prelude::*;
use vstd::slice::{slice_subrange, slice_to_vec};
use crate::poly::exponent::Exponent;
use crate::poly::raw::leading::{is_leading, projected, single_variable};
use crate::poly::raw::multivar::{compare_exponents, values, MultivariatePolynomial, TermOrder};
use crate::poly::raw::terms::{
    canonical, coefficient_in, lemma_canonical_wf, lemma_prefix_whole, lemma_select_coefficient,
    lemma_select_none, lemma_select_step, lemma_stands_for_step, select_map, stands_for, Terms,
};
use crate::poly::raw::zp::UnsignedInteger;
use crate::poly::ring::Ring;

verus! {

/// Holds of the exponent vectors that have the exponents of `best` for the
/// variables `vars`.
pub open spec fn tied(best: Seq<nat>, vars: Seq<usize>) -> spec_fn(Seq<nat>) -> bool {
    |e: Seq<nat>| projected(e, vars) == projected(best, vars)
}

/// Leaves of an exponent vector only the exponent of the variable `n`.
pub open spec fn only_variable(n: int) -> spec_fn(Seq<nat>) -> Seq<nat> {
    |e: Seq<nat>| single_variable(e.len(), n, e[n])
}

/// Holds of the exponent vectors with the exponent `d` for the variable `x`.
pub open spec fn has_degree(x: int, d: nat) -> spec_fn(Seq<nat>) -> bool {
    |e: Seq<nat>| e[x] == d
}

/// Makes the exponent of the variable `x` zero.
pub open spec fn without_variable(x: int) -> spec_fn(Seq<nat>) -> Seq<nat> {
    |e: Seq<nat>| e.update(x, 0nat)
}

/// `j` is one of the variables `xs`.
pub open spec fn is_among(xs: Seq<usize>, j: int) -> bool {
    exists|k: int| 0 <= k < xs.len() && #[trigger] xs[k] == j
}

/// The exponent vector with the exponents of the variables `xs`, and zero
/// for every other variable.
pub open spec fn inside(e: Seq<nat>, xs: Seq<usize>) -> Seq<nat> {
    Seq::new(e.len(), |j: int| if is_among(xs, j) { e[j] } else { 0nat })
}

/// The exponent vector with zero for the variables `xs`, and the exponents
/// of every other variable.
pub open spec fn outside(e: Seq<nat>, xs: Seq<usize>) -> Seq<nat> {
    Seq::new(e.len(), |j: int| if is_among(xs, j) { 0nat } else { e[j] })
}

/// The part of an exponent vector that tells the group of a term.
pub open spec fn group_key(e: Seq<nat>, xs: Seq<usize>, listed: bool) -> Seq<nat> {
    if listed {
        inside(e, xs)
    } else {
        outside(e, xs)
    }
}

/// Holds of the exponent vectors of the group with the key `key`.
pub open spec fn in_group(key: Seq<nat>, xs: Seq<usize>, listed: bool) -> spec_fn(Seq<nat>) -> bool {
    |e: Seq<nat>| group_key(e, xs, listed) == key
}

/// The part of an exponent vector that stays with the term in its group.
pub open spec fn group_part(xs: Seq<usize>, listed: bool) -> spec_fn(Seq<nat>) -> Seq<nat> {
    |e: Seq<nat>| group_key(e, xs, !listed)
}

impl<R: Ring, E: Exponent> MultivariatePolynomial<R, E> {
    /// Get the leading coefficient viewed as a polynomial in the last
    /// variable of `vars`, where the other variables of `vars` are compared
    /// in their order, the first of them most significant: the terms with the
    /// largest exponents of these, each with only its exponent of the last
    /// variable left. For the polynomial zero that is zero, in no variables.
    /// This operation is O(n).
    pub fn lcoeff_last_varorder(&self, vars: &[usize]) -> (r: Self)
        requires
            self.wf(),
            self.nterms == 0 || (vars@.len() > 0 && forall|k: int|
                0 <= k < vars@.len() ==> (#[trigger] vars@[k]) < self.nvars),
        ensures
            r.wf(),
            self.nterms == 0 ==> r.nvars == 0 && r@ == Terms::<R>::empty(),
            self.nterms > 0 ==> r.nvars == self.nvars && exists|i: int|
                {
                    &&& is_leading(self@, i, vars@.drop_last())
                    &&& stands_for(
                        r@,
                        select_map(
                            self@,
                            tied(self@[i].1, vars@.drop_last()),
                            only_variable(vars@.last() as int),
                        ),
                    )
                },
    {
        if self.is_zero() {
            return Self::zero();
        }
        proof {
            vstd::slice::axiom_spec_len(vars);
        }
        let nvars = self.nvars;
        let ghost ts = self@;
        let split = vars.len() - 1;
        let order = slice_subrange(vars, 0, split);
        let lastvar = vars[split];
        proof {
            assert(order@ =~= vars@.drop_last());
            assert(vars@.last() == vars@[split as int]);
        }
        let best = self.leading_term(order);
        let ghost keep = tied(ts[best as int].1, order@);
        let ghost f = only_variable(lastvar as int);
        let mut res = Self::with_nvars(nvars);
        let mut e = Self::zero_exponents(nvars);
        let mut i: usize = 0;
        proof {
            lemma_prefix_whole(ts);
        }
        while i < self.nterms
            invariant
                self.wf(),
                ts == self@,
                nvars == self.nvars,
                lastvar < nvars,
                best < self.nterms,
                forall|k: int| 0 <= k < order@.len() ==> (#[trigger] order@[k]) < self.nvars,
                keep == tied(ts[best as int].1, order@),
                f == only_variable(lastvar as int),
                res.wf(),
                res.nvars == nvars,
                e@.len() == nvars,
                forall|k: int| 0 <= k < nvars ==> (#[trigger] e@[k]).value() == 0,
                i <= self.nterms,
                stands_for(res@, select_map(ts.subrange(0, i as int), keep, f)),
            decreases self.nterms - i,
        {
            proof {
                lemma_select_step(ts, i as int, keep, f);
            }
            if self.compare_in_order(i, best, order) == TermOrder::Equal {
                let ghost before = res@;
                e[lastvar] = self.exponent(i, lastvar);
                assert(ts[i as int].0.wf());
                let appended = res.append_monomial(self.coefficients[i], e.as_slice());
                proof {
                    let x = (ts[i as int].0, f(ts[i as int].1));
                    assert(values(e@) =~= x.1);
                    lemma_stands_for_step(
                        before,
                        res@,
                        select_map(ts.subrange(0, i as int), keep, f),
                        x,
                    );
                }
                e[lastvar] = E::zero();
            }
            i = i + 1;
        }
        proof {
            lemma_prefix_whole(ts);
        }
        res
    }

    /// The terms with the exponent `d` of the variable `x`, without that
    /// variable.
    pub fn coefficient_of_power(&self, x: usize, d: E) -> (r: Self)
        requires
            self.wf(),
            x < self.nvars,
        ensures
            r.wf(),
            r.nvars == self.nvars,
            stands_for(
                r@,
                select_map(self@, has_degree(x as int, d.value()), without_variable(x as int)),
            ),
    {
        let nvars = self.nvars;
        let ghost ts = self@;
        let ghost keep = has_degree(x as int, d.value());
        let ghost f = without_variable(x as int);
        let mut res = Self::with_nvars(nvars);
        let mut i: usize = 0;
        proof {
            lemma_prefix_whole(ts);
        }
        while i < self.nterms
            invariant
                self.wf(),
                ts == self@,
                nvars == self.nvars,
                x < nvars,
                keep == has_degree(x as int, d.value()),
                f == without_variable(x as int),
                res.wf(),
                res.nvars == nvars,
                i <= self.nterms,
                stands_for(res@, select_map(ts.subrange(0, i as int), keep, f)),
            decreases self.nterms - i,
        {
            proof {
                lemma_select_step(ts, i as int, keep, f);
            }
            if self.exponent(i, x).equals(d) {
                let ghost before = res@;
                let mut e = slice_to_vec(self.exponents(i));
                e[x] = E::zero();
                assert(ts[i as int].0.wf());
                let appended = res.append_monomial(self.coefficients[i], e.as_slice());
                proof {
                    let t = (ts[i as int].0, f(ts[i as int].1));
                    assert(values(e@) =~= t.1);
                    lemma_stands_for_step(
                        before,
                        res@,
                        select_map(ts.subrange(0, i as int), keep, f),
                        t,
                    );
                }
            }
            i = i + 1;
        }
        proof {
            lemma_prefix_whole(ts);
        }
        res
    }

    /// Create a univariate polynomial out of a multivariate one: for every
    /// power of the variable `x` whose coefficient is not zero, that
    /// coefficient, a polynomial in the other variables, with the power. The
    /// powers increase. The exponents of `x` have to fit the 32 bits of a
    /// power.
    pub fn to_univariate_polynomial(&self, x: usize) -> (r: Vec<(Self, u32)>)
        requires
            self.wf(),
            x < self.nvars || self.nterms == 0,
            forall|i: int| 0 <= i < self.nterms ==> (#[trigger] self@[i]).1[x as int] <= u32::MAX,
        ensures
            forall|k: int|
                0 <= k < r@.len() ==> {
                    &&& (#[trigger] r@[k]).0.wf()
                    &&& r@[k].0.nvars == self.nvars
                    &&& r@[k].0.nterms > 0
                    &&& stands_for(
                        r@[k].0@,
                        select_map(
                            self@,
                            has_degree(x as int, r@[k].1 as nat),
                            without_variable(x as int),
                        ),
                    )
                },
            forall|k: int, l: int|
                0 <= k < l < r@.len() ==> (#[trigger] r@[k]).1 < (#[trigger] r@[l]).1,
            forall|d: nat|
                (forall|k: int| 0 <= k < r@.len() ==> (#[trigger] r@[k]).1 != d)
                    ==> stands_for(
                    Terms::<R>::empty(),
                    #[trigger] select_map(self@, has_degree(x as int, d), without_variable(x as int)),
                ),
    {
        let ghost ts = self@;
        let ghost f = without_variable(x as int);
        let mut result: Vec<(Self, u32)> = Vec::new();
        if self.is_zero() {
            proof {
                assert(ts =~= Terms::<R>::empty());
            }
            return result;
        }
        // get maximum degree for variable x

        let maxdeg = self.degree(x);
        // construct the coefficient per power of x

        let mut d = E::zero();
        let mut going = true;
        proof {
            assert forall|d2: nat| d2 > maxdeg.value() implies stands_for(
                Terms::<R>::empty(),
                #[trigger] select_map(ts, has_degree(x as int, d2), f),
            ) by {
                let g = |i: int| ts[i].1[x as int];
                assert forall|i: int| 0 <= i < ts.len() implies !has_degree(x as int, d2)(
                    (#[trigger] ts[i]).1,
                ) by {
                    assert(g(i) <= maxdeg.value());
                }
                lemma_select_none(ts, ts.len() as int, has_degree(x as int, d2), f);
                lemma_prefix_whole(ts);
            }
        }
        while going
            invariant
                self.wf(),
                ts == self@,
                x < self.nvars,
                f == without_variable(x as int),
                d.value() <= maxdeg.value(),
                maxdeg.value() <= u32::MAX,
                !going ==> d.value() == maxdeg.value(),
                forall|k: int|
                    0 <= k < result@.len() ==> {
                        &&& (#[trigger] result@[k]).0.wf()
                        &&& result@[k].0.nvars == self.nvars
                        &&& result@[k].0.nterms > 0
                        &&& stands_for(
                            result@[k].0@,
                            select_map(ts, has_degree(x as int, result@[k].1 as nat), f),
                        )
                        &&& result@[k].1 <= d.value()
                        &&& going ==> result@[k].1 < d.value()
                    },
                forall|k: int, l: int|
                    0 <= k < l < result@.len() ==> (#[trigger] result@[k]).1 < (
                    #[trigger] result@[l]).1,
                forall|d2: nat|
                    (d2 < d.value() || (!going && d2 == d.value())) && (forall|k: int|
                        0 <= k < result@.len() ==> (#[trigger] result@[k]).1 != d2)
                        ==> stands_for(
                        Terms::<R>::empty(),
                        #[trigger] select_map(ts, has_degree(x as int, d2), f),
                    ),
            decreases maxdeg.value() - d.value(), (if going { 1nat } else { 0nat }),
        {
            let ghost before = result@;
            let ghost d0 = d.value();
            let a = self.coefficient_of_power(x, d);
            let empty = a.is_zero();
            if !empty {
                match d.to_u32() {
                    Some(power) => {
                        result.push((a, power));
                    },
                    None => {
                        assert(false);
                    },
                }
            }
            proof {
                if empty {
                    assert(a@ =~= Terms::<R>::empty());
                }
                assert forall|k: int| 0 <= k < result@.len() implies (#[trigger] result@[k]).1
                    <= d.value() by {
                    if k < before.len() {
                        assert(result@[k] == before[k]);
                    }
                }
                assert forall|d2: nat|
                    d2 <= d0 && (forall|k: int|
                        0 <= k < result@.len() ==> (#[trigger] result@[k]).1
                            != d2) implies stands_for(
                    Terms::<R>::empty(),
                    #[trigger] select_map(ts, has_degree(x as int, d2), f),
                ) by {
                    if d2 == d0 {
                        if !empty {
                            assert(result@[before.len() as int].1 == d0);
                        }
                    } else {
                        assert forall|k: int| 0 <= k < before.len() implies (
                        #[trigger] before[k]).1 != d2 by {
                            assert(result@[k] == before[k]);
                        }
                    }
                }
            }
            if d.less(maxdeg) {
                proof {
                    E::value_in_range(maxdeg);
                }
                d = d.plus(E::one());
            } else {
                going = false;
            }
        }
        result
    }

    /// The exponents of term `i` for the variables `xs`, with zero for every
    /// other variable, and the exponents for the other variables, with zero
    /// for the variables `xs`.
    pub fn split_exponents(&self, i: usize, xs: &[usize]) -> (r: (Vec<E>, Vec<E>))
        requires
            self.shaped(),
            i < self.nterms,
            forall|k: int| 0 <= k < xs@.len() ==> (#[trigger] xs@[k]) < self.nvars,
        ensures
            values(r.0@) == inside(self@[i as int].1, xs@),
            values(r.1@) == outside(self@[i as int].1, xs@),
            r.0@.len() == self.nvars,
            r.1@.len() == self.nvars,
    {
        let nvars = self.nvars;
        let ghost e0 = self@[i as int].1;
        let mut rest = slice_to_vec(self.exponents(i));
        let mut taken = Self::zero_exponents(nvars);
        proof {
            vstd::slice::axiom_spec_len(xs);
            assert(values(rest@) == e0);
            assert(values(rest@).len() == rest@.len());
            assert(e0.len() == nvars);
            assert forall|j: int| 0 <= j < nvars implies (#[trigger] rest@[j]).value() == e0[j] by {
                assert(values(rest@)[j] == rest@[j].value());
            }
        }
        let mut k: usize = 0;
        while k < xs.len()
            invariant
                self.shaped(),
                i < self.nterms,
                nvars == self.nvars,
                e0 == self@[i as int].1,
                forall|k: int| 0 <= k < xs@.len() ==> (#[trigger] xs@[k]) < self.nvars,
                k <= xs@.len(),
                rest@.len() == nvars,
                taken@.len() == nvars,
                forall|j: int|
                    0 <= j < nvars ==> (#[trigger] taken@[j]).value() == (if is_among(
                        xs@.subrange(0, k as int),
                        j,
                    ) {
                        e0[j]
                    } else {
                        0nat
                    }),
                forall|j: int|
                    0 <= j < nvars ==> (#[trigger] rest@[j]).value() == (if is_among(
                        xs@.subrange(0, k as int),
                        j,
                    ) {
                        0nat
                    } else {
                        e0[j]
                    }),
            decreases xs@.len() - k,
        {
            let x = xs[k];
            let ghost pre = xs@.subrange(0, k as int);
            let ghost post = xs@.subrange(0, k + 1);
            taken[x] = self.exponent(i, x);
            rest[x] = E::zero();
            proof {
                assert(post[k as int] == x);
                assert forall|j: int| 0 <= j < nvars implies is_among(post, j) == (is_among(
                    pre,
                    j,
                ) || j == x) by {
                    if is_among(pre, j) {
                        let l = choose|l: int| 0 <= l < pre.len() && #[trigger] pre[l] == j;
                        assert(post[l] == j);
                    }
                    if is_among(post, j) {
                        let l = choose|l: int| 0 <= l < post.len() && #[trigger] post[l] == j;
                        if l < k {
                            assert(pre[l] == j);
                        }
                    }
                }
            }
            k = k + 1;
        }
        proof {
            assert(xs@.subrange(0, xs@.len() as int) =~= xs@);
            assert(values(taken@) =~= inside(e0, xs@));
            assert(values(rest@) =~= outside(e0, xs@));
        }
        (taken, rest)
    }
}

/// What holds of a group while a polynomial is taken apart: its polynomial
/// stands for the terms of the group among `done`, and one of these terms
/// has its key.
pub open spec fn is_group<R: Ring, E: Exponent>(
    g: (Vec<E>, MultivariatePolynomial<R, E>),
    done: Terms<R>,
    xs: Seq<usize>,
    listed: bool,
    nvars: nat,
) -> bool {
    &&& g.0@.len() == nvars
    &&& g.1.wf()
    &&& g.1.nvars == nvars
    &&& stands_for(
        g.1@,
        select_map(done, in_group(values(g.0@), xs, listed), group_part(xs, listed)),
    )
    &&& exists|i: int| 0 <= i < done.len() && group_key(#[trigger] done[i].1, xs, listed) == values(g.0@)
}

/// The groups have different keys, and every term of `done` has its group.
pub open spec fn are_groups<R: Ring, E: Exponent>(
    gs: Seq<(Vec<E>, MultivariatePolynomial<R, E>)>,
    done: Terms<R>,
    xs: Seq<usize>,
    listed: bool,
    nvars: nat,
) -> bool {
    &&& forall|k: int| 0 <= k < gs.len() ==> is_group(#[trigger] gs[k], done, xs, listed, nvars)
    &&& forall|k: int, l: int|
        0 <= k < l < gs.len() ==> values((#[trigger] gs[k]).0@) != values((#[trigger] gs[l]).0@)
    &&& forall|i: int|
        0 <= i < done.len() ==> has_group(gs, group_key((#[trigger] done[i]).1, xs, listed))
}

/// Some group has the key `key`.
pub open spec fn has_group<R: Ring, E: Exponent>(
    gs: Seq<(Vec<E>, MultivariatePolynomial<R, E>)>,
    key: Seq<nat>,
) -> bool {
    exists|k: int| 0 <= k < gs.len() && values((#[trigger] gs[k]).0@) == key
}

/// The index of the group with the exponents `key`, or the number of groups
/// where there is none.
pub fn find_group<R: Ring, E: Exponent>(
    groups: &Vec<(Vec<E>, MultivariatePolynomial<R, E>)>,
    key: &Vec<E>,
) -> (k: usize)
    requires
        forall|l: int| 0 <= l < groups@.len() ==> (#[trigger] groups@[l]).0@.len() == key@.len(),
    ensures
        k <= groups@.len(),
        k < groups@.len() ==> values(groups@[k as int].0@) == values(key@),
        forall|l: int|
            0 <= l < groups@.len() && l != k ==> values((#[trigger] groups@[l]).0@) != values(key@)
                || (l > k && k < groups@.len()),
{
    let mut k: usize = 0;
    while k < groups.len()
        invariant
            k <= groups@.len(),
            forall|l: int| 0 <= l < groups@.len() ==> (#[trigger] groups@[l]).0@.len() == key@.len(),
            forall|l: int| 0 <= l < k ==> values((#[trigger] groups@[l]).0@) != values(key@),
        decreases groups@.len() - k,
    {
        assert(groups@[k as int].0@.len() == key@.len());
        let c = compare_exponents(groups[k].0.as_slice(), 0, key.as_slice(), 0, key.len());
        if c == TermOrder::Equal {
            return k;
        }
        k = k + 1;
    }
    k
}

impl<R: Ring, E: Exponent> MultivariatePolynomial<R, E> {
    /// Split the polynomial as a polynomial in the variables `xs` if
    /// `listed` is true, else as a polynomial in the other variables: the
    /// terms are put in groups by their exponents of the variables `xs`, or
    /// of the others. Every group has its key, the exponents that its terms
    /// share, with zero for the other variables, and the polynomial of its
    /// terms without these exponents. No two groups have the same key.
    pub fn to_multivariate_polynomial(&self, xs: &[usize], listed: bool) -> (r: Vec<(Vec<E>, Self)>)
        requires
            self.wf(),
            self.nterms == 0 || forall|k: int| 0 <= k < xs@.len() ==> (#[trigger] xs@[k]) < self.nvars,
        ensures
            are_groups(r@, self@, xs@, listed, self.nvars as nat),
    {
        let nvars = self.nvars;
        let ghost nv = nvars as nat;
        let ghost ts = self@;
        let ghost f = group_part(xs@, listed);
        let mut result: Vec<(Vec<E>, Self)> = Vec::new();
        let mut i: usize = 0;
        proof {
            lemma_prefix_whole(ts);
        }
        while i < self.nterms
            invariant
                self.wf(),
                ts == self@,
                nvars == self.nvars,
                nv == nvars,
                f == group_part(xs@, listed),
                self.nterms == 0 || forall|k: int|
                    0 <= k < xs@.len() ==> (#[trigger] xs@[k]) < self.nvars,
                i <= self.nterms,
                are_groups(result@, ts.subrange(0, i as int), xs@, listed, nv),
            decreases self.nterms - i,
        {
            let ghost before = result@;
            let ghost done = ts.subrange(0, i as int);
            let ghost next = ts.subrange(0, i + 1);
            let (taken, rest) = self.split_exponents(i, xs);
            let (key, part) = if listed {
                (taken, rest)
            } else {
                (rest, taken)
            };
            let ghost kv = values(key@);
            let ghost t = (ts[i as int].0, values(part@));
            assert(ts[i as int].0.wf());
            assert(ts[i as int].0 != R::zero_spec());
            proof {
                assert(kv == group_key(ts[i as int].1, xs@, listed));
                assert(t.1 == f(ts[i as int].1));
                assert(next[i as int] == ts[i as int]);
                assert forall|l: int| 0 <= l < before.len() implies (#[trigger] before[l]).0@.len()
                    == key@.len() by {
                    assert(is_group(before[l], done, xs@, listed, nv));
                }
            }
            let k = find_group(&result, &key);
            if k < result.len() {
                let (gk, mut g) = result.remove(k);
                let ghost g0 = g@;
                let appended = g.append_monomial(self.coefficients[i], part.as_slice());
                result.insert(k, (gk, g));
                proof {
                    assert(result@ =~= before.update(k as int, (gk, g)));
                    assert(is_group(before[k as int], done, xs@, listed, nv));
                    lemma_select_step(ts, i as int, in_group(kv, xs@, listed), f);
                    lemma_stands_for_step(
                        g0,
                        g@,
                        select_map(done, in_group(kv, xs@, listed), f),
                        t,
                    );
                }
            } else {
                let g = Self::from_monomial(self.coefficients[i], part);
                result.push((key, g));
                proof {
                    assert forall|j: int| 0 <= j < i implies !in_group(kv, xs@, listed)(
                        (#[trigger] ts[j]).1,
                    ) by {
                        assert(done[j] == ts[j]);
                        assert(has_group(before, group_key(done[j].1, xs@, listed)));
                        let l = choose|l: int|
                            0 <= l < before.len() && values((#[trigger] before[l]).0@)
                                == group_key(done[j].1, xs@, listed);
                    }
                    lemma_select_none(ts, i as int, in_group(kv, xs@, listed), f);
                    lemma_select_step(ts, i as int, in_group(kv, xs@, listed), f);
                    assert(g@ =~= Terms::<R>::empty().push(t));
                }
            }
            proof {
                // the other groups are as they were
                assert forall|l: int| 0 <= l < result@.len() implies is_group(
                    #[trigger] result@[l],
                    next,
                    xs@,
                    listed,
                    nv,
                ) by {
                    if l != k {
                        assert(result@[l] == before[l]);
                        assert(is_group(before[l], done, xs@, listed, nv));
                        let kl = values(before[l].0@);
                        lemma_select_step(ts, i as int, in_group(kl, xs@, listed), f);
                        let w = choose|w: int|
                            0 <= w < done.len() && group_key(#[trigger] done[w].1, xs@, listed)
                                == kl;
                        assert(next[w] == done[w]);
                    } else {
                        assert(group_key(next[i as int].1, xs@, listed) == kv);
                    }
                }
                assert forall|a: int, b: int| 0 <= a < b < result@.len() implies values(
                    (#[trigger] result@[a]).0@,
                ) != values((#[trigger] result@[b]).0@) by {
                    if b < before.len() {
                        assert(values(before[a].0@) != values(before[b].0@));
                    }
                }
                assert forall|j: int| 0 <= j < next.len() implies has_group(
                    result@,
                    group_key((#[trigger] next[j]).1, xs@, listed),
                ) by {
                    if j < i {
                        assert(next[j] == done[j]);
                        assert(has_group(before, group_key(done[j].1, xs@, listed)));
                        let l = choose|l: int|
                            0 <= l < before.len() && values((#[trigger] before[l]).0@)
                                == group_key(done[j].1, xs@, listed);
                        assert(values(result@[l].0@) == group_key(next[j].1, xs@, listed));
                    } else {
                        assert(values(result@[k as int].0@) == kv);
                    }
                }
            }
            i = i + 1;
        }
        proof {
            lemma_prefix_whole(ts);
        }
        result
    }
}

/// Taking a polynomial apart by the powers of the variable `x` loses
/// nothing: the coefficient of a monomial is its coefficient, without the
/// variable, in the part for its power of the variable.
pub proof fn lemma_power_coefficient<R: Ring>(ts: Terms<R>, nvars: nat, x: int, e: Seq<nat>)
    requires
        canonical(ts, nvars),
        0 <= x < nvars,
        e.len() == nvars,
    ensures
        coefficient_in(ts, e) == coefficient_in(
            select_map(ts, has_degree(x, e[x]), without_variable(x)),
            e.update(x, 0nat),
        ),
{
    lemma_canonical_wf(ts, nvars);
    assert forall|i: int| 0 <= i < ts.len() implies (((#[trigger] ts[i]).1 == e) <==> (has_degree(
        x,
        e[x],
    )(ts[i].1) && without_variable(x)(ts[i].1) == without_variable(x)(e))) by {
        let v = ts[i].1;
        if v[x] == e[x] && v.update(x, 0nat) == e.update(x, 0nat) {
            assert forall|j: int| 0 <= j < nvars implies v[j] == e[j] by {
                if j != x {
                    assert(v.update(x, 0nat)[j] == e.update(x, 0nat)[j]);
                }
            }
            assert(v =~= e);
        }
    }
    lemma_select_coefficient(ts, e, has_degree(x, e[x]), without_variable(x));
}

/// Taking a polynomial apart by the exponents of the variables `xs` loses
/// nothing: the coefficient of a monomial is the coefficient of its part in
/// the group with its key.
pub proof fn lemma_group_coefficient<R: Ring>(
    ts: Terms<R>,
    nvars: nat,
    xs: Seq<usize>,
    listed: bool,
    e: Seq<nat>,
)
    requires
        canonical(ts, nvars),
        e.len() == nvars,
    ensures
        coefficient_in(ts, e) == coefficient_in(
            select_map(
                ts,
                in_group(group_key(e, xs, listed), xs, listed),
                group_part(xs, listed),
            ),
            group_key(e, xs, !listed),
        ),
{
    lemma_canonical_wf(ts, nvars);
    let keep = in_group(group_key(e, xs, listed), xs, listed);
    let f = group_part(xs, listed);
    assert forall|i: int| 0 <= i < ts.len() implies (((#[trigger] ts[i]).1 == e) <==> (keep(
        ts[i].1,
    ) && f(ts[i].1) == f(e))) by {
        let v = ts[i].1;
        if inside(v, xs) == inside(e, xs) && outside(v, xs) == outside(e, xs) {
            assert forall|j: int| 0 <= j < nvars implies v[j] == e[j] by {
                if is_among(xs, j) {
                    assert(inside(v, xs)[j] == inside(e, xs)[j]);
                } else {
                    assert(outside(v, xs)[j] == outside(e, xs)[j]);
                }
            }
            assert(v =~= e);
        }
    }
    lemma_select_coefficient(ts, e, keep, f);
}

} // verus!
