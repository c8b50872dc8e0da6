//! Changes of the variables of a polynomial: their order, and the
//! replacement of variables by ring elements.

use vstd::prelude::*;
use vstd::slice::slice_to_vec;
use crate::poly::exponent::Exponent;
use crate::poly::raw::multivar::{values, MultivariatePolynomial};
use crate::poly::raw::terms::{
    canonical, coefficient_in, lemma_canonical_unique, lemma_coefficient_absent, lemma_prefix_step,
    lemma_prefix_whole, lemma_stands_for_step, stands_for, Terms,
};
use crate::poly::raw::zp::UnsignedInteger;
use crate::poly::ring::{pow_spec, Ring};

verus! {

/// `y` is an entry of `pm`.
pub open spec fn has_source(pm: Seq<usize>, y: int) -> bool {
    exists|x: int| 0 <= x < pm.len() && #[trigger] pm[x] == y
}

/// `pm` lists the numbers below `n`, each once.
pub open spec fn is_permutation(pm: Seq<usize>, n: nat) -> bool {
    &&& pm.len() == n
    &&& forall|x: int| 0 <= x < n ==> (#[trigger] pm[x]) < n
    &&& forall|x: int, y: int| 0 <= x < y < n ==> pm[x] != pm[y]
    &&& forall|y: int| 0 <= y < n ==> #[trigger] has_source(pm, y)
}

/// The place of `y` in the permutation `pm`.
pub open spec fn source(pm: Seq<usize>, y: int) -> int {
    choose|x: int| 0 <= x < pm.len() && #[trigger] pm[x] == y
}

/// The exponent vector `e` with its entries rearranged: entry `x` of the
/// result is entry `pm[x]` of `e`; or, for the inverse, entry `pm[x]` of the
/// result is entry `x` of `e`.
pub open spec fn rearranged_vec(e: Seq<nat>, pm: Seq<usize>, inverse: bool) -> Seq<nat> {
    if inverse {
        Seq::new(e.len(), |y: int| e[source(pm, y)])
    } else {
        Seq::new(e.len(), |x: int| e[pm[x] as int])
    }
}

/// The terms of `ts` with their exponent vectors rearranged.
pub open spec fn rearranged<R: Ring>(ts: Terms<R>, pm: Seq<usize>, inverse: bool) -> Terms<R> {
    Seq::new(ts.len(), |i: int| (ts[i].0, rearranged_vec(ts[i].1, pm, inverse)))
}

/// Rearranging back gives the exponent vector that one started from.
pub proof fn lemma_rearranged_back(e: Seq<nat>, pm: Seq<usize>)
    requires
        is_permutation(pm, e.len()),
    ensures
        rearranged_vec(rearranged_vec(e, pm, false), pm, true) == e,
        rearranged_vec(rearranged_vec(e, pm, true), pm, false) == e,
{
    let f = rearranged_vec(e, pm, false);
    let b = rearranged_vec(f, pm, true);
    assert forall|y: int| 0 <= y < e.len() implies b[y] == e[y] by {
        assert(has_source(pm, y));
        let x = source(pm, y);
        assert(pm[x] == y);
    }
    assert(b =~= e);
    let g = rearranged_vec(e, pm, true);
    let h = rearranged_vec(g, pm, false);
    assert forall|x: int| 0 <= x < e.len() implies h[x] == e[x] by {
        let y = pm[x] as int;
        assert(has_source(pm, y));
        let x2 = source(pm, y);
        assert(pm[x2] == y);
        if x2 < x {
            assert(pm[x2] != pm[x]);
        } else if x < x2 {
            assert(pm[x] != pm[x2]);
        }
    }
    assert(h =~= e);
}

/// The terms rearranged give the rearranged monomial the coefficient that
/// the terms give the monomial.
pub proof fn lemma_coefficient_rearranged<R: Ring>(
    ts: Terms<R>,
    e: Seq<nat>,
    pm: Seq<usize>,
    inverse: bool,
)
    requires
        is_permutation(pm, e.len()),
        forall|i: int| 0 <= i < ts.len() ==> (#[trigger] ts[i]).1.len() == e.len(),
    ensures
        coefficient_in(rearranged(ts, pm, inverse), rearranged_vec(e, pm, inverse))
            == coefficient_in(ts, e),
    decreases ts.len(),
{
    if ts.len() > 0 {
        let init = ts.drop_last();
        let x = ts.last();
        assert(x == ts[ts.len() - 1]);
        assert forall|i: int| 0 <= i < init.len() implies (#[trigger] init[i]).1.len()
            == e.len() by {
            assert(init[i] == ts[i]);
        }
        lemma_coefficient_rearranged(init, e, pm, inverse);
        assert(rearranged(ts, pm, inverse).drop_last() =~= rearranged(init, pm, inverse));
        if rearranged_vec(x.1, pm, inverse) == rearranged_vec(e, pm, inverse) {
            lemma_rearranged_back(x.1, pm);
            lemma_rearranged_back(e, pm);
        }
    }
}

/// `rearrange(rearrange(A, perm, false), perm, true) == A`.
pub proof fn lemma_rearrange_round_trip<R: Ring>(
    a: Terms<R>,
    there: Terms<R>,
    back: Terms<R>,
    pm: Seq<usize>,
    nvars: nat,
)
    requires
        is_permutation(pm, nvars),
        canonical(a, nvars),
        canonical(there, nvars),
        canonical(back, nvars),
        stands_for(there, rearranged(a, pm, false)),
        stands_for(back, rearranged(there, pm, true)),
    ensures
        back == a,
{
    assert forall|e: Seq<nat>| coefficient_in(back, e) == coefficient_in(a, e) by {
        if e.len() == nvars {
            let f = rearranged_vec(e, pm, false);
            lemma_rearranged_back(e, pm);
            lemma_coefficient_rearranged(there, f, pm, true);
            lemma_coefficient_rearranged(a, e, pm, false);
            assert(coefficient_in(back, e) == coefficient_in(rearranged(there, pm, true), e));
            assert(coefficient_in(there, f) == coefficient_in(rearranged(a, pm, false), f));
        } else {
            lemma_coefficient_absent(back, e);
            lemma_coefficient_absent(a, e);
        }
    }
    lemma_canonical_unique(back, a, nvars);
}

impl<R: Ring, E: Exponent> MultivariatePolynomial<R, E> {
    /// A vector of `n` exponents zero.
    pub fn zero_exponents(n: usize) -> (r: Vec<E>)
        ensures
            r@.len() == n,
            forall|k: int| 0 <= k < n ==> (#[trigger] r@[k]).value() == 0,
    {
        let mut out: Vec<E> = Vec::with_capacity(n);
        let mut k: usize = 0;
        while k < n
            invariant
                k <= n,
                out@.len() == k,
                forall|j: int| 0 <= j < k ==> (#[trigger] out@[j]).value() == 0,
            decreases n - k,
        {
            out.push(E::zero());
            k = k + 1;
        }
        out
    }

    /// Change the order of the variables in the polynomial, using `varmap`:
    /// variable `x` of the result is variable `varmap[x]` of `self`. With
    /// `inverse`, the map is used the other way round: variable `varmap[x]`
    /// of the result is variable `x` of `self`.
    pub fn rearrange(&self, varmap: &[usize], inverse: bool) -> (r: Self)
        requires
            self.wf(),
            is_permutation(varmap@, self.nvars as nat),
        ensures
            r.wf(),
            r.nvars == self.nvars,
            stands_for(r@, rearranged(self@, varmap@, inverse)),
    {
        let nvars = self.nvars;
        let ghost pm = varmap@;
        let ghost target = rearranged(self@, pm, inverse);
        let mut res = Self::with_nvars(nvars);
        let mut newe = Self::zero_exponents(nvars);
        let mut i: usize = 0;
        proof {
            vstd::slice::axiom_spec_len(varmap);
            lemma_prefix_whole(target);
        }
        while i < self.nterms
            invariant
                self.wf(),
                nvars == self.nvars,
                pm == varmap@,
                is_permutation(pm, nvars as nat),
                target == rearranged(self@, pm, inverse),
                res.wf(),
                res.nvars == nvars,
                newe@.len() == nvars,
                i <= self.nterms,
                stands_for(res@, target.subrange(0, i as int)),
            decreases self.nterms - i,
        {
            let ghost e = self@[i as int].1;
            let mut x: usize = 0;
            while x < nvars
                invariant
                    self.wf(),
                    nvars == self.nvars,
                    pm == varmap@,
                    is_permutation(pm, nvars as nat),
                    i < self.nterms,
                    e == self@[i as int].1,
                    newe@.len() == nvars,
                    x <= nvars,
                    !inverse ==> forall|k: int|
                        0 <= k < x ==> (#[trigger] newe@[k]).value() == e[pm[k] as int],
                    inverse ==> forall|k: int|
                        0 <= k < x ==> (#[trigger] newe@[pm[k] as int]).value() == e[k],
                decreases nvars - x,
            {
                let ghost before = newe@;
                if !inverse {
                    let v = self.exponent(i, varmap[x]);
                    newe[x] = v;
                } else {
                    let v = self.exponent(i, x);
                    newe[varmap[x]] = v;
                    proof {
                        assert forall|k: int| 0 <= k < x + 1 implies (
                        #[trigger] newe@[pm[k] as int]).value() == e[k] by {
                            if k < x {
                                assert(pm[k] != pm[x as int]);
                                assert(newe@[pm[k] as int] == before[pm[k] as int]);
                            }
                        }
                    }
                }
                x = x + 1;
            }
            let ghost before = res@;
            assert(self@[i as int].0.wf());
            let appended = res.append_monomial(self.coefficients[i], newe.as_slice());
            proof {
                let t = target[i as int];
                assert(values(newe@) =~= t.1) by {
                    if inverse {
                        assert forall|y: int| 0 <= y < nvars implies values(newe@)[y] == e[source(
                            pm,
                            y,
                        )] by {
                            assert(has_source(pm, y));
                            let k = source(pm, y);
                            assert(pm[k] == y);
                        }
                    }
                }
                lemma_prefix_step(target, i as int);
                lemma_stands_for_step(before, res@, target.subrange(0, i as int), t);
            }
            i = i + 1;
        }
        proof {
            lemma_prefix_whole(target);
        }
        res
    }

    /// Replace the variable `n` in the polynomial by the element `v` of the
    /// ring: every term is multiplied by `v` to the power of its exponent
    /// of `n`, which becomes zero.
    pub fn replace(&self, n: usize, v: R) -> (r: Self)
        requires
            self.wf(),
            v.wf(),
            n < self.nvars || self.nterms == 0,
        ensures
            r.wf(),
            r.nvars == self.nvars,
            stands_for(r@, replaced(self@, n as int, v)),
    {
        let nvars = self.nvars;
        let ghost target = replaced(self@, n as int, v);
        let mut res = Self::with_nvars_and_capacity(nvars, self.nterms);
        let mut i: usize = 0;
        proof {
            lemma_prefix_whole(target);
        }
        while i < self.nterms
            invariant
                self.wf(),
                v.wf(),
                n < self.nvars || self.nterms == 0,
                nvars == self.nvars,
                target == replaced(self@, n as int, v),
                res.wf(),
                res.nvars == nvars,
                i <= self.nterms,
                stands_for(res@, target.subrange(0, i as int)),
            decreases self.nterms - i,
        {
            let ghost before = res@;
            assert(self@[i as int].0.wf());
            let c = self.coefficients[i].mul(power(v, self.exponent(i, n)));
            let mut e = slice_to_vec(self.exponents(i));
            e[n] = E::zero();
            let appended = res.append_monomial(c, e.as_slice());
            proof {
                let t = target[i as int];
                assert(values(e@) =~= t.1);
                lemma_prefix_step(target, i as int);
                lemma_stands_for_step(before, res@, target.subrange(0, i as int), t);
            }
            i = i + 1;
        }
        proof {
            lemma_prefix_whole(target);
        }
        res
    }
}

/// The coefficient `c` times the powers of the first `k` values of `r`, each
/// to the exponent that `e` has for its variable.
pub open spec fn evaluated_coefficient<R: Ring>(
    c: R,
    e: Seq<nat>,
    r: Seq<(usize, R)>,
    k: nat,
) -> R
    decreases k,
{
    if k == 0 {
        c
    } else {
        let before = evaluated_coefficient(c, e, r, (k - 1) as nat);
        let p = e[r[k - 1].0 as int];
        if p > 0 {
            before.mul_spec(pow_spec(r[k - 1].1, p))
        } else {
            before
        }
    }
}

/// The terms of `ts`, each with the variables of `r` replaced by their
/// values, and with only the exponent of the variable `v` left.
pub open spec fn evaluated<R: Ring>(ts: Terms<R>, v: int, r: Seq<(usize, R)>) -> Terms<R> {
    Seq::new(
        ts.len(),
        |i: int|
            (
                evaluated_coefficient(ts[i].0, ts[i].1, r, r.len()),
                Seq::new(ts[i].1.len(), |j: int| if j == v { ts[i].1[v] } else { 0nat }),
            ),
    )
}

/// No variable has two values in `r`.
pub open spec fn is_assignment<R: Ring>(r: Seq<(usize, R)>) -> bool {
    forall|k: int, l: int|
        0 <= k < r.len() && 0 <= l < r.len() && (#[trigger] r[k]).0 == (#[trigger] r[l]).0 ==> r[k].1
            == r[l].1
}

/// The cache holds ring elements, and for every variable of `r` a list
/// whose entry `p` is zero, for a power that was never asked for, or the
/// power `p` of the value of the variable.
pub open spec fn is_power_cache<R: Ring>(cache: Seq<Vec<R>>, r: Seq<(usize, R)>) -> bool {
    &&& forall|n: int, p: int|
        0 <= n < cache.len() && 0 <= p < cache[n]@.len() ==> (#[trigger] cache[n]@[p]).wf()
    &&& forall|k: int, p: int|
        0 <= k < r.len() && r[k].0 < cache.len() && 0 <= p < cache[r[k].0 as int]@.len() ==> {
            ||| (#[trigger] cache[(#[trigger] r[k]).0 as int]@[p]) == R::zero_spec()
            ||| cache[r[k].0 as int]@[p] == pow_spec(r[k].1, p as nat)
        }
}

/// The cache `after` is the cache `before` with the entry `p` of the
/// variable `n` filled with `value`, where that entry was zero.
pub open spec fn is_filled_at<R: Ring>(
    after: Seq<Vec<R>>,
    before: Seq<Vec<R>>,
    n: int,
    p: int,
    value: R,
) -> bool {
    forall|m: int, q: int|
        0 <= m < after.len() && 0 <= q < after[m]@.len() ==> (#[trigger] after[m]@[q]) == (if m
            == n && q == p && before[m]@[q] == R::zero_spec() {
            value
        } else {
            before[m]@[q]
        })
}

/// Term `t` asks for the power `p` of the value `k` of `r`, which is that of
/// the variable `n`.
pub open spec fn asks<R: Ring>(
    ts: Terms<R>,
    r: Seq<(usize, R)>,
    t: int,
    k: int,
    n: int,
    p: int,
) -> bool {
    r[k].0 == n && ts[t].1[n] == p && p > 0
}

/// One of the terms before term `t_end`, or term `t_end` with one of the
/// values before the value `k_end` of `r`, asks for the power `p` of the
/// value of the variable `n`.
pub open spec fn is_asked<R: Ring>(
    ts: Terms<R>,
    r: Seq<(usize, R)>,
    t_end: int,
    k_end: int,
    n: int,
    p: int,
) -> bool {
    exists|t: int, k: int|
        0 <= t < ts.len() && 0 <= k < r.len() && (t < t_end || (t == t_end && k < k_end))
            && #[trigger] asks(ts, r, t, k, n, p)
}

/// The value of the variable `n` in `r`.
pub open spec fn value_of<R: Ring>(r: Seq<(usize, R)>, n: int) -> R {
    r[choose|k: int| 0 <= k < r.len() && (#[trigger] r[k]).0 == n].1
}

/// The cache `after` is the cache `before` with the entries filled that were
/// zero and that were asked for by the terms before term `t_end`, or by
/// term `t_end` for the values before the value `k_end` of `r`.
pub open spec fn is_filled<R: Ring>(
    after: Seq<Vec<R>>,
    before: Seq<Vec<R>>,
    ts: Terms<R>,
    r: Seq<(usize, R)>,
    t_end: int,
    k_end: int,
) -> bool {
    forall|n: int, p: int|
        0 <= n < after.len() && 0 <= p < after[n]@.len() ==> (#[trigger] after[n]@[p]) == (
        if before[n]@[p] == R::zero_spec() && is_asked(ts, r, t_end, k_end, n, p) {
            pow_spec(value_of(r, n), p as nat)
        } else {
            before[n]@[p]
        })
}

/// One more value was looked at for a term: the cache is as it was, where
/// the term does not have the variable of the value, and else has the power
/// filled that the term asks for.
pub proof fn lemma_filled_step<R: Ring>(
    next: Seq<Vec<R>>,
    cur: Seq<Vec<R>>,
    before: Seq<Vec<R>>,
    ts: Terms<R>,
    r: Seq<(usize, R)>,
    t: int,
    k: int,
)
    requires
        0 <= t < ts.len(),
        0 <= k < r.len(),
        is_assignment(r),
        next.len() == cur.len(),
        cur.len() == before.len(),
        forall|n: int| 0 <= n < cur.len() ==> (#[trigger] next[n])@.len() == cur[n]@.len(),
        forall|n: int| 0 <= n < cur.len() ==> (#[trigger] cur[n])@.len() == before[n]@.len(),
        is_filled(cur, before, ts, r, t, k),
        ts[t].1[r[k].0 as int] == 0 ==> next == cur,
        ts[t].1[r[k].0 as int] > 0 ==> is_filled_at(
            next,
            cur,
            r[k].0 as int,
            ts[t].1[r[k].0 as int] as int,
            pow_spec(r[k].1, ts[t].1[r[k].0 as int]),
        ),
    ensures
        is_filled(next, before, ts, r, t, k + 1),
{
    let n0 = r[k].0 as int;
    let x = ts[t].1[n0] as int;
    assert forall|n: int, p: int| 0 <= n < next.len() && 0 <= p < next[n]@.len() implies (
    #[trigger] next[n]@[p]) == (if before[n]@[p] == R::zero_spec() && is_asked(
        ts,
        r,
        t,
        k + 1,
        n,
        p,
    ) {
        pow_spec(value_of(r, n), p as nat)
    } else {
        before[n]@[p]
    }) by {
        assert(cur[n]@.len() == before[n]@.len());
        assert(next[n]@.len() == cur[n]@.len());
        let here = n == n0 && p == x && x > 0;
        // what is asked for now is what was asked for, and what this value asks for
        assert(is_asked(ts, r, t, k + 1, n, p) == (is_asked(ts, r, t, k, n, p) || here)) by {
            if is_asked(ts, r, t, k, n, p) {
                let (t1, k1) = choose|t1: int, k1: int|
                    0 <= t1 < ts.len() && 0 <= k1 < r.len() && (t1 < t || (t1 == t && k1 < k))
                        && #[trigger] asks(ts, r, t1, k1, n, p);
                assert(asks(ts, r, t1, k1, n, p));
            }
            if here {
                assert(asks(ts, r, t, k, n, p));
            }
            if is_asked(ts, r, t, k + 1, n, p) {
                let (t1, k1) = choose|t1: int, k1: int|
                    0 <= t1 < ts.len() && 0 <= k1 < r.len() && (t1 < t || (t1 == t && k1 < k + 1))
                        && #[trigger] asks(ts, r, t1, k1, n, p);
                if !(t1 == t && k1 == k) {
                    assert(asks(ts, r, t1, k1, n, p));
                }
            }
        }
        let c = cur[n]@[p];
        assert(c == (if before[n]@[p] == R::zero_spec() && is_asked(ts, r, t, k, n, p) {
            pow_spec(value_of(r, n), p as nat)
        } else {
            before[n]@[p]
        }));
        if here {
            // the value of the variable is the value that was looked at
            let l = choose|l: int| 0 <= l < r.len() && (#[trigger] r[l]).0 == n;
            assert(r[k].0 == n);
            assert(r[l].1 == r[k].1);
        }
    }
}

/// Once all values were looked at for a term, the next term comes.
pub proof fn lemma_filled_next<R: Ring>(
    cache: Seq<Vec<R>>,
    before: Seq<Vec<R>>,
    ts: Terms<R>,
    r: Seq<(usize, R)>,
    t: int,
)
    requires
        0 <= t < ts.len(),
        is_filled(cache, before, ts, r, t, r.len() as int),
    ensures
        is_filled(cache, before, ts, r, t + 1, 0),
{
    assert forall|n: int, p: int| 0 <= n < cache.len() && 0 <= p < cache[n]@.len() implies (
    #[trigger] cache[n]@[p]) == (if before[n]@[p] == R::zero_spec() && is_asked(
        ts,
        r,
        t + 1,
        0,
        n,
        p,
    ) {
        pow_spec(value_of(r, n), p as nat)
    } else {
        before[n]@[p]
    }) by {
        assert(is_asked(ts, r, t + 1, 0, n, p) == is_asked(ts, r, t, r.len() as int, n, p)) by {
            if is_asked(ts, r, t + 1, 0, n, p) {
                let (t1, k1) = choose|t1: int, k1: int|
                    0 <= t1 < ts.len() && 0 <= k1 < r.len() && (t1 < t + 1 || (t1 == t + 1 && k1
                        < 0)) && #[trigger] asks(ts, r, t1, k1, n, p);
                assert(asks(ts, r, t1, k1, n, p));
            }
            if is_asked(ts, r, t, r.len() as int, n, p) {
                let (t1, k1) = choose|t1: int, k1: int|
                    0 <= t1 < ts.len() && 0 <= k1 < r.len() && (t1 < t || (t1 == t && k1
                        < r.len())) && #[trigger] asks(ts, r, t1, k1, n, p);
                assert(asks(ts, r, t1, k1, n, p));
            }
        }
    }
}

/// The power `e` of the value `vv` of the variable `n`, from the cache where
/// it has room for it.
pub fn cached_power<R: Ring, E: Exponent>(
    cache: &mut Vec<Vec<R>>,
    r: &[(usize, R)],
    k: usize,
    e: E,
) -> (pw: R)
    requires
        k < r@.len(),
        r@[k as int].0 < old(cache)@.len(),
        r@[k as int].1.wf(),
        is_power_cache(old(cache)@, r@),
        is_assignment(r@),
    ensures
        pw == pow_spec(r@[k as int].1, e.value()),
        pw.wf(),
        is_power_cache(final(cache)@, r@),
        final(cache)@.len() == old(cache)@.len(),
        forall|n: int|
            0 <= n < final(cache)@.len() ==> (#[trigger] final(cache)@[n])@.len() == old(cache)@[n]@.len(),
        is_filled_at(
            final(cache)@,
            old(cache)@,
            r@[k as int].0 as int,
            e.value() as int,
            pow_spec(r@[k as int].1, e.value()),
        ),
{
    let n = r[k].0;
    let vv = r[k].1;
    let ghost c0 = cache@;
    match e.to_index() {
        Some(p) => {
            if p < cache[n].len() {
                assert(cache@[n as int]@[p as int].wf());
                if cache[n][p].is_zero() {
                    let pw = power(vv, e);
                    let mut row = cache.remove(n);
                    row[p] = pw;
                    let ghost new_row = row@;
                    cache.insert(n, row);
                    proof {
                        assert(cache@.len() == c0.len());
                        assert forall|m: int| 0 <= m < cache@.len() implies (
                        #[trigger] cache@[m])@.len() == c0[m]@.len() && (m != n ==> cache@[m]
                            == c0[m]) by {}
                        assert(cache@[n as int]@ == c0[n as int]@.update(p as int, pw));
                        assert forall|m: int, q: int|
                            0 <= m < cache@.len() && 0 <= q < cache@[m]@.len() implies (
                        #[trigger] cache@[m]@[q]) == (if m == n && q == p && c0[m]@[q]
                            == R::zero_spec() {
                            pw
                        } else {
                            c0[m]@[q]
                        }) by {
                            if m != n {
                                assert(cache@[m] == c0[m]);
                            }
                        }
                        assert forall|m: int, q: int|
                            0 <= m < cache@.len() && 0 <= q < cache@[m]@.len() implies (
                        #[trigger] cache@[m]@[q]).wf() by {
                            assert(c0[m]@[q].wf());
                        }
                        assert forall|l: int, q: int|
                            0 <= l < r@.len() && r@[l].0 < cache@.len() && 0 <= q
                                < cache@[r@[l].0 as int]@.len() implies {
                            ||| (#[trigger] cache@[(#[trigger] r@[l]).0 as int]@[q])
                                == R::zero_spec()
                            ||| cache@[r@[l].0 as int]@[q] == pow_spec(r@[l].1, q as nat)
                        } by {
                            let m = r@[l].0 as int;
                            assert(c0[m]@[q] == R::zero_spec() || c0[m]@[q] == pow_spec(
                                r@[l].1,
                                q as nat,
                            ));
                            if m == n && q == p {
                                assert(r@[l].1 == r@[k as int].1);
                            }
                        }
                    }
                    pw
                } else {
                    cache[n][p]
                }
            } else {
                power(vv, e)
            }
        },
        None => {
            proof {
                assert forall|m: int, q: int|
                    0 <= m < cache@.len() && 0 <= q < cache@[m]@.len() implies (
                #[trigger] cache@[m]@[q]) == cache@[m]@[q] && q != e.value() by {
                    assert(cache@[m]@.len() == cache@[m].len());
                }
            }
            power(vv, e)
        },
    }
}

/// The terms of `ts`, each with the variable `n` replaced by `v`.
pub open spec fn replaced<R: Ring>(ts: Terms<R>, n: int, v: R) -> Terms<R> {
    Seq::new(
        ts.len(),
        |i: int| (ts[i].0.mul_spec(pow_spec(v, ts[i].1[n])), ts[i].1.update(n, 0nat)),
    )
}

/// Computes `x^n` in the ring, with `x^0 == 1`, by `n` multiplications.
pub fn power<R: Ring, E: Exponent>(x: R, n: E) -> (r: R)
    requires
        x.wf(),
    ensures
        r == pow_spec(x, n.value()),
        r.wf(),
{
    let mut r = R::one();
    let mut left = n;
    let ghost mut done: nat = 0;
    while !left.is_zero()
        invariant
            x.wf(),
            r.wf(),
            done + left.value() == n.value(),
            r == pow_spec(x, done),
        decreases left.value(),
    {
        r = r.mul(x);
        left = left.minus(E::one());
        proof {
            done = done + 1;
        }
    }
    r
}

impl<R: Ring, E: Exponent> MultivariatePolynomial<R, E> {
    /// Replace all variables of `r` in the polynomial by their values, and
    /// keep of the others only the variable `v`. A power of a value is taken
    /// from the `cache` of its variable where that has an entry for the
    /// exponent, and is put there where the entry is still zero.
    pub fn replace_all_except(&self, v: usize, r: &[(usize, R)], cache: &mut Vec<Vec<R>>) -> (res:
        Self)
        requires
            self.wf(),
            v < self.nvars || self.nterms == 0,
            forall|k: int|
                0 <= k < r@.len() ==> {
                    &&& (#[trigger] r@[k]).0 < self.nvars || self.nterms == 0
                    &&& r@[k].0 < old(cache)@.len()
                    &&& r@[k].1.wf()
                },
            is_assignment(r@),
            is_power_cache(old(cache)@, r@),
        ensures
            res.wf(),
            res.nvars == self.nvars,
            stands_for(res@, evaluated(self@, v as int, r@)),
            is_power_cache(final(cache)@, r@),
            final(cache)@.len() == old(cache)@.len(),
            forall|n: int|
                0 <= n < final(cache)@.len() ==> (#[trigger] final(cache)@[n])@.len() == old(
                    cache,
                )@[n]@.len(),
            is_filled(final(cache)@, old(cache)@, self@, r@, self.nterms as int, 0),
    {
        let nvars = self.nvars;
        let ghost ts = self@;
        let ghost target = evaluated(ts, v as int, r@);
        let ghost c0 = cache@;
        let mut res = Self::with_nvars(nvars);
        let mut e = Self::zero_exponents(nvars);
        let mut t: usize = 0;
        proof {
            vstd::slice::axiom_spec_len(r);
            lemma_prefix_whole(target);
        }
        while t < self.nterms
            invariant
                self.wf(),
                ts == self@,
                nvars == self.nvars,
                v < nvars || self.nterms == 0,
                target == evaluated(ts, v as int, r@),
                forall|k: int|
                    0 <= k < r@.len() ==> {
                        &&& (#[trigger] r@[k]).0 < self.nvars || self.nterms == 0
                        &&& r@[k].0 < cache@.len()
                        &&& r@[k].1.wf()
                    },
                is_assignment(r@),
                is_power_cache(cache@, r@),
                cache@.len() == c0.len(),
                forall|n: int| 0 <= n < cache@.len() ==> (#[trigger] cache@[n])@.len() == c0[n]@.len(),
                is_filled(cache@, c0, ts, r@, t as int, 0),
                res.wf(),
                res.nvars == nvars,
                e@.len() == nvars,
                forall|k: int| 0 <= k < nvars ==> (#[trigger] e@[k]).value() == 0,
                t <= self.nterms,
                stands_for(res@, target.subrange(0, t as int)),
            decreases self.nterms - t,
        {
            assert(ts[t as int].0.wf());
            let mut c = self.coefficients[t];
            let mut k: usize = 0;
            while k < r.len()
                invariant
                    self.wf(),
                    ts == self@,
                    t < self.nterms,
                    forall|k: int|
                        0 <= k < r@.len() ==> {
                            &&& (#[trigger] r@[k]).0 < self.nvars || self.nterms == 0
                            &&& r@[k].0 < cache@.len()
                            &&& r@[k].1.wf()
                        },
                    is_assignment(r@),
                    is_power_cache(cache@, r@),
                    cache@.len() == c0.len(),
                    forall|n: int|
                        0 <= n < cache@.len() ==> (#[trigger] cache@[n])@.len() == c0[n]@.len(),
                    is_filled(cache@, c0, ts, r@, t as int, k as int),
                    k <= r@.len(),
                    c.wf(),
                    c == evaluated_coefficient(ts[t as int].0, ts[t as int].1, r@, k as nat),
                decreases r@.len() - k,
            {
                let n = r[k].0;
                let x = self.exponent(t, n);
                let ghost c1 = cache@;
                if !x.is_zero() {
                    let pw = cached_power(cache, r, k, x);
                    c = c.mul(pw);
                }
                proof {
                    lemma_filled_step(cache@, c1, c0, ts, r@, t as int, k as int);
                }
                k = k + 1;
            }
            let ghost before = res@;
            e[v] = self.exponent(t, v);
            let appended = res.append_monomial(c, e.as_slice());
            proof {
                lemma_filled_next(cache@, c0, ts, r@, t as int);
                let x = target[t as int];
                assert(values(e@) =~= x.1);
                lemma_prefix_step(target, t as int);
                lemma_stands_for_step(before, res@, target.subrange(0, t as int), x);
            }
            e[v] = E::zero();
            t = t + 1;
        }
        proof {
            lemma_prefix_whole(target);
        }
        res
    }
}

} // verus!
