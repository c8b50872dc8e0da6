//! Division with remainder of multivariate polynomials.

use vstd::prelude::*;
use crate::error::KernelError;
use crate::poly::exponent::Exponent;
use crate::poly::raw::division_theory::{
    descending, division_state, irreducible, is_division, is_dominated,
    lemma_univariate_dominated, lemma_coefficient_reverse,
    lemma_exact_quotient, lemma_le_less, lemma_lex_add_cancel, lemma_long_step,
    lemma_pending_changed, lemma_pending_delivered, lemma_pending_wf, lemma_product_reverse,
    lemma_product_single, lemma_products_pending, lemma_products_start, lemma_products_step,
    lemma_rank_less, lemma_reverse_canonical, lemma_shifted_by_one, lemma_state_idle,
    lemma_state_quotient, lemma_state_remainder, lemma_state_same, lemma_state_start,
    lemma_state_take, lemma_sum_same, lemma_take_start, lemma_take_step, pending_terms,
    lemma_term_count, products_state, quotient_bounded, root_rank, single, term_quotients,
    term_rests, terms_among, terms_bounded, top_rank,
};
use crate::poly::raw::quotient::{
    lemma_below_top, lemma_bounded_push, lemma_bounded_reverse, lemma_terms_bounded_push,
    division_overflows, is_quotient_start, is_whole_quotient, lemma_fits_push, lemma_long_end,
    lemma_long_next, lemma_no_overflow, lemma_queue_end, lemma_queue_quotient,
    lemma_quotient_above, lemma_start_push, quotient_above,
};
use crate::poly::raw::heap::{has_item, items_within, lemma_root_is_largest, Item, TermHeap};
use crate::poly::raw::laws::{lemma_product_coefficient_commutative, lemma_product_wf, uniform};
use crate::poly::raw::monomial::{divisible, Monomial};
use crate::poly::raw::multivar::{values, MultivariatePolynomial, TermOrder};
use crate::poly::raw::terms::{
    canonical, coefficient_in, coefficients_wf, is_sum_with_term, lemma_canonical_push, is_sum,
    lemma_canonical_wf, lemma_merge_left, lemma_merge_right, lemma_merge_start,
    lemma_coefficient_wf, lemma_coefficients_wf_parts, lemma_lex_add, lemma_lex_asymmetric,
    lemma_lex_irreflexive,
    lemma_lex_total, lemma_lex_transitive, lemma_prefix_step, lemma_prefix_whole, lemma_shifted_wf,
    lex_less, product_coefficient, product_overflows, shift_overflows, shifted, term_at, vec_add,
    Terms,
};
use crate::poly::raw::zp::UnsignedInteger;
use crate::poly::ring::{lemma_neg_zero, Ring};

verus! {

/// A strictly decreasing term list stays so when a smaller term is put
/// behind it.
pub proof fn lemma_descending_push<R: Ring>(ts: Terms<R>, nvars: nat, t: (R, Seq<nat>))
    requires
        descending(ts, nvars),
        t.0.wf(),
        t.0 != R::zero_spec(),
        t.1.len() == nvars,
        ts.len() > 0 ==> lex_less(t.1, ts.last().1),
    ensures
        descending(ts.push(t), nvars),
{
    let r = ts.push(t);
    assert forall|i: int, j: int| 0 <= i < j < r.len() implies lex_less(
        #[trigger] r[j].1,
        #[trigger] r[i].1,
    ) by {
        if j == ts.len() {
            if i < ts.len() - 1 {
                assert(lex_less(ts[ts.len() - 1].1, ts[i].1));
                lemma_lex_transitive(t.1, ts.last().1, ts[i].1);
            }
        } else {
            assert(lex_less(ts[j].1, ts[i].1));
        }
    }
}

/// The item of the term `i` of the dividend `a` in the queue.
pub open spec fn dividend_item<R: Ring>(a: Terms<R>, i: int) -> Item<R> {
    (a[i], (i as usize, usize::MAX))
}

/// An item is marked as a term of the dividend only if it is one that has
/// come to the queue: the first `u` terms of the dividend `a` have not.
pub open spec fn marks_fit<R: Ring>(items: Seq<Item<R>>, a: Terms<R>, u: int) -> bool {
    forall|k: int|
        0 <= k < items.len() && (#[trigger] items[k]).1.1 == usize::MAX ==> u <= items[k].1.0
            < a.len() && items[k].0 == a[items[k].1.0 as int]
}

/// What holds of the queue between two steps of the division: while terms
/// of the dividend have not come to the queue, the smallest that has come
/// is in it.
pub open spec fn queue_state<R: Ring>(items: Seq<Item<R>>, a: Terms<R>, u: int) -> bool {
    &&& 0 <= u <= a.len()
    &&& a.len() <= usize::MAX
    &&& u > 0 ==> has_item(items, dividend_item(a, u))
    &&& marks_fit(items, a, u)
}

/// What holds of the queue after an item with the origin `taken` was taken
/// out: as `queue_state`, but where the item was the smallest term of the
/// dividend that has come, it is not in the queue.
pub open spec fn queue_state_but<R: Ring>(
    items: Seq<Item<R>>,
    a: Terms<R>,
    u: int,
    taken: (usize, usize),
) -> bool {
    &&& 0 <= u <= a.len()
    &&& a.len() <= usize::MAX
    &&& u > 0 && taken != (u as usize, usize::MAX) ==> has_item(items, dividend_item(a, u))
    &&& u > 0 && taken == (u as usize, usize::MAX) ==> u < a.len()
    &&& marks_fit(items, a, u)
}

/// The queue with the leading term of the dividend alone.
pub proof fn lemma_queue_start<R: Ring>(
    empty: Seq<Item<R>>,
    items: Seq<Item<R>>,
    a: Terms<R>,
    top: int,
)
    requires
        empty.len() == 0,
        a.len() > 0,
        a.len() <= usize::MAX,
        top == a.len() - 1,
        items_within(items, empty.push(dividend_item(a, top))),
        items_within(empty.push(dividend_item(a, top)), items),
    ensures
        queue_state(items, a, top),
{
    let one = empty.push(dividend_item(a, top));
    assert(has_item(items, one[0]));
    assert forall|k: int|
        0 <= k < items.len() && (#[trigger] items[k]).1.1 == usize::MAX implies top <= items[k].1.0
        < a.len() && items[k].0 == a[items[k].1.0 as int] by {
        assert(has_item(one, items[k]));
        let l = choose|l: int| 0 <= l < one.len() && #[trigger] one[l] == items[k];
    }
}

/// The queue after its root was taken out.
pub proof fn lemma_queue_popped<R: Ring>(
    before: Seq<Item<R>>,
    after: Seq<Item<R>>,
    a: Terms<R>,
    u: int,
)
    requires
        before.len() > 0,
        queue_state(before, a, u),
        items_within(after, before),
        forall|l: int| 1 <= l < before.len() ==> has_item(after, #[trigger] before[l]),
    ensures
        queue_state_but(after, a, u, before[0].1),
{
    assert forall|k: int|
        0 <= k < after.len() && (#[trigger] after[k]).1.1 == usize::MAX implies u <= after[k].1.0
        < a.len() && after[k].0 == a[after[k].1.0 as int] by {
        assert(has_item(before, after[k]));
        let l = choose|l: int| 0 <= l < before.len() && #[trigger] before[l] == after[k];
    }
    if u > 0 {
        let l = choose|l: int| 0 <= l < before.len() && #[trigger] before[l] == dividend_item(a, u);
        if before[0].1 != (u as usize, usize::MAX) {
            assert(l >= 1);
            assert(has_item(after, before[l]));
        } else {
            assert(before[0].1.1 == usize::MAX);
        }
    }
}

/// The queue after the next term of the dividend has come to it.
pub proof fn lemma_queue_delivered<R: Ring>(
    before: Seq<Item<R>>,
    after: Seq<Item<R>>,
    a: Terms<R>,
    u: int,
)
    requires
        0 < u < a.len(),
        a.len() <= usize::MAX,
        marks_fit(before, a, u),
        items_within(after, before.push(dividend_item(a, u - 1))),
        items_within(before.push(dividend_item(a, u - 1)), after),
    ensures
        queue_state(after, a, u - 1),
        queue_state_but(after, a, u - 1, (u as usize, usize::MAX)),
{
    let more = before.push(dividend_item(a, u - 1));
    assert(has_item(after, more[before.len() as int]));
    assert forall|k: int|
        0 <= k < after.len() && (#[trigger] after[k]).1.1 == usize::MAX implies u - 1
        <= after[k].1.0 < a.len() && after[k].0 == a[after[k].1.0 as int] by {
        assert(has_item(more, after[k]));
        let l = choose|l: int| 0 <= l < more.len() && #[trigger] more[l] == after[k];
        if l < before.len() {
            assert(more[l] == before[l]);
        }
    }
}

/// The queue where no term of the dividend has to come to it.
pub proof fn lemma_queue_kept<R: Ring>(
    items: Seq<Item<R>>,
    a: Terms<R>,
    u: int,
    taken: (usize, usize),
)
    requires
        queue_state_but(items, a, u, taken),
        !(taken.1 == usize::MAX && taken.0 == u && u > 0),
    ensures
        queue_state(items, a, u),
{
}

/// The queue after a product has come to it.
pub proof fn lemma_queue_pushed<R: Ring>(
    before: Seq<Item<R>>,
    after: Seq<Item<R>>,
    x: Item<R>,
    a: Terms<R>,
    u: int,
)
    requires
        queue_state(before, a, u),
        x.1.1 != usize::MAX,
        items_within(after, before.push(x)),
        items_within(before.push(x), after),
    ensures
        queue_state(after, a, u),
{
    let more = before.push(x);
    assert forall|k: int|
        0 <= k < after.len() && (#[trigger] after[k]).1.1 == usize::MAX implies u <= after[k].1.0
        < a.len() && after[k].0 == a[after[k].1.0 as int] by {
        assert(has_item(more, after[k]));
        let l = choose|l: int| 0 <= l < more.len() && #[trigger] more[l] == after[k];
        if l < before.len() {
            assert(more[l] == before[l]);
        }
    }
    if u > 0 {
        let l = choose|l: int| 0 <= l < before.len() && #[trigger] before[l] == dividend_item(a, u);
        assert(more[l] == before[l]);
        assert(has_item(after, more[l]));
    }
}

/// `a < b` and `b <= c` give `a < c`, for exponent vectors of one length.
pub proof fn lemma_less_le(a: Seq<nat>, b: Seq<nat>, c: Seq<nat>)
    requires
        b.len() == c.len(),
        lex_less(a, b),
        !lex_less(c, b),
    ensures
        lex_less(a, c),
{
    lemma_lex_total(b, c);
    if b != c {
        lemma_lex_transitive(a, b, c);
    }
}

/// A polynomial is itself plus a term with the coefficient zero.
pub proof fn lemma_sum_with_zero<R: Ring>(ts: Terms<R>, e0: Seq<nat>)
    requires
        coefficients_wf(ts),
    ensures
        is_sum_with_term(ts, ts, (R::zero_spec(), e0)),
{
    assert forall|e: Seq<nat>| #[trigger]
        coefficient_in(ts, e) == coefficient_in(ts, e).add_spec(
            term_at((R::zero_spec(), e0), e),
        ) by {
        lemma_coefficient_wf(ts, e);
        R::lemma_add_zero(coefficient_in(ts, e));
    }
}

impl<R: Ring, E: Exponent> MultivariatePolynomial<R, E> {
    /// No exponent exceeds the largest number of the exponent type.
    pub proof fn lemma_exponents_bounded(self)
        requires
            self.shaped(),
        ensures
            forall|i: int, k: int|
                0 <= i < self.nterms && 0 <= k < self.nvars ==> (#[trigger] self@[i].1[k])
                    <= E::max(),
    {
        assert forall|i: int, k: int| 0 <= i < self.nterms && 0 <= k < self.nvars implies (
        #[trigger] self@[i].1[k]) <= E::max() by {
            E::value_in_range(self.exponents@[i * self.nvars + k]);
        }
    }

    /// The terms in reverse order.
    pub fn reversed(&self) -> (r: Self)
        requires
            self.shaped(),
        ensures
            r.shaped(),
            r.nvars == self.nvars,
            r@ == self@.reverse(),
    {
        let mut out = Self::with_nvars_and_capacity(self.nvars, self.nterms);
        let mut i: usize = self.nterms;
        while i > 0
            invariant
                self.shaped(),
                out.shaped(),
                out.nvars == self.nvars,
                i <= self.nterms,
                out@ == self@.reverse().subrange(0, self.nterms - i),
            decreases i,
        {
            i = i - 1;
            let at = self.offset(i);
            out.push_term(self.coefficients[i], self.exponents.as_slice(), at);
            proof {
                lemma_prefix_step(self@.reverse(), self.nterms - i - 1);
            }
        }
        proof {
            lemma_prefix_whole(self@.reverse());
        }
        out
    }

    /// Takes the largest term out of the queue, together with all terms of
    /// the same exponents, and hands back their sum. Where a term of the
    /// dividend is taken out, the next smaller term of the dividend comes to
    /// the queue.
    fn take_largest(&self, h: &mut TermHeap<R, E>, undelivered: &mut usize) -> (t: Monomial<R, E>)
        requires
            self.wf(),
            old(h).wf(),
            old(h).terms.nvars == self.nvars,
            old(h).terms.nterms > 0,
            queue_state(old(h).items(), self@, *old(undelivered) as int),
        ensures
            final(h).wf(),
            final(h).terms.nvars == self.nvars,
            queue_state(final(h).items(), self@, *final(undelivered) as int),
            *final(undelivered) <= *old(undelivered),
            t.coefficient.wf(),
            t.exponents@.len() == self.nvars,
            t@.1 == old(h)@[0].1,
            is_sum_with_term(
                pending_terms(old(h)@, self@, *old(undelivered) as int),
                pending_terms(final(h)@, self@, *final(undelivered) as int),
                t@,
            ),
            forall|k: int| 0 <= k < final(h)@.len() ==> lex_less((#[trigger] final(h)@[k]).1, t@.1),
            forall|i: int|
                0 <= i < *final(undelivered) ==> lex_less((#[trigger] self@[i]).1, t@.1),
    {
        let ghost a = self@;
        let ghost nv = self.nvars as nat;
        let ghost h0 = *h;
        let ghost u0 = *undelivered as int;
        let ghost start = pending_terms(h0@, a, u0);
        let ghost e0 = h0@[0].1;
        proof {
            lemma_canonical_wf(a, nv);
            // the terms of the dividend that have not come yet are smaller
            if u0 > 0 {
                let l = choose|l: int|
                    0 <= l < h0.items().len() && #[trigger] h0.items()[l] == dividend_item(a, u0);
                lemma_root_is_largest(h0@, nv, l);
                assert(h0@[l] == a[u0]);
                assert forall|i: int| 0 <= i < u0 implies lex_less((#[trigger] a[i]).1, e0) by {
                    assert(lex_less(a[i].1, a[u0].1));
                    lemma_less_le(a[i].1, a[u0].1, e0);
                }
            }
        }
        let first = h.pop();
        let mut t = first.0;
        proof {
            lemma_pending_wf(h0@, a, u0);
            lemma_pending_wf(h@, a, u0);
            lemma_pending_changed(h0@, h@, t@, a, u0);
            lemma_queue_popped(h0.items(), h.items(), a, u0);
            assert forall|k: int| 0 <= k < h@.len() implies !lex_less(e0, (#[trigger] h@[k]).1) by {
                assert(has_item(h0.items(), h.items()[k]));
                let l = choose|l: int|
                    0 <= l < h0.items().len() && #[trigger] h0.items()[l] == h.items()[k];
                assert(h0@[l] == h@[k]);
            }
            if first.1 == (*undelivered, usize::MAX) && *undelivered > 0 {
                assert(h0.items()[0].0 == a[u0]);
                assert(lex_less(a[u0 - 1].1, a[u0].1));
            }
        }
        let mut origin = first.1;
        let mut going = true;
        while going
            invariant
                self.wf(),
                a == self@,
                nv == self.nvars,
                coefficients_wf(a),
                h.wf(),
                h.terms.nvars == self.nvars,
                *undelivered <= u0,
                u0 <= a.len(),
                t.coefficient.wf(),
                t.exponents@.len() == self.nvars,
                t@.1 == e0,
                start == pending_terms(h0@, a, u0),
                is_sum_with_term(start, pending_terms(h@, a, *undelivered as int), t@),
                forall|k: int| 0 <= k < h@.len() ==> !lex_less(e0, (#[trigger] h@[k]).1),
                forall|i: int| 0 <= i < *undelivered ==> lex_less((#[trigger] a[i]).1, e0),
                going ==> queue_state_but(h.items(), a, *undelivered as int, origin),
                !going ==> queue_state(h.items(), a, *undelivered as int),
                !going ==> forall|k: int|
                    0 <= k < h@.len() ==> lex_less((#[trigger] h@[k]).1, e0),
            decreases h.terms.nterms + *undelivered, (if going { 1nat } else { 0nat }),
        {
            // the next term of the dividend, where one was taken out
            if origin.1 == usize::MAX && origin.0 == *undelivered && *undelivered > 0 {
                let ghost before = *h;
                let next = *undelivered - 1;
                assert(a[next as int].0.wf());
                let exponents = self.exponents(next);
                h.push(self.coefficients[next], exponents, (next, usize::MAX));
                proof {
                    assert(values(exponents@) == a[next as int].1);
                    lemma_pending_delivered(before@, h@, a, *undelivered as int);
                    lemma_sum_same(
                        start,
                        pending_terms(before@, a, *undelivered as int),
                        pending_terms(h@, a, next as int),
                        t@,
                    );
                    lemma_queue_delivered(before.items(), h.items(), a, *undelivered as int);
                    let more = before.items().push(dividend_item(a, next as int));
                    assert forall|k: int| 0 <= k < h@.len() implies !lex_less(
                        e0,
                        (#[trigger] h@[k]).1,
                    ) by {
                        assert(has_item(more, h.items()[k]));
                        let l = choose|l: int|
                            0 <= l < more.len() && #[trigger] more[l] == h.items()[k];
                        if l < before.items().len() {
                            assert(before@[l] == h@[k]);
                        } else {
                            lemma_lex_asymmetric(a[next as int].1, e0);
                        }
                    }
                }
                *undelivered = next;
            } else {
                proof {
                    lemma_queue_kept(h.items(), a, *undelivered as int, origin);
                }
            }
            // one more term with the same exponents?
            if h.len() > 0 && h.terms.compare_term(0, t.exponents.as_slice(), 0)
                == TermOrder::Equal {
                let ghost before = *h;
                let ghost tb = t@;
                let more = h.pop();
                proof {
                    lemma_pending_wf(before@, a, *undelivered as int);
                    lemma_pending_wf(h@, a, *undelivered as int);
                    lemma_pending_changed(before@, h@, more.0@, a, *undelivered as int);
                    lemma_take_step(
                        start,
                        pending_terms(before@, a, *undelivered as int),
                        pending_terms(h@, a, *undelivered as int),
                        tb,
                        more.0@,
                    );
                    lemma_queue_popped(before.items(), h.items(), a, *undelivered as int);
                    assert forall|k: int| 0 <= k < h@.len() implies !lex_less(
                        e0,
                        (#[trigger] h@[k]).1,
                    ) by {
                        assert(has_item(before.items(), h.items()[k]));
                        let l = choose|l: int|
                            0 <= l < before.items().len() && #[trigger] before.items()[l]
                                == h.items()[k];
                        assert(before@[l] == h@[k]);
                    }
                }
                t.coefficient = t.coefficient.add(more.0.coefficient);
                origin = more.1;
            } else {
                proof {
                    // what is left is smaller than the term that was taken
                    assert forall|k: int| 0 <= k < h@.len() implies lex_less(
                        (#[trigger] h@[k]).1,
                        e0,
                    ) by {
                        lemma_root_is_largest(h@, nv, k);
                        lemma_lex_total(h@[0].1, e0);
                        lemma_le_less(h@[k].1, h@[0].1, e0);
                    }
                }
                going = false;
            }
        }
        t
    }

    /// Puts the products of the term `qt` of the quotient with all terms of
    /// `div` but the leading one into the queue, negated, each with the
    /// index of its term of `div` and the index `qindex` of `qt`.
    fn push_products(
        h: &mut TermHeap<R, E>,
        div: &Self,
        qt: &Monomial<R, E>,
        qindex: usize,
        Ghost(a): Ghost<Terms<R>>,
        Ghost(u): Ghost<int>,
    ) -> (res: Result<(), KernelError>)
        requires
            old(h).wf(),
            div.wf(),
            div.nterms > 0,
            div.nvars == old(h).terms.nvars,
            qt.exponents@.len() == div.nvars,
            qt.coefficient.wf(),
            qindex < usize::MAX,
            queue_state(old(h).items(), a, u),
            forall|k: int|
                0 <= k < old(h)@.len() ==> lex_less(
                    (#[trigger] old(h)@[k]).1,
                    vec_add(div@.last().1, qt@.1),
                ),
            forall|k: int| 0 <= k < div.nvars ==> div@.last().1[k] + qt@.1[k] <= E::max(),
        ensures
            final(h).wf(),
            final(h).terms.nvars == old(h).terms.nvars,
            res matches Err(e) ==> e == KernelError::Overflow && !is_dominated(div@),
            res is Err <==> shift_overflows(div@, qt@.1, E::max()),
            res is Ok ==> {
                &&& queue_state(final(h).items(), a, u)
                &&& products_state(final(h)@, old(h)@, div@.drop_last(), qt@)
                &&& forall|k: int|
                    0 <= k < final(h)@.len() ==> lex_less(
                        (#[trigger] final(h)@[k]).1,
                        vec_add(div@.last().1, qt@.1),
                    )
            },
    {
        let ghost before = h@;
        let ghost b = div@;
        let ghost nv = div.nvars as nat;
        let ghost e0 = vec_add(b.last().1, qt@.1);
        let nb = div.nterms;
        proof {
            lemma_products_start(before, qt@);
            lemma_prefix_whole(b);
            lemma_canonical_wf(b, nv);
        }
        let mut i: usize = 0;
        while i < nb - 1
            invariant
                div.wf(),
                b == div@,
                nb == div.nterms,
                nb > 0,
                nv == div.nvars,
                i <= nb - 1,
                h.wf(),
                h.terms.nvars == div.nvars,
                div.nvars == old(h).terms.nvars,
                qt.exponents@.len() == div.nvars,
                qt.coefficient.wf(),
                qindex < usize::MAX,
                e0 == vec_add(b.last().1, qt@.1),
                forall|k: int| 0 <= k < nv ==> b.last().1[k] + qt@.1[k] <= E::max(),
                coefficients_wf(b),
                queue_state(h.items(), a, u),
                products_state(h@, before, b.subrange(0, i as int), qt@),
                forall|k: int| 0 <= k < h@.len() ==> lex_less((#[trigger] h@[k]).1, e0),
                forall|j: int, k: int|
                    0 <= j < i && 0 <= k < nv ==> (#[trigger] b[j].1[k]) + qt@.1[k] <= E::max(),
            decreases nb - 1 - i,
        {
            let ghost cur = *h;
            let x = div.to_monomial(i);
            proof {
                lemma_canonical_wf(b, nv);
                lemma_prefix_step(b, i as int);
                lemma_coefficients_wf_parts(b, i as int);
                assert(b[i as int].0.wf());
                assert(b.last() == b[nb - 1]);
                assert(lex_less(b[i as int].1, b[nb - 1].1));
                lemma_lex_add(b[i as int].1, b.last().1, qt@.1);
            }
            let p = match x.multiply(qt) {
                Ok(p) => p,
                Err(e) => {
                    proof {
                        let k = choose|k: int|
                            0 <= k < x@.1.len() && #[trigger] x@.1[k] + qt@.1[k] > E::max();
                        assert(b.last().1[k] + qt@.1[k] <= E::max());
                        assert(b[i as int].1[k] > b.last().1[k]);
                        assert(b[i as int].1[k] + qt@.1[k] > E::max());
                    }
                    return Err(e);
                },
            };
            if !p.coefficient.is_zero() {
                let n = p.negate();
                proof {
                    assert(n.exponents@.len() == n@.1.len());
                }
                h.push(n.coefficient, n.exponents.as_slice(), (i, qindex));
                proof {
                    let more = cur.items().push((n@, (i, qindex)));
                    lemma_products_step(cur@, h@, before, b.subrange(0, i as int), qt@, x@);
                    lemma_queue_pushed(cur.items(), h.items(), (n@, (i, qindex)), a, u);
                    assert forall|k: int| 0 <= k < h@.len() implies lex_less(
                        (#[trigger] h@[k]).1,
                        e0,
                    ) by {
                        assert(has_item(more, h.items()[k]));
                        let l = choose|l: int|
                            0 <= l < more.len() && #[trigger] more[l] == h.items()[k];
                        if l < cur.items().len() {
                            assert(cur@[l] == h@[k]);
                        }
                    }
                }
            } else {
                proof {
                    lemma_neg_zero::<R>();
                    lemma_sum_with_zero(cur@, vec_add(x@.1, qt@.1));
                    lemma_products_step(cur@, cur@, before, b.subrange(0, i as int), qt@, x@);
                }
            }
            proof {
                assert forall|j: int, k: int| 0 <= j < i + 1 && 0 <= k < nv implies (
                #[trigger] b[j].1[k]) + qt@.1[k] <= E::max() by {
                    if j == i {
                        assert(x@.1[k] + qt@.1[k] <= E::max());
                    }
                }
            }
            i = i + 1;
        }
        proof {
            assert(b.subrange(0, nb - 1) =~= b.drop_last());
            assert forall|j: int, k: int| 0 <= j < b.len() && 0 <= k < qt@.1.len() implies (
            #[trigger] b[j].1[k]) + qt@.1[k] <= E::max() by {
                if j == nb - 1 {
                    assert(b.last() == b[nb - 1]);
                }
            }
        }
        Ok(())
    }

    /// Heap division for multivariate polynomials, for a divisor of several
    /// terms. A priority queue holds the pending terms, each with the two
    /// indices of its origin: a term of the dividend with its index in the
    /// dividend, or the negated product of a term of the divisor and a term
    /// of the quotient with the indices of the two. The queue starts with the
    /// leading term of the dividend. Its largest term is taken out, together
    /// with all terms of the same exponents, whose coefficients are summed:
    /// that resolves cancellation without expanding a product. Where a term
    /// of the dividend is taken out, the next term of the dividend comes to
    /// the queue. Where the sum can be divided by the leading term of the
    /// divisor, the quotient is a new term of the quotient, and its products
    /// with the other terms of the divisor come to the queue; otherwise the
    /// sum is a new term of the remainder. The division ends when the queue
    /// is empty.
    ///
    /// The terms of the quotient are fixed one after the other, from the
    /// largest down: each is the quotient of what is left of the largest
    /// monomial, below that of the term before, that the leading term of the
    /// divisor divides. The division fails exactly where it comes to a term
    /// of the quotient with an exponent that, added to that of some term of
    /// the divisor, does not fit the exponent type; with a single variable
    /// that cannot happen.
    pub fn heap_division(&self, div: &Self) -> (res: Result<(Self, Self), KernelError>)
        requires
            self.wf(),
            div.wf(),
            self.nvars == div.nvars,
            div.nterms > 0,
        ensures
            res is Err <==> division_overflows(self@, div@, self.nvars as nat, E::max(), true),
            res matches Err(e) ==> e == KernelError::Overflow,
            is_dominated(div@) ==> res is Ok,
            self.nvars <= 1 ==> res is Ok,
            res matches Ok(qr) ==> {
                &&& qr.0.wf()
                &&& qr.1.wf()
                &&& qr.0.nvars == self.nvars
                &&& qr.1.nvars == self.nvars
                &&& is_division(qr.0@, qr.1@, self@, div@)
                &&& irreducible(qr.1@, div@.last())
                &&& is_whole_quotient(self@, div@, qr.0@.reverse(), self.nvars as nat, true)
                &&& self.nterms > 0 ==> quotient_bounded(qr.0@, div@.last(), self@.last().1)
                    && terms_bounded(qr.1@, self@.last().1)
            },
    {
        let nvars = self.nvars;
        let ghost nv = nvars as nat;
        let nb = div.nterms;
        let lead = div.to_monomial(nb - 1);
        let ghost a = self@;
        let ghost b = div@;
        let ghost idle = Seq::<nat>::empty();
        let mut q = Self::with_nvars(nvars);
        let mut r = Self::with_nvars(nvars);
        let mut h = TermHeap::<R, E>::new(nvars);
        let mut undelivered: usize = 0;
        let ghost high = if a.len() > 0 {
            a.last().1
        } else {
            idle
        };
        proof {
            R::lemma_constants();
            lemma_canonical_wf(a, nv);
            lemma_canonical_wf(b, nv);
            lemma_state_start(a, b, idle);
            assert(b.last() == b[nb - 1]);
            assert(lead.exponents@.len() == lead@.1.len());
            assert(pending_terms(h@, a, 0) =~= Terms::<R>::empty());
            if nvars <= 1 {
                lemma_univariate_dominated(b, nv);
            }
        }
        if self.nterms > 0 {
            // the leading term of the dividend
            let top = self.nterms - 1;
            let ghost empty = h;
            assert(a[top as int].0.wf());
            let exponents = self.exponents(top);
            h.push(self.coefficients[top], exponents, (top, usize::MAX));
            undelivered = top;
            proof {
                assert(values(exponents@) == a[top as int].1);
                lemma_pending_delivered(empty@, h@, a, self.nterms as int);
                assert(pending_terms(empty@, a, self.nterms as int) =~= a);
                lemma_state_same(
                    a,
                    b,
                    Terms::<R>::empty(),
                    Terms::<R>::empty(),
                    a,
                    pending_terms(h@, a, top as int),
                    (R::zero_spec(), idle),
                );
                lemma_queue_start(empty.items(), h.items(), a, top as int);
                assert(a.last() == a[top as int]);
                lemma_lex_irreflexive(high);
                assert(h@.len() == 1);
                assert(has_item(
                    empty.items().push(
                        ((self.coefficients[top as int], values(exponents@)), (top, usize::MAX)),
                    ),
                    h.items()[0],
                ));
                assert(h@[0].1 == high);
            }
        } else {
            proof {
                assert(a =~= Terms::<R>::empty());
            }
        }
        while h.len() > 0
            invariant
                self.wf(),
                div.wf(),
                a == self@,
                b == div@,
                nvars == div.nvars,
                nvars == self.nvars,
                nv == nvars,
                nb == div.nterms,
                nb > 0,
                lead@ == b.last(),
                lead.exponents@.len() == nvars,
                lead.coefficient.wf(),
                lead.coefficient != R::zero_spec(),
                coefficients_wf(a),
                coefficients_wf(b),
                q.shaped(),
                r.shaped(),
                h.wf(),
                q.nvars == nvars,
                r.nvars == nvars,
                h.terms.nvars == nvars,
                descending(q@, nv),
                descending(r@, nv),
                queue_state(h.items(), a, undelivered as int),
                division_state(
                    a,
                    b,
                    q@,
                    r@,
                    pending_terms(h@, a, undelivered as int),
                    (R::zero_spec(), idle),
                ),
                irreducible(r@, b.last()),
                forall|k: int|
                    0 <= k < h@.len() && q@.len() > 0 ==> lex_less(
                        (#[trigger] h@[k]).1,
                        vec_add(q@.last().1, b.last().1),
                    ),
                forall|k: int|
                    0 <= k < h@.len() && r@.len() > 0 ==> lex_less((#[trigger] h@[k]).1, r@.last().1),
                is_quotient_start(a, b, q@, nv, true),
                !product_overflows(b, q@, E::max()),
                terms_bounded(h@, high),
                terms_bounded(r@, high),
                quotient_bounded(q@, b.last(), high),
            decreases root_rank(h@, E::max()),
        {
            let ghost h0 = h@;
            let ghost u0 = undelivered as int;
            let ghost q0 = q@;
            let ghost r0 = r@;
            let t = self.take_largest(&mut h, &mut undelivered);
            let ghost e0 = t@.1;
            let ghost taken = pending_terms(h@, a, undelivered as int);
            let ghost h1 = h@;
            proof {
                R::lemma_constants();
                lemma_reverse_canonical(q0, nv);
                lemma_reverse_canonical(r0, nv);
                lemma_pending_wf(h1, a, undelivered as int);
                lemma_state_take(a, b, q0, r0, pending_terms(h0, a, u0), taken, idle, t@);
                assert forall|k: int| 0 <= k < nv implies e0[k] <= E::max() by {
                    E::value_in_range(t.exponents@[k]);
                }
                assert(!lex_less(high, h0[0].1));
                lemma_below_top(h1, e0, high);
            }
            let is_zero = t.coefficient.is_zero();
            if !is_zero && t.divides(&lead) {
                let qt = t.divide(&lead);
                proof {
                    lemma_exact_quotient(t@, lead@);
                    assert(qt.exponents@.len() == qt@.1.len());
                    if q0.len() > 0 {
                        assert(lex_less(h0[0].1, vec_add(q0.last().1, b.last().1)));
                        lemma_lex_add_cancel(qt@.1, q0.last().1, b.last().1);
                    }
                    lemma_descending_push(q0, nv, qt@);
                    if r0.len() > 0 {
                        assert(lex_less(h0[0].1, r0.last().1));
                    }
                    lemma_queue_quotient(a, b, q0, r0, h1, undelivered as int, t@, nv);
                }
                q.push_term(qt.coefficient, qt.exponents.as_slice(), 0);
                assert(q@.len() == q0.len() + 1);
                assert(q@ == q0.push(qt@));
                assert(q@.last() == qt@);
                let qindex = q.nterms - 1;
                match Self::push_products(
                    &mut h,
                    div,
                    &qt,
                    qindex,
                    Ghost(a),
                    Ghost(undelivered as int),
                ) {
                    Ok(()) => {},
                    Err(e) => {
                        return Err(e);
                    },
                }
                proof {
                    lemma_fits_push(b, q0, qt@, E::max());
                    assert(vec_add(qt@.1, b.last().1) == e0);
                    lemma_bounded_push(q0, qt@, b.last(), high);
                    lemma_below_top(h@, e0, high);
                    lemma_pending_wf(h@, a, undelivered as int);
                    lemma_coefficients_wf_parts(b, nb - 1);
                    assert(b.drop_last() =~= b.subrange(0, nb - 1));
                    lemma_products_pending(h@, h1, b.drop_last(), qt@, a, undelivered as int);
                    lemma_state_quotient(
                        a,
                        b,
                        q0,
                        r0,
                        taken,
                        pending_terms(h@, a, undelivered as int),
                        t@,
                        qt@,
                    );
                    lemma_state_idle(
                        a,
                        b,
                        q@,
                        r0,
                        pending_terms(h@, a, undelivered as int),
                        e0,
                        idle,
                    );
                    assert(q@.last() == qt@);
                    assert(vec_add(qt@.1, b.last().1) =~= vec_add(b.last().1, qt@.1));
                    assert forall|k: int| 0 <= k < h@.len() && r@.len() > 0 implies lex_less(
                        (#[trigger] h@[k]).1,
                        r@.last().1,
                    ) by {
                        assert(lex_less(h0[0].1, r0.last().1));
                        lemma_lex_transitive(h@[k].1, e0, r0.last().1);
                    }
                }
            } else if !is_zero {
                r.push_term(t.coefficient, t.exponents.as_slice(), 0);
                proof {
                    lemma_terms_bounded_push(r0, t@, high);
                    lemma_state_remainder(a, b, q0, r0, taken, t@);
                    lemma_state_idle(a, b, q0, r@, taken, e0, idle);
                    if r0.len() > 0 {
                        assert(lex_less(h0[0].1, r0.last().1));
                    }
                    lemma_descending_push(r0, nv, t@);
                    assert(r@.last() == t@);
                    assert forall|i: int| 0 <= i < r@.len() implies !divisible(
                        #[trigger] r@[i],
                        b.last(),
                    ) by {
                        if i < r0.len() {
                            assert(r@[i] == r0[i]);
                        }
                    }
                    assert forall|k: int| 0 <= k < h@.len() && q@.len() > 0 implies lex_less(
                        (#[trigger] h@[k]).1,
                        vec_add(q@.last().1, b.last().1),
                    ) by {
                        assert(lex_less(h0[0].1, vec_add(q0.last().1, b.last().1)));
                        lemma_lex_transitive(h@[k].1, e0, vec_add(q0.last().1, b.last().1));
                    }
                }
            } else {
                proof {
                    lemma_state_idle(a, b, q0, r0, taken, e0, idle);
                    assert forall|k: int| 0 <= k < h@.len() && q@.len() > 0 implies lex_less(
                        (#[trigger] h@[k]).1,
                        vec_add(q@.last().1, b.last().1),
                    ) by {
                        assert(lex_less(h0[0].1, vec_add(q0.last().1, b.last().1)));
                        lemma_lex_transitive(h@[k].1, e0, vec_add(q0.last().1, b.last().1));
                    }
                    assert forall|k: int| 0 <= k < h@.len() && r@.len() > 0 implies lex_less(
                        (#[trigger] h@[k]).1,
                        r@.last().1,
                    ) by {
                        assert(lex_less(h0[0].1, r0.last().1));
                        lemma_lex_transitive(h@[k].1, e0, r0.last().1);
                    }
                }
            }
            proof {
                // the queue has gone down in the canonical order
                if h@.len() > 0 {
                    h.terms.lemma_exponents_bounded();
                    let root = h@[0];
                    assert forall|k: int| 0 <= k < nv implies root.1[k] <= E::max() by {
                        assert(root.1[k] == h.terms@[0].1[k]);
                    }
                    assert(lex_less(root.1, e0));
                    lemma_rank_less(root.1, e0, E::max());
                }
            }
        }
        // the quotient and the remainder have their largest terms first

        let quotient = q.reversed();
        let remainder = r.reversed();
        proof {
            lemma_reverse_canonical(q@, nv);
            lemma_reverse_canonical(r@, nv);
            assert(h.items().len() == 0);
            assert(pending_terms(h@, a, undelivered as int) =~= Terms::<R>::empty());
            assert(quotient@.reverse() =~= q@);
            assert(coefficients_wf(q@));
            lemma_queue_end(a, b, q@, r@, idle, nv);
            lemma_no_overflow(a, b, q@, nv, E::max(), true);
            lemma_bounded_reverse(q@, r@, b.last(), high);
            assert(uniform(quotient@, nv)) by {
                assert forall|i: int| 0 <= i < quotient@.len() implies (
                #[trigger] quotient@[i]).1.len() == nv by {}
            }
            assert(uniform(b, nv)) by {
                assert forall|i: int| 0 <= i < b.len() implies (#[trigger] b[i]).1.len() == nv by {}
            }
            lemma_canonical_wf(quotient@, nv);
            assert forall|e: Seq<nat>| #[trigger]
                coefficient_in(a, e) == product_coefficient(quotient@, b, e).add_spec(
                    coefficient_in(remainder@, e),
                ) by {
                lemma_product_coefficient_commutative(quotient@, b, e, nv);
                lemma_product_reverse(b, q@, e);
                lemma_coefficient_reverse(r@, e);
                lemma_product_wf(b, q@, e);
                lemma_coefficient_wf(r@, e);
                let p = product_coefficient(b, q@, e);
                let c = coefficient_in(r@, e);
                R::lemma_closed(p, c);
                assert(coefficient_in(a, e) == p.add_spec(c).add_spec(
                    coefficient_in(Terms::<R>::empty(), e),
                ).add_spec(term_at((R::zero_spec(), idle), e)));
                R::lemma_add_zero(p.add_spec(c));
            }
            assert forall|i: int| 0 <= i < remainder@.len() implies !divisible(
                #[trigger] remainder@[i],
                b.last(),
            ) by {
                assert(remainder@[i] == r@[r@.len() - 1 - i]);
            }
        }
        Ok((quotient, remainder))
    }

    /// Division by a polynomial of a single term: every term of the dividend
    /// that the divisor divides gives a term of the quotient, every other
    /// term goes to the remainder, so the two together have as many terms as
    /// the dividend.
    pub fn monomial_division(&self, div: &Self) -> (res: (Self, Self))
        requires
            self.wf(),
            div.wf(),
            self.nvars == div.nvars,
            div.nterms == 1,
        ensures
            res.0.wf(),
            res.1.wf(),
            res.0.nvars == self.nvars,
            res.1.nvars == self.nvars,
            res.0@ == term_quotients(self@, div@[0]),
            res.1@ == term_rests(self@, div@[0]),
            res.0.nterms + res.1.nterms == self.nterms,
            is_division(res.0@, res.1@, self@, div@),
            irreducible(res.1@, div@.last()),
            terms_among(res.1@, self@),
    {
        let nvars = self.nvars;
        let ghost nv = nvars as nat;
        let ghost a = self@;
        let d = div.to_monomial(0);
        let ghost dt = d@;
        let mut q = Self::with_nvars_and_capacity(nvars, self.nterms);
        let mut r = Self::with_nvars(nvars);
        let mut i: usize = 0;
        proof {
            R::lemma_constants();
            lemma_canonical_wf(a, nv);
            lemma_prefix_whole(a);
            assert(div@.last() == div@[0]);
            assert(div@ =~= single(dt));
            assert(shifted(Terms::<R>::empty(), dt) =~= Terms::<R>::empty());
            lemma_merge_start::<R>();
            assert(d.exponents@.len() == d@.1.len());
        }
        while i < self.nterms
            invariant
                self.wf(),
                a == self@,
                nvars == self.nvars,
                nv == nvars,
                i <= self.nterms,
                dt == d@,
                dt.0.wf(),
                dt.0 != R::zero_spec(),
                d.exponents@.len() == nvars,
                q.shaped(),
                r.shaped(),
                q.nvars == nvars,
                r.nvars == nvars,
                canonical(q@, nv),
                canonical(r@, nv),
                is_sum(a.subrange(0, i as int), shifted(q@, dt), r@),
                q@ == term_quotients(a.subrange(0, i as int), dt),
                r@ == term_rests(a.subrange(0, i as int), dt),
                irreducible(r@, dt),
                terms_among(r@, a),
                q@.len() > 0 && i < self.nterms ==> lex_less(
                    vec_add(q@.last().1, dt.1),
                    a[i as int].1,
                ),
                r@.len() > 0 && i < self.nterms ==> lex_less(r@.last().1, a[i as int].1),
            decreases self.nterms - i,
        {
            let ghost q0 = q@;
            let ghost r0 = r@;
            let ghost x = a[i as int];
            let m = self.to_monomial(i);
            proof {
                lemma_canonical_wf(a, nv);
                lemma_canonical_wf(q0, nv);
                lemma_canonical_wf(r0, nv);
                lemma_shifted_wf(q0, dt);
                lemma_prefix_step(a, i as int);
                assert(a.subrange(0, i + 1).drop_last() =~= a.subrange(0, i as int));
                assert(a.subrange(0, i + 1).last() == x);
                assert(x.0.wf());
                assert(m.exponents@.len() == m@.1.len());
                if i + 1 < self.nterms {
                    assert(lex_less(a[i as int].1, a[i + 1].1));
                }
            }
            if m.divides(&d) {
                let t = m.divide(&d);
                assert(t.exponents@.len() == t@.1.len());
                q.push_term(t.coefficient, t.exponents.as_slice(), 0);
                proof {
                    lemma_exact_quotient(x, dt);
                    if q0.len() > 0 {
                        lemma_lex_add_cancel(q0.last().1, t@.1, dt.1);
                        if i + 1 < self.nterms {
                            lemma_lex_transitive(
                                vec_add(q0.last().1, dt.1),
                                a[i as int].1,
                                a[i + 1].1,
                            );
                        }
                    }
                    lemma_canonical_push(q0, nv, t@);
                    assert(shifted(q0.push(t@), dt) =~= shifted(q0, dt).push(x));
                    lemma_merge_left(a.subrange(0, i as int), shifted(q0, dt), r0, x);
                    if r0.len() > 0 && i + 1 < self.nterms {
                        lemma_lex_transitive(r0.last().1, a[i as int].1, a[i + 1].1);
                    }
                }
            } else {
                r.push_term(m.coefficient, m.exponents.as_slice(), 0);
                proof {
                    lemma_canonical_push(r0, nv, x);
                    lemma_merge_right(a.subrange(0, i as int), shifted(q0, dt), r0, x);
                    assert forall|k: int| 0 <= k < r@.len() implies !divisible(
                        #[trigger] r@[k],
                        dt,
                    ) && exists|j: int| 0 <= j < a.len() && a[j] == r@[k] by {
                        if k < r0.len() {
                            assert(r@[k] == r0[k]);
                        }
                    }
                    if q0.len() > 0 && i + 1 < self.nterms {
                        lemma_lex_transitive(
                            vec_add(q0.last().1, dt.1),
                            a[i as int].1,
                            a[i + 1].1,
                        );
                    }
                }
            }
            i = i + 1;
        }
        proof {
            lemma_canonical_wf(q@, nv);
            lemma_prefix_whole(a);
            lemma_term_count(a, dt);
            assert forall|e: Seq<nat>| #[trigger]
                coefficient_in(a, e) == product_coefficient(q@, div@, e).add_spec(
                    coefficient_in(r@, e),
                ) by {
                lemma_product_single(q@, dt, e);
                assert(coefficient_in(a.subrange(0, i as int), e) == coefficient_in(
                    shifted(q@, dt),
                    e,
                ).add_spec(coefficient_in(r@, e)));
            }
        }
        (q, r)
    }

    /// Divides two multivariate polynomials: `self` is the product of the
    /// quotient and `div`, plus the remainder, and no term of the remainder
    /// can be divided by the leading term of `div`.
    ///
    /// A zero dividend gives zero twice; the divisor one gives the dividend
    /// and zero. Both hold whatever the numbers of variables are; otherwise
    /// these must be the same. A divisor of a single term is divided term by
    /// term, any other with a queue of pending terms, which fails exactly
    /// where it comes to a term of the quotient with an exponent that, added
    /// to that of some term of the divisor, does not fit the exponent type.
    pub fn divmod(&self, div: &Self) -> (res: Result<(Self, Self), KernelError>)
        requires
            self.wf(),
            div.wf(),
            div.nterms > 0,
        ensures
            self.nterms == 0 ==> res is Ok && res->Ok_0.0@ == Terms::<R>::empty() && res->Ok_0.1@
                == Terms::<R>::empty(),
            self.nterms != 0 && div.is_one_spec() ==> res is Ok && res->Ok_0.0@ == self@
                && res->Ok_0.1@ == Terms::<R>::empty(),
            res == Err::<(Self, Self), KernelError>(KernelError::DimensionMismatch) <==> self.nterms
                != 0 && !div.is_one_spec() && self.nvars != div.nvars,
            res == Err::<(Self, Self), KernelError>(KernelError::Overflow) <==> self.nterms != 0
                && !div.is_one_spec() && self.nvars == div.nvars && div.nterms > 1
                && division_overflows(self@, div@, self.nvars as nat, E::max(), true),
            res matches Err(e) ==> e == KernelError::DimensionMismatch || (e
                == KernelError::Overflow && div.nterms > 1 && self.nvars > 1 && !is_dominated(
                div@,
            )),
            res matches Ok(qr) ==> {
                &&& qr.0.wf()
                &&& qr.1.wf()
                &&& qr.0.nvars == self.nvars
                &&& qr.1.nvars == self.nvars
                &&& self.nvars == div.nvars ==> is_division(qr.0@, qr.1@, self@, div@)
                    && irreducible(qr.1@, div@.last())
                &&& self.nvars == div.nvars && div.nterms == 1 ==> terms_among(qr.1@, self@)
                &&& self.nvars == div.nvars && div.nterms == 1 && !div.is_one_spec() ==> qr.0@
                    == term_quotients(self@, div@[0]) && qr.1@ == term_rests(self@, div@[0])
                    && qr.0.nterms + qr.1.nterms == self.nterms
                &&& self.nterms != 0 && self.nvars == div.nvars && div.nterms > 1 ==> is_whole_quotient(
                    self@,
                    div@,
                    qr.0@.reverse(),
                    self.nvars as nat,
                    true,
                ) && quotient_bounded(qr.0@, div@.last(), self@.last().1) && terms_bounded(
                    qr.1@,
                    self@.last().1,
                )
            },
    {
        let ghost nv = self.nvars as nat;
        proof {
            R::lemma_constants();
            lemma_canonical_wf(self@, nv);
            lemma_canonical_wf(div@, div.nvars as nat);
        }
        if self.is_zero() {
            proof {
                assert(self@ =~= Terms::<R>::empty());
                assert forall|e: Seq<nat>| #[trigger]
                    coefficient_in(self@, e) == product_coefficient(
                        Terms::<R>::empty(),
                        div@,
                        e,
                    ).add_spec(coefficient_in(Terms::<R>::empty(), e)) by {
                    crate::poly::raw::arithmetic::lemma_product_of_zero(div@, e);
                    R::lemma_add_zero(R::zero_spec());
                }
            }
            return Ok((Self::with_nvars(self.nvars), Self::with_nvars(self.nvars)));
        }
        if div.is_one() {
            proof {
                if self.nvars == div.nvars {
                    assert(div@.last() == div@[0]);
                    assert(div@ =~= single(div@[0]));
                    lemma_shifted_by_one(self@, nv, div@[0]);
                    assert forall|e: Seq<nat>| #[trigger]
                        coefficient_in(self@, e) == product_coefficient(self@, div@, e).add_spec(
                            coefficient_in(Terms::<R>::empty(), e),
                        ) by {
                        lemma_product_single(self@, div@[0], e);
                        lemma_coefficient_wf(self@, e);
                        R::lemma_add_zero(coefficient_in(self@, e));
                    }
                }
            }
            let q = self.duplicate();
            return Ok((q, Self::with_nvars(self.nvars)));
        }
        if self.nvars != div.nvars {
            return Err(KernelError::DimensionMismatch);
        }
        if div.nterms == 1 {
            return Ok(self.monomial_division(div));
        }
        self.heap_division(div)
    }

    /// Long division for multivariate polynomials: as long as the leading
    /// term of what is left of the dividend can be divided by the leading
    /// term of the divisor, the quotient of the two is a new term of the
    /// quotient, and its product with the divisor is subtracted. What is
    /// left when that ends is the remainder; in a ring that is no field that
    /// may be when a coefficient does not divide cleanly. So the product of
    /// every term of the quotient with the leading term of the divisor lies
    /// above the leading term of the remainder.
    ///
    /// The division fails exactly where it comes to a term of the quotient
    /// with an exponent that, added to that of some term of the divisor, does
    /// not fit the exponent type; with a single variable that cannot happen.
    pub fn long_division(&self, div: &Self) -> (res: Result<(Self, Self), KernelError>)
        requires
            self.wf(),
            div.wf(),
            self.nvars == div.nvars,
            div.nterms > 0,
        ensures
            res is Err <==> division_overflows(self@, div@, self.nvars as nat, E::max(), false),
            res matches Err(e) ==> e == KernelError::Overflow,
            is_dominated(div@) ==> res is Ok,
            self.nvars <= 1 ==> res is Ok,
            res matches Ok(qr) ==> {
                &&& qr.0.wf()
                &&& qr.1.wf()
                &&& qr.0.nvars == self.nvars
                &&& qr.1.nvars == self.nvars
                &&& is_division(qr.0@, qr.1@, self@, div@)
                &&& qr.1.nterms > 0 ==> !divisible(qr.1@.last(), div@.last())
                &&& qr.1.nterms > 0 ==> quotient_above(qr.0@, div@.last(), qr.1@.last().1)
                &&& is_whole_quotient(self@, div@, qr.0@.reverse(), self.nvars as nat, false)
            },
    {
        let nvars = self.nvars;
        let ghost nv = nvars as nat;
        let nb = div.nterms;
        let lead = div.to_monomial(nb - 1);
        let ghost a = self@;
        let ghost b = div@;
        let ghost idle = Seq::<nat>::empty();
        let ghost none = Terms::<R>::empty();
        let mut q = Self::with_nvars(nvars);
        let mut r = self.duplicate();
        let mut going = true;
        proof {
            R::lemma_constants();
            lemma_canonical_wf(a, nv);
            lemma_canonical_wf(b, nv);
            lemma_state_start(a, b, idle);
            assert(b.last() == b[nb - 1]);
            assert(lead.exponents@.len() == lead@.1.len());
        }
        while going && r.nterms > 0
            invariant
                div.wf(),
                a == self@,
                b == div@,
                nvars == div.nvars,
                nvars == self.nvars,
                nv == nvars,
                nb == div.nterms,
                nb > 0,
                none == Terms::<R>::empty(),
                lead@ == b.last(),
                lead.exponents@.len() == nvars,
                lead.coefficient.wf(),
                lead.coefficient != R::zero_spec(),
                coefficients_wf(b),
                q.shaped(),
                q.nvars == nvars,
                r.wf(),
                r.nvars == nvars,
                descending(q@, nv),
                division_state(a, b, q@, none, r@, (R::zero_spec(), idle)),
                !going ==> r.nterms > 0 && !divisible(r@.last(), b.last()),
                r@.len() > 0 && q@.len() > 0 ==> lex_less(
                    r@.last().1,
                    vec_add(q@.last().1, b.last().1),
                ),
                is_quotient_start(a, b, q@, nv, false),
                !product_overflows(b, q@, E::max()),
            decreases top_rank(r@, E::max()), (if going { 1nat } else { 0nat }),
        {
            let ghost r0 = r@;
            let ghost q0 = q@;
            let t = r.to_monomial(r.nterms - 1);
            proof {
                assert(r0.last() == r0[r0.len() - 1]);
                assert(t.exponents@.len() == t@.1.len());
                assert(t@.0.wf());
            }
            if !t.divides(&lead) {
                going = false;
            } else {
                let qt = t.divide(&lead);
                proof {
                    lemma_exact_quotient(t@, lead@);
                    assert(qt.exponents@.len() == qt@.1.len());
                    if nvars <= 1 {
                        lemma_univariate_dominated(b, nv);
                    }
                    if is_dominated(b) {
                        assert forall|i: int, k: int|
                            0 <= i < b.len() && 0 <= k < qt@.1.len() implies (
                        #[trigger] b[i].1[k]) + qt@.1[k] <= E::max() by {
                            E::value_in_range(t.exponents@[k]);
                            assert(t@.1[k] == b.last().1[k] + qt@.1[k]);
                        }
                    }
                }
                proof {
                    lemma_canonical_wf(r0, nv);
                    assert(coefficients_wf(q0));
                    lemma_long_next(a, b, q0, r0, idle, nv);
                    lemma_start_push(a, b, q0, qt@, nv, false);
                    assert(q0.push(qt@).last() == qt@);
                }
                let p = match div.mul_monomial(qt.coefficient, qt.exponents.as_slice()) {
                    Ok(p) => p,
                    Err(e) => {
                        proof {
                            let start = q0.push(qt@);
                            assert(values(qt.exponents@) == qt@.1);
                            assert(is_quotient_start(a, b, start, nv, false) && start.len() > 0
                                && shift_overflows(b, start.last().1, E::max()));
                        }
                        return Err(e);
                    },
                };
                proof {
                    assert(values(qt.exponents@) == qt@.1);
                    lemma_fits_push(b, q0, qt@, E::max());
                }
                let r1 = match r.sub(&p) {
                    Ok(x) => x,
                    Err(e) => {
                        // the two have the same number of variables
                        assert(false);
                        return Err(KernelError::Overflow);
                    },
                };
                q.push_term(qt.coefficient, qt.exponents.as_slice(), 0);
                proof {
                    lemma_reverse_canonical(q0, nv);
                    lemma_canonical_wf(r0, nv);
                    lemma_canonical_wf(r1@, nv);
                    lemma_canonical_wf(p@, nv);
                    lemma_coefficients_wf_parts(r0, r0.len() - 1);
                    assert(r0.drop_last() =~= r0.subrange(0, r0.len() - 1));
                    lemma_take_start(r0);
                    lemma_state_take(a, b, q0, none, r0, r0.drop_last(), idle, t@);
                    lemma_long_step(r0, r1@, p@, b, qt@, nv);
                    lemma_state_quotient(a, b, q0, none, r0.drop_last(), r1@, t@, qt@);
                    lemma_state_idle(a, b, q@, none, r1@, t@.1, idle);
                    if q0.len() > 0 {
                        lemma_lex_add_cancel(qt@.1, q0.last().1, b.last().1);
                    }
                    lemma_descending_push(q0, nv, qt@);
                    assert(q@.last() == qt@);
                    assert(vec_add(qt@.1, b.last().1) =~= vec_add(b.last().1, qt@.1));
                    // what is left has gone down in the canonical order
                    assert forall|k: int| 0 <= k < nv implies t@.1[k] <= E::max() by {
                        E::value_in_range(t.exponents@[k]);
                    }
                    if r1@.len() > 0 {
                        r1.lemma_exponents_bounded();
                        let n = r1@.len() - 1;
                        let top = r1@[n];
                        assert forall|k: int| 0 <= k < nv implies top.1[k] <= E::max() by {
                            assert(top.1[k] == r1@[n].1[k]);
                        }
                        lemma_rank_less(top.1, t@.1, E::max());
                    }
                }
                r = r1;
            }
        }
        let quotient = q.reversed();
        proof {
            lemma_reverse_canonical(q@, nv);
            assert(quotient@.reverse() =~= q@);
            assert(coefficients_wf(q@));
            lemma_long_end(a, b, q@, r@, idle, nv);
            lemma_no_overflow(a, b, q@, nv, E::max(), false);
            if r@.len() > 0 && q@.len() > 0 {
                lemma_quotient_above(q@, quotient@, b.last(), r@.last().1, nv);
            }
            assert(uniform(quotient@, nv)) by {
                assert forall|i: int| 0 <= i < quotient@.len() implies (
                #[trigger] quotient@[i]).1.len() == nv by {}
            }
            assert(uniform(b, nv)) by {
                assert forall|i: int| 0 <= i < b.len() implies (#[trigger] b[i]).1.len() == nv by {}
            }
            lemma_canonical_wf(quotient@, nv);
            lemma_canonical_wf(r@, nv);
            assert forall|e: Seq<nat>| #[trigger]
                coefficient_in(a, e) == product_coefficient(quotient@, b, e).add_spec(
                    coefficient_in(r@, e),
                ) by {
                lemma_product_coefficient_commutative(quotient@, b, e, nv);
                lemma_product_reverse(b, q@, e);
                lemma_product_wf(b, q@, e);
                lemma_coefficient_wf(r@, e);
                let p = product_coefficient(b, q@, e);
                let c = coefficient_in(r@, e);
                assert(coefficient_in(a, e) == p.add_spec(coefficient_in(none, e)).add_spec(
                    c,
                ).add_spec(term_at((R::zero_spec(), idle), e)));
                R::lemma_add_zero(p);
                R::lemma_closed(p, c);
                R::lemma_add_zero(p.add_spec(c));
            }
        }
        Ok((quotient, r))
    }
}

} // verus!
