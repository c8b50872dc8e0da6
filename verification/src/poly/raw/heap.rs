//! A priority queue of terms: a binary heap whose largest term, in canonical
//! order of the exponent vectors, is at the root. Every term carries the
//! two indices that tell where it comes from.

use vstd::prelude::*;
use crate::poly::exponent::Exponent;
use crate::poly::raw::division_theory::{lemma_le_less, lemma_le_transitive};
use crate::poly::raw::monomial::Monomial;
use crate::poly::raw::multivar::{lemma_flat_index, values, MultivariatePolynomial, TermOrder};
use crate::poly::raw::terms::{
    coefficient_in, coefficients_wf, is_sum_with_term, lemma_coefficient_insert,
    lemma_coefficient_push, lemma_coefficient_remove, lemma_coefficient_wf, lemma_lex_asymmetric,
    lemma_lex_irreflexive, lemma_lex_transitive, lex_less, stands_for, term_at, Terms,
};
use crate::poly::ring::{lemma_add_swap, Ring};

verus! {

/// A term with the indices of its origin.
pub type Item<R> = ((R, Seq<nat>), (usize, usize));

/// Every term is at most as large as its parent: the term at place `k` has
/// its parent at place `(k - 1) / 2`.
pub open spec fn heap_ordered<R: Ring>(ts: Terms<R>) -> bool {
    forall|k: int| 1 <= k < ts.len() ==> !lex_less(ts[(k - 1) / 2].1, (#[trigger] ts[k]).1)
}

/// `x` is an item of `b`.
pub open spec fn has_item<R: Ring>(b: Seq<Item<R>>, x: Item<R>) -> bool {
    exists|l: int| 0 <= l < b.len() && #[trigger] b[l] == x
}

/// Every item of `a` is an item of `b`.
pub open spec fn items_within<R: Ring>(a: Seq<Item<R>>, b: Seq<Item<R>>) -> bool {
    forall|k: int| 0 <= k < a.len() ==> has_item(b, #[trigger] a[k])
}

/// The sequence with the items at the places `i` and `j` swapped.
pub open spec fn swapped<T>(s: Seq<T>, i: int, j: int) -> Seq<T> {
    s.update(i, s[j]).update(j, s[i])
}

/// The root of a heap is its largest term.
pub proof fn lemma_root_is_largest<R: Ring>(ts: Terms<R>, nvars: nat, k: int)
    requires
        heap_ordered(ts),
        forall|i: int| 0 <= i < ts.len() ==> (#[trigger] ts[i]).1.len() == nvars,
        0 <= k < ts.len(),
    ensures
        !lex_less(ts[0].1, ts[k].1),
    decreases k,
{
    if k == 0 {
        lemma_lex_irreflexive(ts[0].1);
    } else {
        let p = (k - 1) / 2;
        lemma_root_is_largest(ts, nvars, p);
        assert(!lex_less(ts[p].1, ts[k].1));
        lemma_le_transitive(ts[k].1, ts[p].1, ts[0].1);
    }
}

/// Swapping two terms changes no coefficient of the polynomial.
pub proof fn lemma_coefficient_swapped<R: Ring>(ts: Terms<R>, i: int, j: int, e: Seq<nat>)
    requires
        coefficients_wf(ts),
        0 <= i < ts.len(),
        0 <= j < ts.len(),
    ensures
        coefficient_in(swapped(ts, i, j), e) == coefficient_in(ts, e),
        coefficients_wf(swapped(ts, i, j)),
{
    let sw = swapped(ts, i, j);
    assert forall|k: int| 0 <= k < sw.len() implies (#[trigger] sw[k]).0.wf() by {
        assert(ts[i].0.wf());
        assert(ts[j].0.wf());
        if k != i && k != j {
            assert(sw[k] == ts[k]);
        }
    }
    if i == j {
        assert(sw =~= ts);
    } else {
        let a = if i < j { i } else { j };
        let b = if i < j { j } else { i };
        let x = ts[a];
        let y = ts[b];
        let r1 = ts.remove(b);
        let r2 = r1.remove(a);
        assert(coefficients_wf(r1)) by {
            assert forall|k: int| 0 <= k < r1.len() implies (#[trigger] r1[k]).0.wf() by {
                let o = if k < b { k } else { k + 1 };
                assert(r1[k] == ts[o]);
            }
        }
        assert(coefficients_wf(r2)) by {
            assert forall|k: int| 0 <= k < r2.len() implies (#[trigger] r2[k]).0.wf() by {
                let o = if k < a { k } else { k + 1 };
                assert(r2[k] == r1[o]);
            }
        }
        let s1 = r2.insert(a, y);
        assert(coefficients_wf(s1)) by {
            assert forall|k: int| 0 <= k < s1.len() implies (#[trigger] s1[k]).0.wf() by {
                if k != a {
                    let o = if k < a { k } else { k - 1 };
                    assert(s1[k] == r2[o]);
                }
            }
        }
        assert(s1.insert(b, x) =~= sw);
        lemma_coefficient_remove(ts, b, e);
        assert(r1[a] == x);
        lemma_coefficient_remove(r1, a, e);
        lemma_coefficient_insert(r2, a, y, e);
        lemma_coefficient_insert(s1, b, x, e);
        lemma_coefficient_wf(r2, e);
        R::lemma_constants();
        lemma_add_swap(coefficient_in(r2, e), term_at(x, e), term_at(y, e));
    }
}

impl<R: Ring, E: Exponent> MultivariatePolynomial<R, E> {
    /// Swaps the terms `i` and `j`, whatever they hold.
    pub fn swap_terms(&mut self, i: usize, j: usize)
        requires
            old(self).shaped(),
            i < old(self).nterms,
            j < old(self).nterms,
        ensures
            final(self).shaped(),
            final(self).nvars == old(self).nvars,
            final(self).nterms == old(self).nterms,
            final(self)@ == swapped(old(self)@, i as int, j as int),
    {
        if i == j {
            assert(self@ =~= swapped(self@, i as int, j as int));
            return ;
        }
        let ghost before = *self;
        let nvars = self.nvars;
        let ci = self.coefficients[i];
        let cj = self.coefficients[j];
        proof {
            assert(self.exponents@.len() == self.exponents.len());
        }
        self.coefficients[i] = cj;
        self.coefficients[j] = ci;
        proof {
            assert(self.exponents@ == before.exponents@);
            lemma_flat_index(i as int, nvars as int, before.nterms as int, nvars as int);
            lemma_flat_index(j as int, nvars as int, before.nterms as int, nvars as int);
            assert(self.exponents@.len() == self.exponents.len());
            // the two terms do not overlap
            if i < j {
                lemma_flat_index(i as int, nvars as int, j as int, nvars as int);
            } else {
                lemma_flat_index(j as int, nvars as int, i as int, nvars as int);
            }
        }
        let at_i = i * nvars;
        let at_j = j * nvars;
        let mut k: usize = 0;
        assert(self.coefficients@ =~= before.coefficients@.update(i as int, cj).update(
            j as int,
            ci,
        ));
        while k < nvars
            invariant
                k <= nvars,
                nvars == before.nvars,
                self.nvars == before.nvars,
                self.nterms == before.nterms,
                at_i == i * nvars,
                at_j == j * nvars,
                at_i + nvars <= before.exponents@.len(),
                at_j + nvars <= before.exponents@.len(),
                before.exponents@.len() <= usize::MAX,
                at_i + nvars <= at_j || at_j + nvars <= at_i,
                self.coefficients@ == before.coefficients@.update(i as int, cj).update(j as int, ci),
                self.exponents@.len() == before.exponents@.len(),
                forall|x: int|
                    0 <= x < self.exponents@.len() ==> #[trigger] self.exponents@[x] == (if at_i <= x
                        < at_i + k {
                        before.exponents@[x - at_i + at_j]
                    } else if at_j <= x < at_j + k {
                        before.exponents@[x - at_j + at_i]
                    } else {
                        before.exponents@[x]
                    }),
            decreases nvars - k,
        {
            let a = self.exponents[at_i + k];
            let b = self.exponents[at_j + k];
            self.exponents[at_i + k] = b;
            self.exponents[at_j + k] = a;
            k = k + 1;
        }
        proof {
            let n = before.nterms as int;
            let v = nvars as int;
            let target = swapped(before@, i as int, j as int);
            assert forall|t: int| 0 <= t < self@.len() implies self@[t] == target[t] by {
                lemma_flat_index(t, v, n, v);
                if t == i {
                    assert(self.term_exponents(t) =~= before.term_exponents(j as int));
                } else if t == j {
                    assert(self.term_exponents(t) =~= before.term_exponents(i as int));
                } else {
                    if t < i {
                        lemma_flat_index(t, v, i as int, v);
                    } else {
                        lemma_flat_index(i as int, v, t, v);
                    }
                    if t < j {
                        lemma_flat_index(t, v, j as int, v);
                    } else {
                        lemma_flat_index(j as int, v, t, v);
                    }
                    assert(self.term_exponents(t) =~= before.term_exponents(t));
                }
            }
            assert(self@ =~= target);
        }
    }
}

/// A priority queue of terms with their origins. The largest term is at the
/// root.
pub struct TermHeap<R: Ring, E: Exponent> {
    /// The terms, in the order of the heap.
    pub terms: MultivariatePolynomial<R, E>,
    /// For every term the two indices that tell where it comes from.
    pub origins: Vec<(usize, usize)>,
}

impl<R: Ring, E: Exponent> View for TermHeap<R, E> {
    type V = Terms<R>;

    /// The terms, in the order of the heap.
    open spec fn view(&self) -> Terms<R> {
        self.terms@
    }
}

impl<R: Ring, E: Exponent> TermHeap<R, E> {
    /// The terms with their origins, in the order of the heap.
    pub open spec fn items(&self) -> Seq<Item<R>> {
        Seq::new(self.terms.nterms as nat, |k: int| (self.terms@[k], self.origins@[k]))
    }

    /// The buffers fit, and the coefficients are ring elements.
    pub open spec fn shaped(&self) -> bool {
        &&& self.terms.shaped()
        &&& self.origins@.len() == self.terms.nterms
        &&& coefficients_wf(self.terms@)
    }

    /// The invariant of the type: every term is at most as large as its
    /// parent.
    pub open spec fn wf(&self) -> bool {
        &&& self.shaped()
        &&& heap_ordered(self.terms@)
    }

    /// An empty queue of terms in `nvars` variables.
    pub fn new(nvars: usize) -> (r: Self)
        ensures
            r.wf(),
            r.terms.nvars == nvars,
            r@ == Terms::<R>::empty(),
    {
        let r = TermHeap { terms: MultivariatePolynomial::with_nvars(nvars), origins: Vec::new() };
        assert(r@.len() == 0);
        r
    }

    /// The number of terms in the queue.
    pub fn len(&self) -> (n: usize)
        ensures
            n == self.terms.nterms,
    {
        self.terms.nterms
    }

    /// Swaps the items at the places `i` and `j`.
    fn swap_items(&mut self, i: usize, j: usize)
        requires
            old(self).shaped(),
            i < old(self).terms.nterms,
            j < old(self).terms.nterms,
        ensures
            final(self).shaped(),
            final(self).terms.nvars == old(self).terms.nvars,
            final(self).terms.nterms == old(self).terms.nterms,
            final(self)@ == swapped(old(self)@, i as int, j as int),
            final(self).items() == swapped(old(self).items(), i as int, j as int),
            stands_for(final(self)@, old(self)@),
    {
        let ghost before = *self;
        self.terms.swap_terms(i, j);
        let oi = self.origins[i];
        let oj = self.origins[j];
        self.origins[i] = oj;
        self.origins[j] = oi;
        proof {
            assert(self.terms@ == swapped(before.terms@, i as int, j as int));
            assert(self.origins@ == swapped(before.origins@, i as int, j as int));
            assert(self.items() =~= swapped(before.items(), i as int, j as int));
            assert forall|e: Seq<nat>| #[trigger]
                coefficient_in(self@, e) == coefficient_in(before@, e) by {
                lemma_coefficient_swapped(before@, i as int, j as int, e);
            }
            lemma_coefficient_swapped(before@, i as int, j as int, Seq::<nat>::empty());
        }
    }

    /// Whether the term at the place `i` is smaller than the one at `j`.
    fn smaller(&self, i: usize, j: usize) -> (b: bool)
        requires
            self.shaped(),
            i < self.terms.nterms,
            j < self.terms.nterms,
        ensures
            b == lex_less(self@[i as int].1, self@[j as int].1),
    {
        let at = self.terms.offset(j);
        self.terms.compare_term(i, self.terms.exponents.as_slice(), at) == TermOrder::Less
    }

    /// Moves the term at the place `k` up until its parent is not smaller.
    fn sift_up(&mut self, k: usize)
        requires
            old(self).shaped(),
            k < old(self).terms.nterms,
            ordered_but_up(old(self)@, k as int, true),
        ensures
            final(self).wf(),
            final(self).terms.nvars == old(self).terms.nvars,
            final(self).terms.nterms == old(self).terms.nterms,
            stands_for(final(self)@, old(self)@),
            items_within(final(self).items(), old(self).items()),
            items_within(old(self).items(), final(self).items()),
    {
        let ghost start = *self;
        let mut k = k;
        let mut going = true;
        proof {
            lemma_within_reflexive(self.items());
        }
        while going && k > 0
            invariant
                self.shaped(),
                self.terms.nvars == start.terms.nvars,
                self.terms.nterms == start.terms.nterms,
                k < self.terms.nterms,
                stands_for(self@, start@),
                items_within(self.items(), start.items()),
                items_within(start.items(), self.items()),
                ordered_but_up(self@, k as int, going),
            decreases k, (if going { 1nat } else { 0nat }),
        {
            let p = (k - 1) / 2;
            if self.smaller(p, k) {
                let ghost before = *self;
                self.swap_items(p, k);
                proof {
                    lemma_sift_up_step(before@, self.terms.nvars as nat, k as int);
                    lemma_items_swapped(before.items(), p as int, k as int);
                    lemma_within_transitive(self.items(), before.items(), start.items());
                    lemma_within_transitive(start.items(), before.items(), self.items());
                    lemma_stands_for_transitive(self@, before@, start@);
                }
                k = p;
            } else {
                proof {
                    lemma_sift_up_done(self@, k as int);
                }
                going = false;
            }
        }
        proof {
            lemma_sift_up_root(self@, k as int, going);
        }
    }

    /// The place of the largest among the term at `k` and its children.
    fn largest_of_family(&self, k: usize) -> (m: usize)
        requires
            self.shaped(),
            k < self.terms.nterms,
        ensures
            m < self.terms.nterms,
            m == k || (m - 1) / 2 == k,
            m != k ==> lex_less(self@[k as int].1, self@[m as int].1),
            forall|c: int|
                1 <= c < self@.len() && (c - 1) / 2 == k ==> !lex_less(
                    self@[m as int].1,
                    (#[trigger] self@[c]).1,
                ),
    {
        let n = self.terms.nterms;
        let ghost ts = self@;
        let ghost nv = self.terms.nvars as nat;
        let mut m = k;
        // the children are at 2k + 1 and 2k + 2, where these are places
        let half = (n - 1) / 2;
        let has_left = k < half || (k == half && n % 2 == 0);
        let has_right = k < half;
        if has_left {
            let l = 2 * k + 1;
            if self.smaller(m, l) {
                m = l;
            }
            if has_right {
                let r = l + 1;
                if self.smaller(m, r) {
                    proof {
                        if m == l {
                            lemma_lex_asymmetric(ts[l as int].1, ts[r as int].1);
                            lemma_lex_transitive(ts[k as int].1, ts[l as int].1, ts[r as int].1);
                        } else {
                            lemma_le_less(ts[l as int].1, ts[k as int].1, ts[r as int].1);
                            lemma_lex_asymmetric(ts[l as int].1, ts[r as int].1);
                        }
                    }
                    m = r;
                }
            }
        }
        proof {
            lemma_lex_irreflexive(ts[m as int].1);
            assert forall|c: int| 1 <= c < ts.len() && (c - 1) / 2 == k implies !lex_less(
                ts[m as int].1,
                (#[trigger] ts[c]).1,
            ) by {
                assert(c == 2 * k + 1 || c == 2 * k + 2);
            }
        }
        m
    }

    /// Moves the term at the place `k` down until no child is larger.
    fn sift_down(&mut self, k: usize)
        requires
            old(self).shaped(),
            k < old(self).terms.nterms,
            ordered_but_down(old(self)@, k as int, true),
        ensures
            final(self).wf(),
            final(self).terms.nvars == old(self).terms.nvars,
            final(self).terms.nterms == old(self).terms.nterms,
            stands_for(final(self)@, old(self)@),
            items_within(final(self).items(), old(self).items()),
            items_within(old(self).items(), final(self).items()),
    {
        let ghost start = *self;
        let n = self.terms.nterms;
        let mut k = k;
        let mut going = true;
        proof {
            lemma_within_reflexive(self.items());
        }
        while going
            invariant
                self.shaped(),
                self.terms.nvars == start.terms.nvars,
                self.terms.nterms == start.terms.nterms,
                n == self.terms.nterms,
                k < n,
                stands_for(self@, start@),
                items_within(self.items(), start.items()),
                items_within(start.items(), self.items()),
                ordered_but_down(self@, k as int, going),
            decreases n - k, (if going { 1nat } else { 0nat }),
        {
            let m = self.largest_of_family(k);
            if m == k {
                proof {
                    lemma_sift_down_done(self@, k as int);
                }
                going = false;
            } else {
                let ghost before = *self;
                self.swap_items(k, m);
                proof {
                    lemma_sift_down_step(before@, self.terms.nvars as nat, k as int, m as int);
                    lemma_items_swapped(before.items(), k as int, m as int);
                    lemma_within_transitive(self.items(), before.items(), start.items());
                    lemma_within_transitive(start.items(), before.items(), self.items());
                    lemma_stands_for_transitive(self@, before@, start@);
                }
                k = m;
            }
        }
    }

    /// Puts a term with its origin into the queue.
    pub fn push(&mut self, c: R, e: &[E], origin: (usize, usize))
        requires
            old(self).wf(),
            c.wf(),
            e@.len() == old(self).terms.nvars,
        ensures
            final(self).wf(),
            final(self).terms.nvars == old(self).terms.nvars,
            final(self).terms.nterms == old(self).terms.nterms + 1,
            is_sum_with_term(final(self)@, old(self)@, (c, values(e@))),
            items_within(final(self).items(), old(self).items().push(((c, values(e@)), origin))),
            items_within(old(self).items().push(((c, values(e@)), origin)), final(self).items()),
    {
        let ghost before = *self;
        let ghost t = (c, values(e@));
        self.terms.push_term(c, e, 0);
        self.origins.push(origin);
        let ghost pushed = *self;
        proof {
            crate::poly::raw::terms::lemma_coefficients_wf_push(before@, t);
            assert(pushed.terms@ == before.terms@.push(t));
            assert(pushed.origins@ == before.origins@.push(origin));
            assert(pushed.terms@.len() == before.terms@.len() + 1);
            assert(pushed.terms.nterms == before.terms.nterms + 1);
            assert(pushed.items().len() == before.items().len() + 1);
            assert forall|k: int| 0 <= k < pushed.items().len() implies pushed.items()[k]
                == before.items().push((t, origin))[k] by {
                if k < before.items().len() {
                    assert(pushed.terms@[k] == before.terms@[k]);
                    assert(pushed.origins@[k] == before.origins@[k]);
                }
            }
            assert(pushed.items() =~= before.items().push((t, origin)));
            lemma_within_reflexive(pushed.items());
            assert forall|k: int| 1 <= k < pushed@.len() && k != before@.len() implies !lex_less(
                pushed@[(k - 1) / 2].1,
                (#[trigger] pushed@[k]).1,
            ) by {
                assert(pushed@[k] == before@[k]);
                assert(pushed@[(k - 1) / 2] == before@[(k - 1) / 2]);
                assert(!lex_less(before@[(k - 1) / 2].1, before@[k].1));
            }
        }
        let last = self.terms.nterms - 1;
        self.sift_up(last);
        proof {
            lemma_within_transitive(
                self.items(),
                pushed.items(),
                before.items().push((t, origin)),
            );
            lemma_within_transitive(
                before.items().push((t, origin)),
                pushed.items(),
                self.items(),
            );
        }
        proof {
            assert forall|x: Seq<nat>| #[trigger]
                coefficient_in(self@, x) == coefficient_in(before@, x).add_spec(term_at(t, x)) by {
                lemma_coefficient_push(before@, t, x);
                assert(coefficient_in(self@, x) == coefficient_in(pushed@, x));
            }
        }
    }

    /// Takes the largest term out of the queue, with its origin.
    pub fn pop(&mut self) -> (r: (Monomial<R, E>, (usize, usize)))
        requires
            old(self).wf(),
            old(self).terms.nterms > 0,
        ensures
            final(self).wf(),
            final(self).terms.nvars == old(self).terms.nvars,
            final(self).terms.nterms == old(self).terms.nterms - 1,
            (r.0@, r.1) == old(self).items()[0],
            r.0.exponents@.len() == old(self).terms.nvars,
            r.0.coefficient.wf(),
            forall|k: int| 0 <= k < old(self)@.len() ==> !lex_less(r.0@.1, (#[trigger] old(self)@[k]).1),
            is_sum_with_term(old(self)@, final(self)@, r.0@),
            items_within(final(self).items(), old(self).items()),
            forall|l: int|
                1 <= l < old(self).items().len() ==> has_item(
                    final(self).items(),
                    #[trigger] old(self).items()[l],
                ),
    {
        let ghost before = *self;
        let n = self.terms.nterms;
        let origin = self.origins[0];
        let root = self.terms.to_monomial(0);
        proof {
            R::lemma_constants();
            assert(root.exponents@.len() == root@.1.len());
            assert(before@[0].0.wf());
            assert forall|k: int| 0 <= k < before@.len() implies !lex_less(
                root@.1,
                (#[trigger] before@[k]).1,
            ) by {
                lemma_root_is_largest(before@, before.terms.nvars as nat, k);
            }
        }
        let last = n - 1;
        self.swap_items(0, last);
        let ghost swapped_heap = *self;
        self.terms.remove_term(last);
        self.origins.pop();
        let ghost cut = *self;
        proof {
            let sw = swapped_heap@;
            assert(sw[last as int] == before@[0]);
            assert(cut@ =~= sw.drop_last());
            assert(sw.remove(last as int) =~= sw.drop_last());
            assert(coefficients_wf(cut@)) by {
                assert forall|k: int| 0 <= k < cut@.len() implies (#[trigger] cut@[k]).0.wf() by {
                    assert(cut@[k] == sw[k]);
                }
            }
            assert(cut.items() =~= swapped_heap.items().drop_last());
            // the items that are left are the old ones but the root
            assert forall|k: int| 0 <= k < cut.items().len() implies has_item(
                before.items(),
                #[trigger] cut.items()[k],
            ) by {
                if k == 0 {
                    assert(before.items()[last as int] == cut.items()[k]);
                } else {
                    assert(before.items()[k] == cut.items()[k]);
                }
            }
            assert forall|l: int| 1 <= l < before.items().len() implies has_item(
                cut.items(),
                #[trigger] before.items()[l],
            ) by {
                if l == last {
                    assert(cut.items()[0] == before.items()[l]);
                } else {
                    assert(cut.items()[l] == before.items()[l]);
                }
            }
            // what is left, plus the root, is what was there
            assert forall|x: Seq<nat>| #[trigger]
                coefficient_in(before@, x) == coefficient_in(cut@, x).add_spec(
                    term_at(root@, x),
                ) by {
                assert(coefficient_in(sw, x) == coefficient_in(before@, x));
                assert(sw.last() == sw[last as int]);
            }
        }
        if last > 0 {
            proof {
                assert forall|c: int| 1 <= c < cut@.len() && (c - 1) / 2 != 0 implies !lex_less(
                    cut@[(c - 1) / 2].1,
                    (#[trigger] cut@[c]).1,
                ) by {
                    assert(cut@[c] == before@[c]);
                    assert(cut@[(c - 1) / 2] == before@[(c - 1) / 2]);
                    assert(!lex_less(before@[(c - 1) / 2].1, before@[c].1));
                }
            }
            self.sift_down(0);
            proof {
                lemma_within_transitive(self.items(), cut.items(), before.items());
                assert forall|l: int| 1 <= l < before.items().len() implies has_item(
                    self.items(),
                    #[trigger] before.items()[l],
                ) by {
                    assert(has_item(cut.items(), before.items()[l]));
                    let k0 = choose|k: int|
                        0 <= k < cut.items().len() && #[trigger] cut.items()[k] == before.items()[l];
                    assert(has_item(self.items(), cut.items()[k0]));
                }
                assert forall|x: Seq<nat>| #[trigger]
                    coefficient_in(before@, x) == coefficient_in(self@, x).add_spec(
                        term_at(root@, x),
                    ) by {
                    assert(coefficient_in(self@, x) == coefficient_in(cut@, x));
                    assert(coefficient_in(before@, x) == coefficient_in(cut@, x).add_spec(
                        term_at(root@, x),
                    ));
                }
            }
        }
        (root, origin)
    }
}

/// The items of a sequence with two of them swapped are the items of the
/// sequence.
pub proof fn lemma_items_swapped<R: Ring>(s: Seq<Item<R>>, i: int, j: int)
    requires
        0 <= i < s.len(),
        0 <= j < s.len(),
    ensures
        items_within(swapped(s, i, j), s),
        items_within(s, swapped(s, i, j)),
{
    let t = swapped(s, i, j);
    assert forall|k: int| 0 <= k < t.len() implies has_item(s, #[trigger] t[k]) by {
        let l = if k == i { j } else if k == j { i } else { k };
        assert(s[l] == t[k]);
    }
    assert forall|k: int| 0 <= k < s.len() implies has_item(t, #[trigger] s[k]) by {
        let l = if k == i { j } else if k == j { i } else { k };
        assert(t[l] == s[k]);
    }
}

pub proof fn lemma_within_transitive<R: Ring>(a: Seq<Item<R>>, b: Seq<Item<R>>, c: Seq<Item<R>>)
    requires
        items_within(a, b),
        items_within(b, c),
    ensures
        items_within(a, c),
{
    assert forall|k: int| 0 <= k < a.len() implies has_item(c, #[trigger] a[k]) by {
        assert(has_item(b, a[k]));
        let m = choose|m: int| 0 <= m < b.len() && #[trigger] b[m] == a[k];
        assert(has_item(c, b[m]));
    }
}

pub proof fn lemma_within_reflexive<R: Ring>(a: Seq<Item<R>>)
    ensures
        items_within(a, a),
{
    assert forall|k: int| 0 <= k < a.len() implies has_item(a, #[trigger] a[k]) by {
        assert(a[k] == a[k]);
    }
}

pub proof fn lemma_stands_for_transitive<R: Ring>(a: Terms<R>, b: Terms<R>, c: Terms<R>)
    requires
        stands_for(a, b),
        stands_for(b, c),
    ensures
        stands_for(a, c),
{
    assert forall|e: Seq<nat>| #[trigger] coefficient_in(a, e) == coefficient_in(c, e) by {
        assert(coefficient_in(a, e) == coefficient_in(b, e));
        assert(coefficient_in(b, e) == coefficient_in(c, e));
    }
}

/// The heap is in order but for the term at the place `k`, which may be
/// larger than its parent; its children are not larger than its parent.
/// With `open` false the term at `k` is in order as well.
pub open spec fn ordered_but_up<R: Ring>(ts: Terms<R>, k: int, open: bool) -> bool {
    &&& forall|c: int|
        1 <= c < ts.len() && (c != k || !open) ==> !lex_less(ts[(c - 1) / 2].1, (#[trigger] ts[c]).1)
    &&& forall|c: int|
        1 <= c < ts.len() && (c - 1) / 2 == k && k >= 1 ==> !lex_less(
            ts[(k - 1) / 2].1,
            (#[trigger] ts[c]).1,
        )
}

/// The heap is in order but for the children of the term at the place `k`,
/// which may be larger than it; they are not larger than its parent. With
/// `open` false the children of `k` are in order as well.
pub open spec fn ordered_but_down<R: Ring>(ts: Terms<R>, k: int, open: bool) -> bool {
    &&& forall|c: int|
        1 <= c < ts.len() && ((c - 1) / 2 != k || !open) ==> !lex_less(
            ts[(c - 1) / 2].1,
            (#[trigger] ts[c]).1,
        )
    &&& forall|c: int|
        1 <= c < ts.len() && (c - 1) / 2 == k && k >= 1 ==> !lex_less(
            ts[(k - 1) / 2].1,
            (#[trigger] ts[c]).1,
        )
}

/// A term that was smaller than its child `k` has changed places with it.
pub proof fn lemma_sift_up_step<R: Ring>(ts: Terms<R>, nvars: nat, k: int)
    requires
        1 <= k < ts.len(),
        forall|i: int| 0 <= i < ts.len() ==> (#[trigger] ts[i]).1.len() == nvars,
        ordered_but_up(ts, k, true),
        lex_less(ts[(k - 1) / 2].1, ts[k].1),
    ensures
        ordered_but_up(swapped(ts, (k - 1) / 2, k), (k - 1) / 2, true),
{
    let p = (k - 1) / 2;
    let ns = swapped(ts, p, k);
    lemma_lex_asymmetric(ts[p].1, ts[k].1);
    assert forall|c: int| 1 <= c < ns.len() && c != p implies !lex_less(
        ns[(c - 1) / 2].1,
        (#[trigger] ns[c]).1,
    ) by {
        let pc = (c - 1) / 2;
        if c == k {
        } else if pc == k {
            assert(!lex_less(ts[(k - 1) / 2].1, ts[c].1));
        } else if pc == p {
            assert(!lex_less(ts[p].1, ts[c].1));
            if lex_less(ts[k].1, ts[c].1) {
                lemma_lex_transitive(ts[p].1, ts[k].1, ts[c].1);
            }
        } else {
            assert(!lex_less(ts[pc].1, ts[c].1));
        }
    }
    assert forall|c: int| 1 <= c < ns.len() && (c - 1) / 2 == p && p >= 1 implies !lex_less(
        ns[(p - 1) / 2].1,
        (#[trigger] ns[c]).1,
    ) by {
        let g = (p - 1) / 2;
        assert(!lex_less(ts[g].1, ts[p].1));
        if c != k {
            assert(!lex_less(ts[p].1, ts[c].1));
            lemma_le_transitive(ts[c].1, ts[p].1, ts[g].1);
        }
    }
}

/// A term whose parent is not smaller is in order.
pub proof fn lemma_sift_up_done<R: Ring>(ts: Terms<R>, k: int)
    requires
        1 <= k < ts.len(),
        ordered_but_up(ts, k, true),
        !lex_less(ts[(k - 1) / 2].1, ts[k].1),
    ensures
        ordered_but_up(ts, k, false),
{
}

/// A heap that is in order but for its root, as seen from below, is in
/// order.
pub proof fn lemma_sift_up_root<R: Ring>(ts: Terms<R>, k: int, open: bool)
    requires
        ordered_but_up(ts, k, open),
        !open || k == 0,
    ensures
        heap_ordered(ts),
{
}

/// A term that was smaller than its largest child `m` has changed places
/// with it.
pub proof fn lemma_sift_down_step<R: Ring>(ts: Terms<R>, nvars: nat, k: int, m: int)
    requires
        0 <= k < ts.len(),
        1 <= m < ts.len(),
        (m - 1) / 2 == k,
        forall|i: int| 0 <= i < ts.len() ==> (#[trigger] ts[i]).1.len() == nvars,
        ordered_but_down(ts, k, true),
        lex_less(ts[k].1, ts[m].1),
        forall|c: int|
            1 <= c < ts.len() && (c - 1) / 2 == k ==> !lex_less(ts[m].1, (#[trigger] ts[c]).1),
    ensures
        ordered_but_down(swapped(ts, k, m), m, true),
{
    let ns = swapped(ts, k, m);
    lemma_lex_asymmetric(ts[k].1, ts[m].1);
    assert forall|c: int| 1 <= c < ns.len() && (c - 1) / 2 != m implies !lex_less(
        ns[(c - 1) / 2].1,
        (#[trigger] ns[c]).1,
    ) by {
        let pc = (c - 1) / 2;
        if c == m {
        } else if pc == k {
            assert(!lex_less(ts[m].1, ts[c].1));
        } else if c == k {
            assert(!lex_less(ts[(k - 1) / 2].1, ts[m].1));
        } else {
            assert(!lex_less(ts[pc].1, ts[c].1));
        }
    }
    assert forall|c: int| 1 <= c < ns.len() && (c - 1) / 2 == m && m >= 1 implies !lex_less(
        ns[(m - 1) / 2].1,
        (#[trigger] ns[c]).1,
    ) by {
        assert(!lex_less(ts[m].1, ts[c].1));
    }
}

/// A term none of whose children is larger is in order with them.
pub proof fn lemma_sift_down_done<R: Ring>(ts: Terms<R>, k: int)
    requires
        0 <= k < ts.len(),
        ordered_but_down(ts, k, true),
        forall|c: int|
            1 <= c < ts.len() && (c - 1) / 2 == k ==> !lex_less(ts[k].1, (#[trigger] ts[c]).1),
    ensures
        ordered_but_down(ts, k, false),
        heap_ordered(ts),
{
}

} // verus!
