//! Laws of the arithmetic of polynomials, over the term lists that the
//! operations speak of. In canonical form a polynomial has one term list, so
//! two results that stand for the same polynomial are the same list.

use vstd::prelude::*;
use crate::poly::raw::arithmetic::lemma_product_of_zero;
use crate::poly::raw::terms::{
    canonical, coefficient_in, coefficients_wf, is_product, is_sum, lemma_canonical_unique,
    lemma_coefficient_negated, lemma_coefficient_push, lemma_coefficient_wf,
    lemma_coefficients_wf_parts, lemma_shifted_wf, negated, product_coefficient, shifted, term_at,
    vec_add, Terms,
};
use crate::poly::ring::{lemma_add_interchange, Ring};

verus! {

/// `A + B == B + A`.
pub proof fn lemma_sum_commutative<R: Ring>(
    a: Terms<R>,
    b: Terms<R>,
    ab: Terms<R>,
    ba: Terms<R>,
    nvars: nat,
)
    requires
        coefficients_wf(a),
        coefficients_wf(b),
        is_sum(ab, a, b),
        is_sum(ba, b, a),
        canonical(ab, nvars),
        canonical(ba, nvars),
    ensures
        ab == ba,
{
    assert forall|e: Seq<nat>| coefficient_in(ab, e) == coefficient_in(ba, e) by {
        lemma_coefficient_wf(a, e);
        lemma_coefficient_wf(b, e);
        R::lemma_add_commutative(coefficient_in(a, e), coefficient_in(b, e));
    }
    lemma_canonical_unique(ab, ba, nvars);
}

/// `(A + B) + C == A + (B + C)`.
pub proof fn lemma_sum_associative<R: Ring>(
    a: Terms<R>,
    b: Terms<R>,
    c: Terms<R>,
    ab: Terms<R>,
    bc: Terms<R>,
    ab_c: Terms<R>,
    a_bc: Terms<R>,
    nvars: nat,
)
    requires
        coefficients_wf(a),
        coefficients_wf(b),
        coefficients_wf(c),
        is_sum(ab, a, b),
        is_sum(bc, b, c),
        is_sum(ab_c, ab, c),
        is_sum(a_bc, a, bc),
        canonical(ab_c, nvars),
        canonical(a_bc, nvars),
    ensures
        ab_c == a_bc,
{
    assert forall|e: Seq<nat>| coefficient_in(ab_c, e) == coefficient_in(a_bc, e) by {
        lemma_coefficient_wf(a, e);
        lemma_coefficient_wf(b, e);
        lemma_coefficient_wf(c, e);
        R::lemma_add_associative(coefficient_in(a, e), coefficient_in(b, e), coefficient_in(c, e));
    }
    lemma_canonical_unique(ab_c, a_bc, nvars);
}

/// `A + (-A) == 0`.
pub proof fn lemma_sum_with_negation<R: Ring>(a: Terms<R>, r: Terms<R>, nvars: nat)
    requires
        coefficients_wf(a),
        is_sum(r, a, negated(a)),
        canonical(r, nvars),
    ensures
        r == Terms::<R>::empty(),
{
    assert forall|e: Seq<nat>| coefficient_in(r, e) == coefficient_in(Terms::<R>::empty(), e) by {
        lemma_coefficient_wf(a, e);
        lemma_coefficient_negated(a, e);
        R::lemma_add_neg(coefficient_in(a, e));
    }
    lemma_canonical_unique(r, Terms::<R>::empty(), nvars);
}

/// All exponent vectors have `nvars` entries.
pub open spec fn uniform<R: Ring>(ts: Terms<R>, nvars: nat) -> bool {
    forall|i: int| 0 <= i < ts.len() ==> (#[trigger] ts[i]).1.len() == nvars
}

/// The product of two terms does not depend on their order.
proof fn lemma_pair_commutative<R: Ring>(x: (R, Seq<nat>), y: (R, Seq<nat>))
    requires
        x.0.wf(),
        y.0.wf(),
        x.1.len() == y.1.len(),
    ensures
        (x.0.mul_spec(y.0), vec_add(x.1, y.1)) == (y.0.mul_spec(x.0), vec_add(y.1, x.1)),
{
    R::lemma_mul_commutative(x.0, y.0);
    assert(vec_add(x.1, y.1) =~= vec_add(y.1, x.1));
}

/// The coefficients of a product are ring elements.
pub proof fn lemma_product_wf<R: Ring>(a: Terms<R>, b: Terms<R>, e: Seq<nat>)
    requires
        coefficients_wf(a),
        coefficients_wf(b),
    ensures
        product_coefficient(a, b, e).wf(),
    decreases b.len(),
{
    R::lemma_constants();
    if b.len() > 0 {
        lemma_coefficients_wf_parts(b, b.len() - 1);
        assert(b.drop_last() =~= b.subrange(0, b.len() - 1));
        lemma_product_wf(a, b.drop_last(), e);
        assert(b.last() == b[b.len() - 1]);
        lemma_shifted_wf(a, b.last());
        lemma_coefficient_wf(shifted(a, b.last()), e);
        R::lemma_closed(
            product_coefficient(a, b.drop_last(), e),
            coefficient_in(shifted(a, b.last()), e),
        );
    }
}

/// One more term `x` of the left factor adds to the product what the right
/// factor times `x` gives.
pub proof fn lemma_product_push_left<R: Ring>(
    a: Terms<R>,
    b: Terms<R>,
    x: (R, Seq<nat>),
    e: Seq<nat>,
    nvars: nat,
)
    requires
        coefficients_wf(a),
        coefficients_wf(b),
        uniform(b, nvars),
        x.0.wf(),
        x.1.len() == nvars,
    ensures
        product_coefficient(a.push(x), b, e) == product_coefficient(a, b, e).add_spec(
            coefficient_in(shifted(b, x), e),
        ),
    decreases b.len(),
{
    R::lemma_constants();
    if b.len() == 0 {
        assert(shifted(b, x) =~= Terms::<R>::empty());
        R::lemma_add_zero(R::zero_spec());
    } else {
        let b0 = b.drop_last();
        let y = b.last();
        assert(y == b[b.len() - 1]);
        lemma_coefficients_wf_parts(b, b.len() - 1);
        assert(b0 =~= b.subrange(0, b.len() - 1));
        assert(uniform(b0, nvars)) by {
            assert forall|i: int| 0 <= i < b0.len() implies (#[trigger] b0[i]).1.len() == nvars by {
                assert(b0[i] == b[i]);
            }
        }
        lemma_product_push_left(a, b0, x, e, nvars);
        let xy = (x.0.mul_spec(y.0), vec_add(x.1, y.1));
        let yx = (y.0.mul_spec(x.0), vec_add(y.1, x.1));
        lemma_pair_commutative(x, y);
        assert(shifted(a.push(x), y) =~= shifted(a, y).push(xy));
        assert(shifted(b, x) =~= shifted(b0, x).push(yx));
        lemma_coefficient_push(shifted(a, y), xy, e);
        lemma_coefficient_push(shifted(b0, x), yx, e);
        lemma_product_wf(a, b0, e);
        lemma_shifted_wf(b0, x);
        lemma_shifted_wf(a, y);
        lemma_coefficient_wf(shifted(b0, x), e);
        lemma_coefficient_wf(shifted(a, y), e);
        R::lemma_closed(x.0, y.0);
        lemma_add_interchange(
            product_coefficient(a, b0, e),
            coefficient_in(shifted(b0, x), e),
            coefficient_in(shifted(a, y), e),
            term_at(xy, e),
        );
    }
}

/// The coefficients of a product do not depend on the order of the factors.
pub proof fn lemma_product_coefficient_commutative<R: Ring>(
    a: Terms<R>,
    b: Terms<R>,
    e: Seq<nat>,
    nvars: nat,
)
    requires
        coefficients_wf(a),
        coefficients_wf(b),
        uniform(a, nvars),
        uniform(b, nvars),
    ensures
        product_coefficient(a, b, e) == product_coefficient(b, a, e),
    decreases a.len(),
{
    if a.len() == 0 {
        assert(a =~= Terms::<R>::empty());
        lemma_product_of_zero(b, e);
    } else {
        let a0 = a.drop_last();
        let x = a.last();
        assert(x == a[a.len() - 1]);
        lemma_coefficients_wf_parts(a, a.len() - 1);
        assert(a0 =~= a.subrange(0, a.len() - 1));
        assert(uniform(a0, nvars)) by {
            assert forall|i: int| 0 <= i < a0.len() implies (#[trigger] a0[i]).1.len() == nvars by {
                assert(a0[i] == a[i]);
            }
        }
        assert(a =~= a0.push(x));
        lemma_product_push_left(a0, b, x, e, nvars);
        lemma_product_coefficient_commutative(a0, b, e, nvars);
    }
}

/// `A * B == B * A`.
pub proof fn lemma_product_commutative<R: Ring>(
    a: Terms<R>,
    b: Terms<R>,
    ab: Terms<R>,
    ba: Terms<R>,
    nvars: nat,
)
    requires
        coefficients_wf(a),
        coefficients_wf(b),
        uniform(a, nvars),
        uniform(b, nvars),
        is_product(ab, a, b),
        is_product(ba, b, a),
        canonical(ab, nvars),
        canonical(ba, nvars),
    ensures
        ab == ba,
{
    assert forall|e: Seq<nat>| coefficient_in(ab, e) == coefficient_in(ba, e) by {
        lemma_product_coefficient_commutative(a, b, e, nvars);
    }
    lemma_canonical_unique(ab, ba, nvars);
}

} // verus!
