//! Algebraic laws of `R_q = Z_q[x]/(x^256 + 1)` on canonical coefficient
//! sequences. Products are compared through the transform: two canonical
//! polynomials with the same values at the 256 roots of `x^256 + 1` are equal.
use vstd::prelude::*;
use crate::ntt_layers::lemma_ntt_injective;
use crate::ntt_spec::{ntt_root, ntt_spec};
use crate::ring::{lemma_ntt_mul, lemma_poly_add_canonical, lemma_poly_mul_canonical};
use crate::ring_spec::{
    canonical, eval, lemma_eval_congruent, lemma_eval_lincomb, lemma_modq_add, lemma_modq_idem, lemma_modq_mul,
    lemma_modq_small, lemma_modq_sub, modq, poly_add, poly_mul, poly_neg, poly_pointwise, poly_sub,
    poly_zero,
};

verus! {

/// The transform of a sum is the coefficient-wise sum of the transforms.
pub proof fn lemma_ntt_add(a: Seq<int>, b: Seq<int>)
    requires
        a.len() == 256,
        b.len() == 256,
    ensures
        ntt_spec(poly_add(a, b)) == poly_add(ntt_spec(a), ntt_spec(b)),
{
    let s = Seq::new(256, |t: int| a[t] + 1 * b[t]);
    assert forall|j: int| 0 <= j < 256 implies #[trigger] ntt_spec(poly_add(a, b))[j] == poly_add(
        ntt_spec(a),
        ntt_spec(b),
    )[j] by {
        let y = ntt_root(j);
        lemma_eval_lincomb(a, b, 1, y);
        assert forall|t: int| 0 <= t < 256 implies modq(#[trigger] poly_add(a, b)[t]) == modq(s[t]) by {
            lemma_modq_idem(a[t] + b[t]);
        }
        lemma_eval_congruent(poly_add(a, b), s, y, y);
        lemma_modq_add(eval(a, y), eval(b, y));
    }
    assert(ntt_spec(poly_add(a, b)) =~= poly_add(ntt_spec(a), ntt_spec(b)));
}

/// Multiplication in `R_q` is commutative.
pub proof fn lemma_mul_comm(a: Seq<int>, b: Seq<int>)
    requires
        canonical(a),
        canonical(b),
    ensures
        poly_mul(a, b) == poly_mul(b, a),
{
    lemma_ntt_mul(a, b);
    lemma_ntt_mul(b, a);
    assert(poly_pointwise(ntt_spec(a), ntt_spec(b)) =~= poly_pointwise(ntt_spec(b), ntt_spec(a))) by {
        assert forall|j: int| 0 <= j < 256 implies #[trigger] ntt_spec(a)[j] * ntt_spec(b)[j] == ntt_spec(b)[j]
            * ntt_spec(a)[j] by {
            vstd::arithmetic::mul::lemma_mul_is_commutative(ntt_spec(a)[j], ntt_spec(b)[j]);
        }
    }
    lemma_poly_mul_canonical(a, b);
    lemma_poly_mul_canonical(b, a);
    lemma_ntt_injective(poly_mul(a, b), poly_mul(b, a));
}

/// Multiplication in `R_q` is associative.
pub proof fn lemma_mul_assoc(a: Seq<int>, b: Seq<int>, c: Seq<int>)
    requires
        canonical(a),
        canonical(b),
        canonical(c),
    ensures
        poly_mul(a, poly_mul(b, c)) == poly_mul(poly_mul(a, b), c),
{
    lemma_poly_mul_canonical(a, b);
    lemma_poly_mul_canonical(b, c);
    lemma_poly_mul_canonical(a, poly_mul(b, c));
    lemma_poly_mul_canonical(poly_mul(a, b), c);
    lemma_ntt_mul(b, c);
    lemma_ntt_mul(a, b);
    lemma_ntt_mul(a, poly_mul(b, c));
    lemma_ntt_mul(poly_mul(a, b), c);
    let fa = ntt_spec(a);
    let fb = ntt_spec(b);
    let fc = ntt_spec(c);
    assert forall|j: int| 0 <= j < 256 implies #[trigger] ntt_spec(poly_mul(a, poly_mul(b, c)))[j] == ntt_spec(
        poly_mul(poly_mul(a, b), c),
    )[j] by {
        lemma_modq_mul(fa[j], fb[j] * fc[j]);
        lemma_modq_mul(fa[j] * fb[j], fc[j]);
        vstd::arithmetic::mul::lemma_mul_is_associative(fa[j], fb[j], fc[j]);
    }
    assert(ntt_spec(poly_mul(a, poly_mul(b, c))) =~= ntt_spec(poly_mul(poly_mul(a, b), c)));
    lemma_ntt_injective(poly_mul(a, poly_mul(b, c)), poly_mul(poly_mul(a, b), c));
}

/// Multiplication distributes over addition in `R_q`.
pub proof fn lemma_mul_distrib(a: Seq<int>, b: Seq<int>, c: Seq<int>)
    requires
        canonical(a),
        canonical(b),
        canonical(c),
    ensures
        poly_mul(a, poly_add(b, c)) == poly_add(poly_mul(a, b), poly_mul(a, c)),
{
    lemma_poly_add_canonical(b, c);
    lemma_poly_mul_canonical(a, b);
    lemma_poly_mul_canonical(a, c);
    lemma_poly_mul_canonical(a, poly_add(b, c));
    lemma_poly_add_canonical(poly_mul(a, b), poly_mul(a, c));
    lemma_ntt_mul(a, poly_add(b, c));
    lemma_ntt_mul(a, b);
    lemma_ntt_mul(a, c);
    lemma_ntt_add(b, c);
    lemma_ntt_add(poly_mul(a, b), poly_mul(a, c));
    let fa = ntt_spec(a);
    let fb = ntt_spec(b);
    let fc = ntt_spec(c);
    assert forall|j: int| 0 <= j < 256 implies #[trigger] ntt_spec(poly_mul(a, poly_add(b, c)))[j] == ntt_spec(
        poly_add(poly_mul(a, b), poly_mul(a, c)),
    )[j] by {
        lemma_modq_mul(fa[j], fb[j] + fc[j]);
        lemma_modq_add(fa[j] * fb[j], fa[j] * fc[j]);
        vstd::arithmetic::mul::lemma_mul_is_distributive_add(fa[j], fb[j], fc[j]);
    }
    assert(ntt_spec(poly_mul(a, poly_add(b, c))) =~= ntt_spec(poly_add(poly_mul(a, b), poly_mul(a, c))));
    lemma_ntt_injective(poly_mul(a, poly_add(b, c)), poly_add(poly_mul(a, b), poly_mul(a, c)));
}

/// `a * (c * d) == c * (a * d)` in `R_q`.
pub proof fn lemma_mul_left_comm(a: Seq<int>, c: Seq<int>, d: Seq<int>)
    requires
        canonical(a),
        canonical(c),
        canonical(d),
    ensures
        poly_mul(a, poly_mul(c, d)) == poly_mul(c, poly_mul(a, d)),
{
    lemma_mul_assoc(a, c, d);
    lemma_mul_comm(a, c);
    lemma_mul_assoc(c, a, d);
}

/// Subtracting what was added gives back a canonical polynomial: `(x + y) - y == x`.
pub proof fn lemma_add_sub_cancel(x: Seq<int>, y: Seq<int>)
    requires
        canonical(x),
        y.len() == 256,
    ensures
        poly_sub(poly_add(x, y), y) == x,
{
    assert forall|k: int| 0 <= k < 256 implies #[trigger] poly_sub(poly_add(x, y), y)[k] == x[k] by {
        lemma_modq_sub(x[k] + y[k], y[k]);
        lemma_modq_small(x[k]);
    }
    assert(poly_sub(poly_add(x, y), y) =~= x);
}

/// Adding the negation gives zero: `(-x) + x == 0`.
pub proof fn lemma_neg_add_zero(x: Seq<int>)
    requires
        x.len() == 256,
    ensures
        poly_add(poly_neg(x), x) == poly_zero(),
{
    assert forall|k: int| 0 <= k < 256 implies #[trigger] poly_add(poly_neg(x), x)[k] == 0 by {
        lemma_modq_add(-x[k], x[k]);
        lemma_modq_small(0);
    }
    assert(poly_add(poly_neg(x), x) =~= poly_zero());
}

/// Multiplying by zero gives zero.
pub proof fn lemma_mul_zero(a: Seq<int>)
    requires
        canonical(a),
    ensures
        poly_mul(a, poly_zero()) == poly_zero(),
{
    let z = poly_zero();
    lemma_poly_mul_canonical(a, z);
    lemma_ntt_mul(a, z);
    assert forall|j: int| 0 <= j < 256 implies #[trigger] ntt_spec(z)[j] == 0 by {
        lemma_eval_zero(z, ntt_root(j));
        lemma_modq_small(0);
    }
    assert forall|j: int| 0 <= j < 256 implies #[trigger] ntt_spec(poly_mul(a, z))[j] == ntt_spec(z)[j] by {
        assert(ntt_spec(z)[j] == 0);
        assert(ntt_spec(a)[j] * 0 == 0);
        lemma_modq_small(0);
    }
    assert(ntt_spec(poly_mul(a, z)) =~= ntt_spec(z));
    lemma_ntt_injective(poly_mul(a, z), z);
}

/// A polynomial whose coefficients are all zero evaluates to zero.
proof fn lemma_eval_zero(s: Seq<int>, y: int)
    requires
        forall|t: int| 0 <= t < s.len() ==> #[trigger] s[t] == 0,
    ensures
        eval(s, y) == 0,
    decreases s.len(),
{
    if s.len() > 0 {
        let rest = s.subrange(1, s.len() as int);
        assert forall|t: int| 0 <= t < rest.len() implies #[trigger] rest[t] == 0 by {
            assert(rest[t] == s[t + 1]);
        }
        lemma_eval_zero(rest, y);
    }
}


/// Negation is an involution on canonical polynomials: `-(-x) == x`.
pub proof fn lemma_neg_neg(x: Seq<int>)
    requires
        canonical(x),
    ensures
        poly_neg(poly_neg(x)) == x,
{
    assert forall|k: int| 0 <= k < 256 implies #[trigger] poly_neg(poly_neg(x))[k] == x[k] by {
        lemma_modq_sub(0, -x[k]);
        lemma_modq_small(x[k]);
    }
    assert(poly_neg(poly_neg(x)) =~= x);
}

} // verus!
