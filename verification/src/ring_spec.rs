//! Mathematical model of the ring `R_q = Z_q[x]/(x^256 + 1)`.
//!
//! A polynomial is modelled as a `Seq<int>` of its 256 coefficients, lowest
//! degree first. Ring operations are defined coefficient-wise modulo `q`, and
//! multiplication is the negacyclic (schoolbook) convolution.
use vstd::prelude::*;
use vstd::arithmetic::div_mod::*;
use vstd::arithmetic::mul::*;
use crate::params::Q;

verus! {

/// Reduction of an integer into `[0, q)`.
pub open spec fn modq(x: int) -> int {
    x % (Q as int)
}

/// A coefficient sequence of length 256 with every entry in `[0, q)`.
pub open spec fn canonical(s: Seq<int>) -> bool {
    &&& s.len() == 256
    &&& forall|i: int| 0 <= i < 256 ==> 0 <= #[trigger] s[i] < Q
}

/// The zero polynomial.
pub open spec fn poly_zero() -> Seq<int> {
    Seq::new(256, |i: int| 0int)
}

/// Coefficient-wise sum modulo `q`.
pub open spec fn poly_add(a: Seq<int>, b: Seq<int>) -> Seq<int> {
    Seq::new(256, |i: int| modq(a[i] + b[i]))
}

/// Coefficient-wise difference modulo `q`.
pub open spec fn poly_sub(a: Seq<int>, b: Seq<int>) -> Seq<int> {
    Seq::new(256, |i: int| modq(a[i] - b[i]))
}

/// Additive inverse modulo `q`.
pub open spec fn poly_neg(a: Seq<int>) -> Seq<int> {
    Seq::new(256, |i: int| modq(-a[i]))
}

/// Multiplication of every coefficient by the scalar `c`, modulo `q`.
pub open spec fn poly_scale(c: int, a: Seq<int>) -> Seq<int> {
    Seq::new(256, |i: int| modq(c * a[i]))
}

/// Coefficient-wise product modulo `q` (the product in the NTT domain).
pub open spec fn poly_pointwise(a: Seq<int>, b: Seq<int>) -> Seq<int> {
    Seq::new(256, |i: int| modq(a[i] * b[i]))
}

/// The coefficient of `x^k` in `x^i * g` reduced modulo `x^256 + 1`
/// (before reduction modulo `q`), for `0 <= i, k < 256`.
pub open spec fn nega_term(g: Seq<int>, i: int, k: int) -> int {
    if i <= k {
        g[k - i]
    } else {
        -g[k + 256 - i]
    }
}

/// `sum_{i < n} f[i] * nega_term(g, i, k)`.
pub open spec fn conv_sum(f: Seq<int>, g: Seq<int>, n: nat, k: int) -> int
    decreases n,
{
    if n == 0 {
        0
    } else {
        conv_sum(f, g, (n - 1) as nat, k) + f[n - 1] * nega_term(g, n - 1, k)
    }
}

/// Product in `R_q`: `(f * g)_k = sum_{i+j=k} f_i g_j - sum_{i+j=k+256} f_i g_j (mod q)`.
pub open spec fn poly_mul(f: Seq<int>, g: Seq<int>) -> Seq<int> {
    Seq::new(256, |k: int| modq(conv_sum(f, g, 256, k)))
}

/// Evaluation of the polynomial with coefficients `s` at `y` (Horner form).
pub open spec fn eval(s: Seq<int>, y: int) -> int
    decreases s.len(),
{
    if s.len() == 0 {
        0
    } else {
        s[0] + y * eval(s.subrange(1, s.len() as int), y)
    }
}

// ---------------------------------------------------------------------------
// Modular arithmetic helpers
// ---------------------------------------------------------------------------

pub proof fn lemma_modq_range(x: int)
    ensures
        0 <= modq(x) < Q,
{
    lemma_mod_bound(x, Q as int);
}

pub proof fn lemma_modq_small(x: int)
    requires
        0 <= x < Q,
    ensures
        modq(x) == x,
{
    lemma_small_mod(x as nat, Q as nat);
}

pub proof fn lemma_modq_add(x: int, y: int)
    ensures
        modq(modq(x) + modq(y)) == modq(x + y),
        modq(modq(x) + y) == modq(x + y),
        modq(x + modq(y)) == modq(x + y),
{
    lemma_add_mod_noop(x, y, Q as int);
    lemma_add_mod_noop(modq(x), y, Q as int);
    lemma_add_mod_noop(x, modq(y), Q as int);
    lemma_mod_twice(x, Q as int);
    lemma_mod_twice(y, Q as int);
}

pub proof fn lemma_modq_sub(x: int, y: int)
    ensures
        modq(modq(x) - modq(y)) == modq(x - y),
        modq(modq(x) - y) == modq(x - y),
        modq(x - modq(y)) == modq(x - y),
{
    lemma_sub_mod_noop(x, y, Q as int);
    lemma_sub_mod_noop(modq(x), y, Q as int);
    lemma_sub_mod_noop(x, modq(y), Q as int);
    lemma_mod_twice(x, Q as int);
    lemma_mod_twice(y, Q as int);
}

pub proof fn lemma_modq_mul(x: int, y: int)
    ensures
        modq(modq(x) * modq(y)) == modq(x * y),
        modq(modq(x) * y) == modq(x * y),
        modq(x * modq(y)) == modq(x * y),
{
    lemma_mul_mod_noop(x, y, Q as int);
    lemma_mul_mod_noop_left(x, y, Q as int);
    lemma_mul_mod_noop_right(x, y, Q as int);
}

pub proof fn lemma_modq_idem(x: int)
    ensures
        modq(modq(x)) == modq(x),
{
    lemma_mod_twice(x, Q as int);
}

// ---------------------------------------------------------------------------
// Evaluation lemmas
// ---------------------------------------------------------------------------

/// `eval(a ++ b, y) = eval(a, y) + y^|a| * eval(b, y)`.
pub proof fn lemma_eval_concat(a: Seq<int>, b: Seq<int>, y: int)
    ensures
        eval(a + b, y) == eval(a, y) + vstd::arithmetic::power::pow(y, a.len()) * eval(b, y),
    decreases a.len(),
{
    reveal(vstd::arithmetic::power::pow);
    if a.len() == 0 {
        assert(a + b =~= b);
        assert(vstd::arithmetic::power::pow(y, 0) == 1);
        assert(eval(a, y) == 0);
        assert(eval(a + b, y) == eval(a, y) + vstd::arithmetic::power::pow(y, a.len()) * eval(b, y));
    } else {
        let a1 = a.subrange(1, a.len() as int);
        assert((a + b).subrange(1, (a + b).len() as int) =~= a1 + b);
        lemma_eval_concat(a1, b, y);
        let p = vstd::arithmetic::power::pow(y, a1.len());
        assert(vstd::arithmetic::power::pow(y, a.len()) == y * p);
        let ea1 = eval(a1, y);
        let eb = eval(b, y);
        assert(y * (ea1 + p * eb) == y * ea1 + (y * p) * eb) by (nonlinear_arith);
        assert((a + b)[0] == a[0]);
        assert(eval(a + b, y) == a[0] + y * eval(a1 + b, y));
        assert(eval(a, y) == a[0] + y * ea1);
        assert(eval(a + b, y) == eval(a, y) + vstd::arithmetic::power::pow(y, a.len()) * eval(b, y));
    }
}

/// Evaluation is linear: `eval(a + c*b, y) = eval(a, y) + c * eval(b, y)`.
pub proof fn lemma_eval_lincomb(a: Seq<int>, b: Seq<int>, c: int, y: int)
    requires
        a.len() == b.len(),
    ensures
        eval(Seq::new(a.len(), |t: int| a[t] + c * b[t]), y) == eval(a, y) + c * eval(b, y),
    decreases a.len(),
{
    let s = Seq::new(a.len(), |t: int| a[t] + c * b[t]);
    if a.len() > 0 {
        let a1 = a.subrange(1, a.len() as int);
        let b1 = b.subrange(1, b.len() as int);
        assert(s.subrange(1, s.len() as int) =~= Seq::new(a1.len(), |t: int| a1[t] + c * b1[t]));
        lemma_eval_lincomb(a1, b1, c, y);
        let ea = eval(a1, y);
        let eb = eval(b1, y);
        assert(y * (ea + c * eb) == y * ea + c * (y * eb)) by (nonlinear_arith);
        assert(c * (b[0] + y * eb) == c * b[0] + c * (y * eb)) by (nonlinear_arith);
    }
}

/// Evaluation respects congruence modulo `q` of coefficients and point.
pub proof fn lemma_eval_congruent(a: Seq<int>, b: Seq<int>, y1: int, y2: int)
    requires
        a.len() == b.len(),
        forall|t: int| 0 <= t < a.len() ==> modq(#[trigger] a[t]) == modq(b[t]),
        modq(y1) == modq(y2),
    ensures
        modq(eval(a, y1)) == modq(eval(b, y2)),
    decreases a.len(),
{
    if a.len() > 0 {
        let a1 = a.subrange(1, a.len() as int);
        let b1 = b.subrange(1, b.len() as int);
        assert forall|t: int| 0 <= t < a1.len() implies modq(#[trigger] a1[t]) == modq(b1[t]) by {
            assert(a1[t] == a[t + 1]);
            assert(b1[t] == b[t + 1]);
        }
        lemma_eval_congruent(a1, b1, y1, y2);
        let e1 = eval(a1, y1);
        let e2 = eval(b1, y2);
        lemma_modq_mul(y1, e1);
        lemma_modq_mul(y2, e2);
        assert(modq(y1 * e1) == modq(y2 * e2));
        lemma_modq_add(a[0], y1 * e1);
        lemma_modq_add(b[0], y2 * e2);
    }
}

// ---------------------------------------------------------------------------
// Evaluation of products
// ---------------------------------------------------------------------------

/// `x^i * g` reduced modulo `x^256 + 1` (coefficients not reduced modulo q).
pub open spec fn nega_shift(g: Seq<int>, i: int) -> Seq<int> {
    Seq::new(256, |k: int| nega_term(g, i, k))
}

/// The partial products `sum_{i < n} f[i] * x^i * g` (not reduced modulo q).
pub open spec fn conv_partial(f: Seq<int>, g: Seq<int>, n: nat) -> Seq<int> {
    Seq::new(256, |k: int| conv_sum(f, g, n, k))
}

/// `y` is a root of `x^256 + 1` modulo `q`.
pub open spec fn is_negacyclic_root(y: int) -> bool {
    modq(vstd::arithmetic::power::pow(y, 256)) == modq(-1)
}

proof fn lemma_eval_single(x: int, y: int)
    ensures
        eval(seq![x], y) == x,
{
    assert(seq![x].subrange(1, 1) =~= Seq::<int>::empty());
    assert(eval(Seq::<int>::empty(), y) == 0);
}

/// Multiplying by `x` in `R` multiplies the value at a root of `x^256 + 1` by `y`.
proof fn lemma_eval_nega_shift_step(g: Seq<int>, i: int, y: int)
    requires
        g.len() == 256,
        0 <= i < 256,
        is_negacyclic_root(y),
    ensures
        modq(eval(nega_shift(g, i + 1), y)) == modq(y * eval(nega_shift(g, i), y)),
{
    let h = nega_shift(g, i);
    let s = nega_shift(g, i + 1);
    let front = h.subrange(0, 255);
    assert(h =~= front + seq![h[255]]);
    lemma_eval_concat(front, seq![h[255]], y);
    lemma_eval_single(h[255], y);
    assert(s.subrange(1, 256) =~= front);
    assert(s[0] == -h[255]);
    let p255 = vstd::arithmetic::power::pow(y, 255);
    let p256 = vstd::arithmetic::power::pow(y, 256);
    assert(p256 == y * p255) by {
        reveal(vstd::arithmetic::power::pow);
    }
    let ef = eval(front, y);
    // y * eval(h) = y * ef + p256 * h[255]
    assert(y * eval(h, y) == y * ef + p256 * h[255]) by (nonlinear_arith)
        requires
            eval(h, y) == ef + p255 * h[255],
            p256 == y * p255,
    ;
    lemma_modq_mul(p256, h[255]);
    lemma_modq_mul(-1, h[255]);
    lemma_modq_add(y * ef, p256 * h[255]);
    lemma_modq_add(y * ef, -1 * h[255]);
    assert(eval(s, y) == -h[255] + y * ef);
}

proof fn lemma_eval_nega_shift(g: Seq<int>, i: int, y: int)
    requires
        g.len() == 256,
        0 <= i <= 256,
        is_negacyclic_root(y),
    ensures
        modq(eval(nega_shift(g, i), y)) == modq(vstd::arithmetic::power::pow(y, i as nat) * eval(g, y)),
    decreases i,
{
    reveal(vstd::arithmetic::power::pow);
    if i == 0 {
        assert(nega_shift(g, 0) =~= g);
        assert(vstd::arithmetic::power::pow(y, 0) == 1);
    } else {
        lemma_eval_nega_shift(g, i - 1, y);
        lemma_eval_nega_shift_step(g, i - 1, y);
        let e = eval(nega_shift(g, i - 1), y);
        let pp = vstd::arithmetic::power::pow(y, (i - 1) as nat);
        assert(vstd::arithmetic::power::pow(y, i as nat) == y * pp);
        lemma_modq_mul(y, e);
        lemma_modq_mul(y, pp * eval(g, y));
        assert(y * (pp * eval(g, y)) == (y * pp) * eval(g, y)) by (nonlinear_arith);
    }
}

proof fn lemma_eval_conv_partial(f: Seq<int>, g: Seq<int>, n: nat, y: int)
    requires
        f.len() == 256,
        g.len() == 256,
        n <= 256,
        is_negacyclic_root(y),
    ensures
        modq(eval(conv_partial(f, g, n), y)) == modq(eval(f.subrange(0, n as int), y) * eval(g, y)),
    decreases n,
{
    if n == 0 {
        assert(f.subrange(0, 0) =~= Seq::<int>::empty());
        let z = Seq::new(256, |k: int| 0int);
        assert(conv_partial(f, g, 0) =~= z);
        lemma_eval_lincomb(z, z, -1, y);
        assert(z =~= Seq::new(z.len(), |t: int| z[t] + (-1) * z[t]));
        assert(eval(z, y) == 0);
    } else {
        let m = (n - 1) as nat;
        lemma_eval_conv_partial(f, g, m, y);
        let prev = conv_partial(f, g, m);
        let sh = nega_shift(g, m as int);
        assert(conv_partial(f, g, n) =~= Seq::new(prev.len(), |t: int| prev[t] + f[m as int] * sh[t]));
        lemma_eval_lincomb(prev, sh, f[m as int], y);
        lemma_eval_nega_shift(g, m as int, y);
        let fs = f.subrange(0, m as int);
        assert(f.subrange(0, n as int) =~= fs + seq![f[m as int]]);
        lemma_eval_concat(fs, seq![f[m as int]], y);
        lemma_eval_single(f[m as int], y);
        let ep = eval(prev, y);
        let es = eval(sh, y);
        let eg = eval(g, y);
        let ef = eval(fs, y);
        let pm = vstd::arithmetic::power::pow(y, m);
        let c = f[m as int];
        lemma_modq_mul(c, es);
        lemma_modq_mul(c, pm * eg);
        lemma_modq_add(ep, c * es);
        lemma_modq_add(ep, c * (pm * eg));
        lemma_modq_add(modq(ep), modq(c * es));
        lemma_modq_add(ef * eg, c * (pm * eg));
        assert(modq(ep) == modq(ef * eg));
        lemma_modq_add(ep, modq(c * (pm * eg)));
        lemma_modq_add(ef * eg, modq(c * (pm * eg)));
        assert((ef + pm * c) * eg == ef * eg + c * (pm * eg)) by (nonlinear_arith);
    }
}

/// At a root of `x^256 + 1`, the value of a product in `R_q` is the product of
/// the values.
pub proof fn lemma_eval_poly_mul(f: Seq<int>, g: Seq<int>, y: int)
    requires
        f.len() == 256,
        g.len() == 256,
        is_negacyclic_root(y),
    ensures
        modq(eval(poly_mul(f, g), y)) == modq(eval(f, y) * eval(g, y)),
{
    lemma_eval_conv_partial(f, g, 256, y);
    assert(f.subrange(0, 256) =~= f);
    let c = conv_partial(f, g, 256);
    assert forall|t: int| 0 <= t < 256 implies modq(#[trigger] poly_mul(f, g)[t]) == modq(c[t]) by {
        lemma_modq_idem(c[t]);
    }
    lemma_eval_congruent(poly_mul(f, g), c, y, y);
}

} // verus!
