//! The butterfly layers of the transform and the theorems that connect them
//! to evaluation at the roots of `x^256 + 1`.
use vstd::prelude::*;
use vstd::arithmetic::div_mod::*;
use vstd::arithmetic::power::*;
use crate::params::Q;
use crate::ring_spec::{
    poly_scale,
    lemma_modq_idem,
    canonical, eval, lemma_eval_concat, lemma_eval_congruent, lemma_eval_lincomb, lemma_modq_add,
    lemma_modq_mul, lemma_modq_range, lemma_modq_small, lemma_modq_sub, modq,
};
use crate::ntt_spec::{is_layer_len, lemma_root_pow, lemma_twiddle_inverse, ntt_root, ntt_spec, zeta_at};

verus! {

/// One Cooley-Tukey layer with half-block length `len`: block `b` is split by
/// the twiddle factor `zeta_at(128/len + b)`.
pub open spec fn fwd_layer(w: Seq<int>, len: int) -> Seq<int> {
    Seq::new(
        256,
        |p: int|
            {
                let z = zeta_at(128int / len + p / (2 * len));
                if p % (2 * len) < len {
                    modq(w[p] + z * w[p + len])
                } else {
                    modq(w[p - len] - z * w[p])
                }
            },
    )
}

/// The forward layers with half-block lengths `128, 64, ..., len`, in order.
pub open spec fn fwd_layers(w: Seq<int>, len: int) -> Seq<int>
    decreases 256 - len,
{
    if len > 128 || len <= 0 {
        w
    } else {
        fwd_layer(fwd_layers(w, 2 * len), len)
    }
}

/// One Gentleman-Sande layer with half-block length `len`; it undoes the
/// forward layer of the same length up to a factor of 2.
pub open spec fn inv_layer(w: Seq<int>, len: int) -> Seq<int> {
    Seq::new(
        256,
        |p: int|
            {
                let zi = modq(-zeta_at(256int / len - 1 - p / (2 * len)));
                if p % (2 * len) < len {
                    modq(w[p] + w[p + len])
                } else {
                    modq(zi * (w[p - len] - w[p]))
                }
            },
    )
}

/// The inverse layers with half-block lengths `1, 2, ..., len / 2`, in order.
pub open spec fn inv_layers(w: Seq<int>, len: int) -> Seq<int>
    decreases len,
{
    if len <= 1 {
        w
    } else {
        inv_layer(inv_layers(w, len / 2), len / 2)
    }
}

/// Every block of size `s` of `w` agrees with `f` at the roots it owns.
pub open spec fn blocks_agree(w: Seq<int>, f: Seq<int>, s: int) -> bool {
    forall|j: int|
        0 <= j < 256 ==> modq(eval(w.subrange(j / s * s, j / s * s + s), #[trigger] ntt_root(j)))
            == modq(eval(f, ntt_root(j)))
}

proof fn lemma_div_unique(x: int, d: int, q: int, r: int)
    requires
        d > 0,
        0 <= r < d,
        x == q * d + r,
    ensures
        x / d == q,
        x % d == r,
{
    lemma_fundamental_div_mod_converse_div(x, d, q, r);
    lemma_fundamental_div_mod_converse_mod(x, d, q, r);
}

/// Position arithmetic of a butterfly block.
proof fn lemma_block_arith(j: int, len: int)
    requires
        0 <= j < 256,
        is_layer_len(len),
    ensures
        0 <= j / (2 * len) * (2 * len),
        j / (2 * len) * (2 * len) + 2 * len <= 256,
        j % (2 * len) < len ==> j / len * len == j / (2 * len) * (2 * len),
        j % (2 * len) >= len ==> j / len * len == j / (2 * len) * (2 * len) + len,
        forall|t: int|
            0 <= t < len ==> (#[trigger] (j / (2 * len) * (2 * len) + t)) / (2 * len) == j / (2
                * len) && (j / (2 * len) * (2 * len) + t) % (2 * len) == t,
        forall|t: int|
            0 <= t < len ==> (#[trigger] (j / (2 * len) * (2 * len) + len + t)) / (2 * len) == j
                / (2 * len) && (j / (2 * len) * (2 * len) + len + t) % (2 * len) == len + t,
{
    let d = 2 * len;
    let b = j / d;
    let r = j % d;
    lemma_fundamental_div_mod(j, d);
    assert(j == b * d + r) by {
        assert(j == d * b + r);
        vstd::arithmetic::mul::lemma_mul_is_commutative(d, b);
    }
    assert(0 <= r < d);
    assert(0 <= b) by {
        if b < 0 {
            assert(b * d <= -d) by (nonlinear_arith)
                requires b < 0, d > 0;
        }
    }
    let c = 256int / d;
    assert(256 == c * d) by {
        if len == 1 {
            lemma_div_unique(256, d, 128, 0);
            assert(c * d == 256) by (nonlinear_arith)
                requires
                    c == 128,
                    d == 2,
            ;
        } else if len == 2 {
            lemma_div_unique(256, d, 64, 0);
            assert(c * d == 256) by (nonlinear_arith)
                requires
                    c == 64,
                    d == 4,
            ;
        } else if len == 4 {
            lemma_div_unique(256, d, 32, 0);
            assert(c * d == 256) by (nonlinear_arith)
                requires
                    c == 32,
                    d == 8,
            ;
        } else if len == 8 {
            lemma_div_unique(256, d, 16, 0);
            assert(c * d == 256) by (nonlinear_arith)
                requires
                    c == 16,
                    d == 16,
            ;
        } else if len == 16 {
            lemma_div_unique(256, d, 8, 0);
            assert(c * d == 256) by (nonlinear_arith)
                requires
                    c == 8,
                    d == 32,
            ;
        } else if len == 32 {
            lemma_div_unique(256, d, 4, 0);
            assert(c * d == 256) by (nonlinear_arith)
                requires
                    c == 4,
                    d == 64,
            ;
        } else if len == 64 {
            lemma_div_unique(256, d, 2, 0);
            assert(c * d == 256) by (nonlinear_arith)
                requires
                    c == 2,
                    d == 128,
            ;
        } else {
            lemma_div_unique(256, d, 1, 0);
            assert(c * d == 256) by (nonlinear_arith)
                requires
                    c == 1,
                    d == 256,
            ;
        }
    }
    assert(b * d + d <= 256) by {
        assert(b * d < c * d) by (nonlinear_arith)
            requires
                b * d <= j,
                j < 256,
                256 == c * d,
        ;
        assert(b < c) by (nonlinear_arith)
            requires
                b * d < c * d,
                d > 0,
        ;
        assert((b + 1) * d <= c * d) by (nonlinear_arith)
            requires
                b + 1 <= c,
                d > 0,
        ;
        assert(b * d + d == (b + 1) * d) by (nonlinear_arith);
    }
    if r < len {
        assert(j == 2 * b * len + r) by (nonlinear_arith)
            requires
                j == b * d + r,
                d == 2 * len,
        ;
        lemma_div_unique(j, len, 2 * b, r);
        assert(2 * b * len == b * d) by (nonlinear_arith)
            requires d == 2 * len;
    } else {
        assert((2 * b + 1) * len == b * d + len) by (nonlinear_arith)
            requires
                d == 2 * len,
        ;
        assert(j == (2 * b + 1) * len + (r - len)) by (nonlinear_arith)
            requires
                j == b * d + r,
                d == 2 * len,
        ;
        lemma_div_unique(j, len, 2 * b + 1, r - len);
    }
    assert forall|t: int| 0 <= t < len implies (#[trigger] (b * d + t)) / d == b && (b * d + t) % d
        == t by {
        lemma_div_unique(b * d + t, d, b, t);
    }
    assert forall|t: int| 0 <= t < len implies (#[trigger] (b * d + len + t)) / d == b && (b * d
        + len + t) % d == len + t by {
        lemma_div_unique(b * d + len + t, d, b, len + t);
    }
}

/// A forward layer turns agreement on blocks of size `2 len` into agreement
/// on blocks of size `len`.
proof fn lemma_fwd_step(w: Seq<int>, f: Seq<int>, len: int)
    requires
        canonical(w),
        is_layer_len(len),
        blocks_agree(w, f, 2 * len),
    ensures
        canonical(fwd_layer(w, len)),
        blocks_agree(fwd_layer(w, len), f, len),
{
    let w2 = fwd_layer(w, len);
    assert forall|i: int| 0 <= i < 256 implies 0 <= #[trigger] w2[i] < Q by {
        let z = zeta_at(128int / len + i / (2 * len));
        lemma_modq_range(w[i] + z * w[i + len]);
        lemma_modq_range(w[i - len] - z * w[i]);
    }
    assert forall|j: int| 0 <= j < 256 implies modq(
        eval(w2.subrange(j / len * len, j / len * len + len), #[trigger] ntt_root(j)),
    ) == modq(eval(f, ntt_root(j))) by {
        lemma_block_arith(j, len);
        let d = 2 * len;
        let base = j / d * d;
        let y = ntt_root(j);
        let blk = w.subrange(base, base + d);
        let lo = w.subrange(base, base + len);
        let hi = w.subrange(base + len, base + d);
        assert(blk =~= lo + hi);
        lemma_eval_concat(lo, hi, y);
        let m = 128int / len + j / d;
        let z = zeta_at(m);
        lemma_root_pow(j, len);
        let left = j % d < len;
        let c = if left { z } else { -z };
        assert(0 <= z < Q) by {
            lemma_modq_range(vstd::arithmetic::power::pow(
                crate::ntt_spec::ZETA_ROOT as int,
                crate::ntt_spec::rev8(m as u64) as nat,
            ));
        }
        assert(modq(pow(y, len as nat)) == modq(c)) by {
            if left {
                lemma_modq_small(z);
            }
        }
        let lin = Seq::new(len as nat, |t: int| lo[t] + c * hi[t]);
        lemma_eval_lincomb(lo, hi, c, y);
        let nstart = j / len * len;
        let nb = w2.subrange(nstart, nstart + len);
        assert forall|t: int| 0 <= t < nb.len() implies modq(#[trigger] nb[t]) == modq(lin[t]) by {
            if left {
                assert(nstart == base);
                let p = base + t;
                assert(p / d == j / d && p % d == t);
                assert(nb[t] == w2[p]);
                assert(w2[p] == modq(w[p] + z * w[p + len]));
                lemma_modq_idem(w[p] + z * w[p + len]);
            } else {
                assert(nstart == base + len);
                let p = base + len + t;
                assert(p / d == j / d && p % d == len + t);
                assert(nb[t] == w2[p]);
                assert(w2[p] == modq(w[p - len] - z * w[p]));
                assert(lo[t] == w[p - len]);
                assert(hi[t] == w[p]);
                assert(c * w[p] == -(z * w[p])) by (nonlinear_arith)
                    requires
                        c == -z,
                ;
                assert(w[p - len] - z * w[p] == lo[t] + c * hi[t]);
                lemma_modq_idem(w[p - len] - z * w[p]);
            }
        }
        lemma_eval_congruent(nb, lin, y, y);
        let el = eval(lo, y);
        let eh = eval(hi, y);
        lemma_modq_mul(pow(y, len as nat), eh);
        lemma_modq_mul(c, eh);
        lemma_modq_add(el, pow(y, len as nat) * eh);
        lemma_modq_add(el, c * eh);
    }
}

proof fn lemma_fwd_layers_agree(f: Seq<int>, len: int)
    requires
        canonical(f),
        is_layer_len(len) || len == 256,
    ensures
        canonical(fwd_layers(f, len)),
        blocks_agree(fwd_layers(f, len), f, len),
    decreases 256 - len,
{
    if len == 256 {
        assert forall|j: int| 0 <= j < 256 implies modq(
            eval(f.subrange(j / 256 * 256, j / 256 * 256 + 256), #[trigger] ntt_root(j)),
        ) == modq(eval(f, ntt_root(j))) by {
            assert(j / 256 == 0);
            assert(f.subrange(0, 256) =~= f);
        }
    } else {
        lemma_fwd_layers_agree(f, 2 * len);
        lemma_fwd_step(fwd_layers(f, 2 * len), f, len);
    }
}

/// The forward layers compute the transform: `fwd_layers(f, 1) == ntt_spec(f)`.
pub proof fn lemma_fwd_layers_is_ntt(f: Seq<int>)
    requires
        canonical(f),
    ensures
        fwd_layers(f, 1) == ntt_spec(f),
        canonical(ntt_spec(f)),
{
    lemma_fwd_layers_agree(f, 1);
    let w = fwd_layers(f, 1);
    assert forall|j: int| 0 <= j < 256 implies #[trigger] w[j] == ntt_spec(f)[j] by {
        let y = ntt_root(j);
        assert(w.subrange(j / 1 * 1, j / 1 * 1 + 1) =~= seq![w[j]]);
        assert(seq![w[j]].subrange(1, 1) =~= Seq::<int>::empty());
        assert(eval(Seq::<int>::empty(), y) == 0);
        assert(eval(seq![w[j]], y) == w[j] + y * eval(Seq::<int>::empty(), y));
        assert(eval(seq![w[j]], y) == w[j]);
        lemma_modq_small(w[j]);
    }
    assert(w =~= ntt_spec(f));
}

/// Where position `p` sits in its butterfly block of half-length `len`.
proof fn lemma_position(p: int, len: int)
    requires
        0 <= p < 256,
        is_layer_len(len),
    ensures
        p / (2 * len) < 128int / len,
        p % (2 * len) < len ==> p + len < 256 && (p + len) / (2 * len) == p / (2 * len) && (p
            + len) % (2 * len) >= len,
        p % (2 * len) >= len ==> p - len >= 0 && (p - len) / (2 * len) == p / (2 * len) && (p
            - len) % (2 * len) < len,
{
    lemma_block_arith(p, len);
    let d = 2 * len;
    let base = p / d * d;
    let o = p % d;
    lemma_fundamental_div_mod(p, d);
    assert(p == base + o) by {
        vstd::arithmetic::mul::lemma_mul_is_commutative(d, p / d);
    }
    if o < len {
        assert((base + len + o) / d == p / d && (base + len + o) % d == len + o);
    } else {
        assert((base + (o - len)) / d == p / d && (base + (o - len)) % d == o - len);
    }
    let c = 128int / len;
    assert(p / d < c) by {
        if len == 1 {
        } else if len == 2 {
        } else if len == 4 {
        } else if len == 8 {
        } else if len == 16 {
        } else if len == 32 {
        } else if len == 64 {
        } else {
        }
    }
}

proof fn lemma_cancel(z: int, zi: int, x: int)
    requires
        modq(z * zi) == 1,
    ensures
        modq(zi * (z * x)) == modq(x),
        modq(z * (zi * x)) == modq(x),
{
    assert(zi * (z * x) == (z * zi) * x) by (nonlinear_arith);
    assert(z * (zi * x) == (z * zi) * x) by (nonlinear_arith);
    lemma_modq_mul(z * zi, x);
    lemma_modq_mul(1, x);
}

/// The inverse layer undoes the forward layer up to a factor of 2.
pub proof fn lemma_inv_fwd_layer(w: Seq<int>, len: int)
    requires
        w.len() == 256,
        is_layer_len(len),
    ensures
        inv_layer(fwd_layer(w, len), len) =~= poly_scale(2, w),
{
    let f = fwd_layer(w, len);
    let g = inv_layer(f, len);
    assert forall|p: int| 0 <= p < 256 implies #[trigger] g[p] == poly_scale(2, w)[p] by {
        lemma_position(p, len);
        let d = 2 * len;
        let b = p / d;
        let z = zeta_at(128int / len + b);
        let zi = modq(-zeta_at(256int / len - 1 - b));
        lemma_twiddle_inverse(len, b);
        if p % d < len {
            let a = w[p] + z * w[p + len];
            let c = w[p] - z * w[p + len];
            assert(f[p] == modq(a));
            assert(f[p + len] == modq(c));
            lemma_modq_add(a, c);
            assert(a + c == 2 * w[p]);
        } else {
            let a = w[p - len] + z * w[p];
            let c = w[p - len] - z * w[p];
            assert(f[p - len] == modq(a));
            assert(f[p] == modq(c));
            lemma_modq_sub(a, c);
            assert(a - c == z * (2 * w[p])) by (nonlinear_arith)
                requires
                    a == w[p - len] + z * w[p],
                    c == w[p - len] - z * w[p],
            ;
            lemma_modq_mul(zi, modq(a) - modq(c));
            lemma_modq_mul(zi, a - c);
            lemma_cancel(z, zi, 2 * w[p]);
        }
    }
}

/// The forward layer undoes the inverse layer up to a factor of 2.
pub proof fn lemma_fwd_inv_layer(w: Seq<int>, len: int)
    requires
        w.len() == 256,
        is_layer_len(len),
    ensures
        fwd_layer(inv_layer(w, len), len) =~= poly_scale(2, w),
{
    let g = inv_layer(w, len);
    let f = fwd_layer(g, len);
    assert forall|p: int| 0 <= p < 256 implies #[trigger] f[p] == poly_scale(2, w)[p] by {
        lemma_position(p, len);
        let d = 2 * len;
        let b = p / d;
        let z = zeta_at(128int / len + b);
        let zi = modq(-zeta_at(256int / len - 1 - b));
        lemma_twiddle_inverse(len, b);
        if p % d < len {
            let s = w[p] + w[p + len];
            let t = zi * (w[p] - w[p + len]);
            assert(g[p] == modq(s));
            assert(g[p + len] == modq(t));
            lemma_modq_mul(z, t);
            lemma_modq_add(s, z * modq(t));
            lemma_modq_add(s, z * t);
            lemma_modq_add(modq(s), z * modq(t));
            lemma_cancel(z, zi, w[p] - w[p + len]);
            lemma_modq_add(s, z * t);
            lemma_modq_add(s, w[p] - w[p + len]);
            assert(z * t == z * (zi * (w[p] - w[p + len])));
            lemma_modq_add(s, z * (zi * (w[p] - w[p + len])));
            lemma_modq_add(s, modq(w[p] - w[p + len]));
            lemma_modq_add(s, modq(z * (zi * (w[p] - w[p + len]))));
            assert(s + (w[p] - w[p + len]) == 2 * w[p]);
        } else {
            let s = w[p - len] + w[p];
            let t = zi * (w[p - len] - w[p]);
            assert(g[p - len] == modq(s));
            assert(g[p] == modq(t));
            lemma_modq_mul(z, t);
            lemma_modq_sub(s, z * modq(t));
            lemma_modq_sub(modq(s), z * modq(t));
            lemma_modq_sub(s, z * t);
            lemma_cancel(z, zi, w[p - len] - w[p]);
            assert(z * t == z * (zi * (w[p - len] - w[p])));
            lemma_modq_sub(s, modq(z * (zi * (w[p - len] - w[p]))));
            lemma_modq_sub(s, z * (zi * (w[p - len] - w[p])));
            lemma_modq_sub(s, w[p - len] - w[p]);
            lemma_modq_sub(s, modq(w[p - len] - w[p]));
            assert(s - (w[p - len] - w[p]) == 2 * w[p]);
        }
    }
}

/// Forward layers commute with scalar multiplication.
pub proof fn lemma_fwd_layer_scale(c: int, w: Seq<int>, len: int)
    requires
        w.len() == 256,
        is_layer_len(len),
    ensures
        fwd_layer(poly_scale(c, w), len) =~= poly_scale(c, fwd_layer(w, len)),
{
    let sw = poly_scale(c, w);
    assert forall|p: int| 0 <= p < 256 implies #[trigger] fwd_layer(sw, len)[p] == poly_scale(
        c,
        fwd_layer(w, len),
    )[p] by {
        lemma_position(p, len);
        let d = 2 * len;
        let z = zeta_at(128int / len + p / d);
        if p % d < len {
            let a = w[p];
            let h = w[p + len];
            lemma_modq_mul(z, c * h);
            lemma_modq_add(c * a, z * (c * h));
            lemma_modq_add(modq(c * a), z * modq(c * h));
            lemma_modq_add(c * a, z * modq(c * h));
            lemma_modq_add(modq(c * a), modq(z * modq(c * h)));
            lemma_modq_add(c * a, modq(z * (c * h)));
            lemma_modq_mul(c, a + z * h);
            assert(c * a + z * (c * h) == c * (a + z * h)) by (nonlinear_arith);
        } else {
            let a = w[p - len];
            let h = w[p];
            lemma_modq_mul(z, c * h);
            lemma_modq_sub(c * a, z * (c * h));
            lemma_modq_sub(modq(c * a), z * modq(c * h));
            lemma_modq_sub(c * a, z * modq(c * h));
            lemma_modq_sub(modq(c * a), modq(z * modq(c * h)));
            lemma_modq_sub(c * a, modq(z * (c * h)));
            lemma_modq_mul(c, a - z * h);
            assert(c * a - z * (c * h) == c * (a - z * h)) by (nonlinear_arith);
        }
    }
}

/// Inverse layers commute with scalar multiplication.
pub proof fn lemma_inv_layer_scale(c: int, w: Seq<int>, len: int)
    requires
        w.len() == 256,
        is_layer_len(len),
    ensures
        inv_layer(poly_scale(c, w), len) =~= poly_scale(c, inv_layer(w, len)),
{
    let sw = poly_scale(c, w);
    assert forall|p: int| 0 <= p < 256 implies #[trigger] inv_layer(sw, len)[p] == poly_scale(
        c,
        inv_layer(w, len),
    )[p] by {
        lemma_position(p, len);
        let d = 2 * len;
        let zi = modq(-zeta_at(256int / len - 1 - p / d));
        if p % d < len {
            let a = w[p];
            let h = w[p + len];
            lemma_modq_add(c * a, c * h);
            lemma_modq_mul(c, a + h);
            assert(c * a + c * h == c * (a + h)) by (nonlinear_arith);
        } else {
            let a = w[p - len];
            let h = w[p];
            lemma_modq_sub(c * a, c * h);
            lemma_modq_mul(zi, modq(c * a) - modq(c * h));
            lemma_modq_mul(zi, c * a - c * h);
            lemma_modq_mul(c, zi * (a - h));
            assert(zi * (c * a - c * h) == c * (zi * (a - h))) by (nonlinear_arith);
        }
    }
}

/// `256^{-1} mod q`.
pub open spec fn m_inv() -> int {
    8347681
}

proof fn lemma_scale_scale(a: int, b: int, w: Seq<int>)
    requires
        w.len() == 256,
    ensures
        poly_scale(a, poly_scale(b, w)) =~= poly_scale(a * b, w),
{
    assert forall|p: int| 0 <= p < 256 implies #[trigger] poly_scale(a, poly_scale(b, w))[p]
        == poly_scale(a * b, w)[p] by {
        lemma_modq_mul(a, b * w[p]);
        assert(a * (b * w[p]) == (a * b) * w[p]) by (nonlinear_arith);
    }
}

proof fn lemma_scale_one(w: Seq<int>)
    requires
        canonical(w),
    ensures
        poly_scale(1, w) =~= w,
{
    assert forall|p: int| 0 <= p < 256 implies #[trigger] poly_scale(1, w)[p] == w[p] by {
        lemma_modq_small(w[p]);
    }
}

proof fn lemma_layer_outputs_canonical(w: Seq<int>, len: int)
    requires
        is_layer_len(len),
    ensures
        canonical(fwd_layer(w, len)),
        canonical(inv_layer(w, len)),
{
    assert forall|p: int| 0 <= p < 256 implies 0 <= #[trigger] fwd_layer(w, len)[p] < Q by {
        let z = zeta_at(128int / len + p / (2 * len));
        lemma_modq_range(w[p] + z * w[p + len]);
        lemma_modq_range(w[p - len] - z * w[p]);
    }
    assert forall|p: int| 0 <= p < 256 implies 0 <= #[trigger] inv_layer(w, len)[p] < Q by {
        let zi = modq(-zeta_at(256int / len - 1 - p / (2 * len)));
        lemma_modq_range(w[p] + w[p + len]);
        lemma_modq_range(zi * (w[p - len] - w[p]));
    }
}

proof fn lemma_scale_canonical(c: int, w: Seq<int>)
    ensures
        canonical(poly_scale(c, w)),
{
    assert forall|p: int| 0 <= p < 256 implies 0 <= #[trigger] poly_scale(c, w)[p] < Q by {
        lemma_modq_range(c * w[p]);
    }
}

/// The forward layers commute with scalar multiplication.
pub proof fn lemma_fwd_layers_scale(c: int, w: Seq<int>, len: int)
    requires
        w.len() == 256,
        is_layer_len(len) || len == 256,
    ensures
        fwd_layers(poly_scale(c, w), len) =~= poly_scale(c, fwd_layers(w, len)),
    decreases 256 - len,
{
    if len == 256 {
    } else {
        lemma_fwd_layers_scale(c, w, 2 * len);
        lemma_fwd_layers_len(w, 2 * len);
        lemma_fwd_layer_scale(c, fwd_layers(w, 2 * len), len);
    }
}

proof fn lemma_fwd_layers_len(w: Seq<int>, len: int)
    requires
        w.len() == 256,
        is_layer_len(len) || len == 256,
    ensures
        fwd_layers(w, len).len() == 256,
{
}

proof fn lemma_inv_layers_len(w: Seq<int>, len: int)
    requires
        w.len() == 256,
        is_layer_len(len) || len == 256,
    ensures
        inv_layers(w, len).len() == 256,
{
}

/// Undoing the forward layers from the bottom: after the inverse layers
/// `1, ..., len/2`, what remains is `len` times the forward state at `len`.
proof fn lemma_inv_after_fwd(w: Seq<int>, len: int)
    requires
        canonical(w),
        is_layer_len(len) || len == 256,
    ensures
        inv_layers(fwd_layers(w, 1), len) =~= poly_scale(len, fwd_layers(w, len)),
    decreases len,
{
    if len == 1 {
        lemma_fwd_layers_agree(w, 1);
        lemma_scale_one(fwd_layers(w, 1));
    } else {
        let h = len / 2;
        lemma_inv_after_fwd(w, h);
        lemma_fwd_layers_len(w, len);
        let fl = fwd_layers(w, len);
        lemma_inv_layer_scale(h, fwd_layers(w, h), h);
        lemma_inv_fwd_layer(fl, h);
        lemma_scale_scale(h, 2, fl);
    }
}

/// Redoing the forward layers from the top after all inverse layers.
proof fn lemma_fwd_after_inv(w: Seq<int>, len: int)
    requires
        canonical(w),
        is_layer_len(len) || len == 256,
    ensures
        fwd_layers(inv_layers(w, 256), len) =~= poly_scale(256int / len, inv_layers(w, len)),
    decreases 256 - len,
{
    if len == 256 {
        lemma_layer_outputs_canonical(inv_layers(w, 128), 128);
        lemma_scale_one(inv_layers(w, 256));
    } else {
        lemma_fwd_after_inv(w, 2 * len);
        lemma_len_quotients(len);
        lemma_inv_layers_len(w, len);
        let y = inv_layers(w, 256);
        let il = inv_layers(w, len);
        let c = 128int / len;
        assert(256int / (2 * len) == c) by {
            lemma_div_unique(256, 2 * len, c, 0);
        }
        assert((2 * len) / 2 == len);
        assert(inv_layers(w, 2 * len) == inv_layer(il, len));
        assert(fwd_layers(y, 2 * len) == poly_scale(c, inv_layer(il, len)));
        assert(fwd_layers(y, len) == fwd_layer(fwd_layers(y, 2 * len), len));
        lemma_fwd_layer_scale(c, inv_layer(il, len), len);
        lemma_fwd_inv_layer(il, len);
        lemma_scale_scale(c, 2, il);
        assert(c * 2 == 256int / len);
    }
}

proof fn lemma_len_quotients(len: int)
    requires
        is_layer_len(len),
    ensures
        (128int / len) * 2 == 256int / len,
        (128int / len) * len == 128,
        128int / len >= 1,
{
    if len == 1 {
        lemma_div_unique(128, len, 128, 0);
        lemma_div_unique(256, len, 256, 0);
    } else if len == 2 {
        lemma_div_unique(128, len, 64, 0);
        lemma_div_unique(256, len, 128, 0);
    } else if len == 4 {
        lemma_div_unique(128, len, 32, 0);
        lemma_div_unique(256, len, 64, 0);
    } else if len == 8 {
        lemma_div_unique(128, len, 16, 0);
        lemma_div_unique(256, len, 32, 0);
    } else if len == 16 {
        lemma_div_unique(128, len, 8, 0);
        lemma_div_unique(256, len, 16, 0);
    } else if len == 32 {
        lemma_div_unique(128, len, 4, 0);
        lemma_div_unique(256, len, 8, 0);
    } else if len == 64 {
        lemma_div_unique(128, len, 2, 0);
        lemma_div_unique(256, len, 4, 0);
    } else if len == 128 {
        lemma_div_unique(128, len, 1, 0);
        lemma_div_unique(256, len, 2, 0);
    }
}

proof fn lemma_minv_cancel(w: Seq<int>)
    requires
        canonical(w),
    ensures
        poly_scale(m_inv(), poly_scale(256, w)) =~= w,
{
    lemma_scale_scale(m_inv(), 256, w);
    assert(m_inv() * 256 == 2137006336);
    assert forall|p: int| 0 <= p < 256 implies #[trigger] poly_scale(2137006336, w)[p] == w[p] by {
        assert(2137006336 * w[p] == w[p] + (255 * w[p]) * Q) by (nonlinear_arith);
        lemma_mod_multiples_vanish(255 * w[p], w[p], Q as int);
        lemma_modq_small(w[p]);
    }
}

/// Inverse layers followed by scaling with `256^{-1}` invert the transform.
pub proof fn lemma_inv_layers_invert(w: Seq<int>)
    requires
        canonical(w),
    ensures
        poly_scale(m_inv(), inv_layers(fwd_layers(w, 1), 256)) =~= w,
        fwd_layers(poly_scale(m_inv(), inv_layers(w, 256)), 1) =~= w,
        canonical(poly_scale(m_inv(), inv_layers(w, 256))),
{
    lemma_inv_after_fwd(w, 256);
    lemma_minv_cancel(w);
    lemma_fwd_after_inv(w, 1);
    lemma_inv_layers_len(w, 256);
    lemma_fwd_layers_scale(m_inv(), inv_layers(w, 256), 1);
    lemma_scale_scale(m_inv(), 256, w);
    lemma_minv_cancel(w);
    lemma_scale_canonical(m_inv(), inv_layers(w, 256));
}

/// The transform is injective on canonical polynomials.
pub proof fn lemma_ntt_injective(f: Seq<int>, g: Seq<int>)
    requires
        canonical(f),
        canonical(g),
        ntt_spec(f) == ntt_spec(g),
    ensures
        f == g,
{
    lemma_fwd_layers_is_ntt(f);
    lemma_fwd_layers_is_ntt(g);
    lemma_inv_layers_invert(f);
    lemma_inv_layers_invert(g);
}

} // verus!
