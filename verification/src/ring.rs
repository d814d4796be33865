//! Polynomial ring `R = Z_q[x] / (x^m + 1)` arithmetic.
//!
//! `m = 256`, `q = 8380417` (NTT-friendly prime, `q = 1 mod 2m`).
//! Multiplication uses the Number-Theoretic Transform; its result is proved
//! equal to the schoolbook negacyclic product.
use vstd::prelude::*;
use vstd::arithmetic::power::*;
use vstd::arithmetic::div_mod::{lemma_mul_mod_noop_left, lemma_mul_mod_noop_right};
use crate::params::{M, Q};
use crate::ring_ct::{barrett_reduce, caddq, csubq};
use crate::ring_spec::{
    canonical, eval, lemma_eval_poly_mul, poly_add, poly_sub, lemma_modq_add, lemma_modq_mul, poly_mul, poly_scale, lemma_modq_range, lemma_modq_small, lemma_modq_sub, modq,
    poly_neg, poly_pointwise, poly_zero,
};
use crate::ntt_spec::{is_layer_len, lemma_root_is_negacyclic, ntt_root, ntt_spec, rev8, zeta_at, ZETA_ROOT};
use crate::ntt_layers::{
    fwd_layer, fwd_layers, inv_layer, inv_layers, lemma_fwd_layers_is_ntt, lemma_inv_layers_invert,
    lemma_ntt_injective, m_inv,
};

verus! {

/// A polynomial in `R`, stored as `m = 256` coefficients in `[0, q)`.
///
/// Coefficients are kept in the non-centered representation `[0, q)`;
/// callers that need norms center them to `[-q/2, q/2)` first.
#[derive(Clone, Debug)]
pub struct Poly {
    /// Coefficients, lowest-degree first.
    pub coeffs: [i64; M],
}

impl View for Poly {
    type V = Seq<int>;

    open spec fn view(&self) -> Seq<int> {
        Seq::new(256, |i: int| self.coeffs[i] as int)
    }
}

/// The twiddle table: `z[k] = zeta^{rev8(k)} mod q` for `k < 256`.
pub open spec fn is_zeta_table(z: Seq<i64>) -> bool {
    &&& z.len() == 256
    &&& forall|k: int| 0 <= k < 256 ==> #[trigger] z[k] == zeta_at(k)
}

/// 8-bit reversal of `k` (used for the NTT twiddle-factor table).
fn brv8(k0: usize) -> (r: usize)
    requires
        k0 < 256,
    ensures
        r == rev8(k0 as u64),
        r < 256,
{
    let ku: u64 = k0 as u64;
    let mut k: u64 = ku;
    let mut r: u64 = 0;
    let mut i: u64 = 0;
    proof {
        assert(ku == ku >> 0u64 && 0u64 == rev8(ku & sub_mask(0u64)) >> 8u64) by (bit_vector)
            requires
                ku < 256,
        ;
    }
    while i < 8
        invariant
            i <= 8,
            ku < 256,
            k == ku >> i,
            r == rev8(ku & sub_mask(i)) >> (8 - i) as u64,
        decreases 8 - i,
    {
        proof {
            assert(((rev8(ku & sub_mask(i)) >> (8 - i) as u64) << 1u64) | ((ku >> i) & 1u64)
                == rev8(ku & sub_mask((i + 1) as u64)) >> (8 - (i + 1)) as u64) by (bit_vector)
                requires
                    i < 8,
                    ku < 256,
            ;
            assert((ku >> i) >> 1u64 == ku >> ((i + 1) as u64)) by (bit_vector)
                requires
                    i < 8,
            ;
        }
        r = (r << 1) | (k & 1);
        k = k >> 1;
        i = i + 1;
    }
    proof {
        assert(rev8(ku & sub_mask(8)) >> 0u64 == rev8(ku) && rev8(ku) < 256) by (bit_vector)
            requires
                ku < 256,
        ;
    }
    r as usize
}

/// Modular exponentiation `base^e mod m` by square-and-multiply.
fn mod_pow(base0: i64, e0: u64, m: i64) -> (r: i64)
    requires
        1 < m < 2147483648,
    ensures
        r == pow(base0 as int, e0 as nat) % (m as int),
{
    let mut result: i64 = 1;
    // Normalize the base into [0, m).
    let mut base: i64 = match base0.checked_rem_euclid(m) {
        Some(b) => b,
        None => 0,
    };
    let mut e: u64 = e0;
    proof {
        assert(base == (base0 as int) % (m as int));
        vstd::arithmetic::div_mod::lemma_mod_bound(base0 as int, m as int);
        lemma_pow1(base as int);
        vstd::arithmetic::power::lemma_pow_mod_noop(base0 as int, e0 as nat, m as int);
        vstd::arithmetic::div_mod::lemma_small_mod(1, m as nat);
    }
    while e > 0
        invariant
            1 < m < 2147483648,
            0 <= base < m,
            0 <= result < m,
            (result * pow(base as int, e as nat)) % (m as int) == pow(base0 as int, e0 as nat) % (m as int),
        decreases e,
    {
        let ghost b = base as int;
        let ghost ee = e as nat;
        proof {
            assert(e & 1 == e % 2 && e >> 1 == e / 2) by (bit_vector);
        }
        let ghost r_old = result as int;
        proof {
            assert(0 <= result * base < 2147483648 * 2147483648) by (nonlinear_arith)
                requires
                    0 <= result < 2147483648,
                    0 <= base < 2147483648,
            ;
            assert(0 <= base * base < 2147483648 * 2147483648) by (nonlinear_arith)
                requires
                    0 <= base < 2147483648,
            ;
        }
        if e & 1 == 1 {
            result = (result * base) % m;
        }
        base = (base * base) % m;
        e = e >> 1;
        proof {
            lemma_mod_pow_step(r_old, b, ee, m as int, result as int, base as int, pow(base0 as int, e0 as nat) % (m as int));
        }
    }
    proof {
        lemma_pow0(base as int);
        vstd::arithmetic::div_mod::lemma_small_mod(result as nat, m as nat);
    }
    result
}

proof fn lemma_pow_split(b: int, e: nat)
    ensures
        pow(b, e) == pow(b, e % 2) * pow(b * b, e / 2),
{
    let h = e / 2;
    let r = e % 2;
    assert(e == 2 * h + r);
    lemma_pow_adds(b, 2 * h, r);
    lemma_pow_multiplies(b, 2, h);
    lemma_square_is_pow2(b);
    assert(pow(b, e) == pow(b, 2 * h) * pow(b, r));
}

proof fn lemma_mod_pow_step(r_old: int, b: int, e: nat, m: int, r_new: int, b_new: int, t: int)
    requires
        m > 1,
        e > 0,
        (r_old * pow(b, e)) % m == t,
        r_new == if e % 2 == 1 { (r_old * b) % m } else { r_old },
        b_new == (b * b) % m,
    ensures
        (r_new * pow(b_new, e / 2)) % m == t,
{
    lemma_pow_split(b, e);
    let h = e / 2;
    let p2 = pow(b * b, h);
    lemma_pow_mod_noop(b * b, h, m);
    assert(pow(b_new, h) % m == p2 % m);
    if e % 2 == 1 {
        lemma_pow1(b);
        assert(r_old * pow(b, e) == (r_old * b) * p2) by (nonlinear_arith)
            requires
                pow(b, e) == pow(b, e % 2) * p2,
                pow(b, e % 2) == b,
        ;
        lemma_mul_mod_noop_left(r_old * b, p2, m);
    } else {
        lemma_pow0(b);
        assert(r_old * pow(b, e) == r_old * p2) by (nonlinear_arith)
            requires
                pow(b, e) == pow(b, e % 2) * p2,
                pow(b, e % 2) == 1,
        ;
    }
    lemma_mul_mod_noop_right(r_new, p2, m);
    lemma_mul_mod_noop_right(r_new, pow(b_new, h), m);
}

/// The twiddle factors `zetas[k] = zeta^{brv8(k)} mod q` for `k = 0..M`, where
/// `zeta = 1753` is a primitive 512th root of unity mod `q`.
fn zetas() -> (table: Vec<i64>)
    ensures
        is_zeta_table(table@),
{
    let mut table: Vec<i64> = Vec::with_capacity(M);
    let mut k: usize = 0;
    while k < M
        invariant
            k <= 256,
            table@.len() == k,
            forall|i: int| 0 <= i < k ==> #[trigger] table@[i] == zeta_at(i),
        decreases 256 - k,
    {
        let e = brv8(k);
        let v = mod_pow(ZETA_ROOT, e as u64, Q);
        table.push(v);
        k = k + 1;
    }
    table
}

impl Poly {
    /// Every coefficient is in `[0, q)`.
    pub open spec fn wf(&self) -> bool {
        forall|i: int| 0 <= i < 256 ==> 0 <= #[trigger] self.coeffs[i] < Q
    }

    pub proof fn lemma_wf_canonical(&self)
        ensures
            self.wf() <==> canonical(self@),
    {
        if self.wf() {
            assert forall|i: int| 0 <= i < 256 implies 0 <= #[trigger] self@[i] < Q by {
                assert(self@[i] == self.coeffs[i]);
            }
        }
        if canonical(self@) {
            assert forall|i: int| 0 <= i < 256 implies 0 <= #[trigger] self.coeffs[i] < Q by {
                assert(self@[i] == self.coeffs[i]);
            }
        }
    }

    /// The zero polynomial.
    pub fn zero() -> (r: Self)
        ensures
            r@ == poly_zero(),
            r.wf(),
    {
        let r = Poly { coeffs: [0i64; M] };
        assert(r@ =~= poly_zero());
        r
    }

    /// Build from a slice of `i32` coefficients (length at most `M`; missing
    /// high-degree coefficients default to 0). Negative values are reduced
    /// into `[0, q)`.
    pub fn from_coefficients(c: &[i32]) -> (r: Self)
        requires
            c@.len() <= 256,
        ensures
            r.wf(),
            r@ == Seq::new(256, |i: int| if i < c@.len() { modq(c@[i] as int) } else { 0 }),
    {
        let mut coeffs = [0i64; M];
        let mut i: usize = 0;
        while i < c.len()
            invariant
                c@.len() <= 256,
                i <= c@.len(),
                forall|t: int| 0 <= t < i ==> #[trigger] coeffs[t] == modq(c@[t] as int),
                forall|t: int| i <= t < 256 ==> #[trigger] coeffs[t] == 0,
            decreases c@.len() - i,
        {
            let v: i64 = c[i] as i64;
            let red: i64 = match v.checked_rem_euclid(Q) {
                Some(x) => x,
                None => 0,
            };
            coeffs[i] = red;
            i = i + 1;
        }
        let r = Poly { coeffs };
        assert forall|t: int| 0 <= t < 256 implies 0 <= #[trigger] r.coeffs[t] < Q by {
            if t < c@.len() {
                lemma_modq_range(c@[t] as int);
            }
        }
        assert(r@ =~= Seq::new(256, |i: int| if i < c@.len() { modq(c@[i] as int) } else { 0 }));
        r
    }

    /// Negation (additive inverse in `R`).
    pub fn neg(&self) -> (r: Self)
        requires
            self.wf(),
        ensures
            r.wf(),
            r@ == poly_neg(self@),
    {
        let mut coeffs = self.coeffs;
        let mut i: usize = 0;
        while i < M
            invariant
                self.wf(),
                i <= 256,
                forall|t: int| 0 <= t < i ==> #[trigger] coeffs[t] == modq(-self.coeffs[t]),
                forall|t: int| i <= t < 256 ==> #[trigger] coeffs[t] == self.coeffs[t],
            decreases 256 - i,
        {
            let c = coeffs[i];
            let v = (Q - c) % Q;
            proof {
                lemma_modq_sub(Q as int, c as int);
                vstd::arithmetic::div_mod::lemma_mod_self_0(Q as int);
                lemma_modq_sub(0, c as int);
            }
            coeffs[i] = v;
            i = i + 1;
        }
        let r = Poly { coeffs };
        assert forall|t: int| 0 <= t < 256 implies 0 <= #[trigger] r.coeffs[t] < Q by {
            lemma_modq_range(-self.coeffs[t]);
        }
        assert(r@ =~= poly_neg(self@));
        r
    }

    /// Pointwise multiplication in the NTT domain.
    pub fn pointwise_mul(&self, other: &Self) -> (r: Self)
        requires
            self.wf(),
            other.wf(),
        ensures
            r.wf(),
            r@ == poly_pointwise(self@, other@),
    {
        let mut out = Poly::zero();
        let mut i: usize = 0;
        while i < M
            invariant
                self.wf(),
                other.wf(),
                i <= 256,
                forall|t: int| 0 <= t < i ==> #[trigger] out.coeffs[t] == modq(self.coeffs[t] * other.coeffs[t]),
            decreases 256 - i,
        {
            proof {
                assert(0 <= self.coeffs[i as int] * other.coeffs[i as int] <= Q * Q) by (nonlinear_arith)
                    requires
                        0 <= self.coeffs[i as int] < Q,
                        0 <= other.coeffs[i as int] < Q,
                ;
            }
            out.coeffs[i] = barrett_reduce(self.coeffs[i] * other.coeffs[i]);
            i = i + 1;
        }
        assert forall|t: int| 0 <= t < 256 implies 0 <= #[trigger] out.coeffs[t] < Q by {
            lemma_modq_range(self.coeffs[t] * other.coeffs[t]);
        }
        assert(out@ =~= poly_pointwise(self@, other@));
        out
    }
}

/// Position arithmetic inside a butterfly block starting at `b * 2 len`.
proof fn lemma_in_block(b: int, len: int, t: int)
    requires
        len > 0,
        b >= 0,
        0 <= t < 2 * len,
    ensures
        (b * (2 * len) + t) / (2 * len) == b,
        (b * (2 * len) + t) % (2 * len) == t,
{
    vstd::arithmetic::div_mod::lemma_fundamental_div_mod_converse_div(b * (2 * len) + t, 2 * len, b, t);
    vstd::arithmetic::div_mod::lemma_fundamental_div_mod_converse_mod(b * (2 * len) + t, 2 * len, b, t);
}

proof fn lemma_div_exact(x: int, d: int, q: int)
    requires
        d > 0,
        x == q * d,
    ensures
        x / d == q,
{
    vstd::arithmetic::div_mod::lemma_fundamental_div_mod_converse_div(x, d, q, 0);
}

proof fn lemma_layer_quotients(len: int)
    requires
        is_layer_len(len),
    ensures
        (128int / len) * (2 * len) == 256,
        128int / len >= 1,
        len >= 1,
        len <= 128,
        len == 1 || (len / 2) * 2 == len && is_layer_len(len / 2) && 128int / (len / 2) == 2 * (
        128int / len),
        len == 128 || is_layer_len(2 * len) && 128int / (2 * len) * 2 == 128int / len,
{
    if len == 1 {
        lemma_div_exact(128, len, 128);
        assert((128int / len) * (2 * len) == 256) by (nonlinear_arith)
            requires
                128int / len == 128,
                len == 1,
        ;
        lemma_div_exact(128, 2 * len, 64);
    } else if len == 2 {
        lemma_div_exact(128, len, 64);
        assert((128int / len) * (2 * len) == 256) by (nonlinear_arith)
            requires
                128int / len == 64,
                len == 2,
        ;
        lemma_div_exact(128, len / 2, 128);
        lemma_div_exact(128, 2 * len, 32);
    } else if len == 4 {
        lemma_div_exact(128, len, 32);
        assert((128int / len) * (2 * len) == 256) by (nonlinear_arith)
            requires
                128int / len == 32,
                len == 4,
        ;
        lemma_div_exact(128, len / 2, 64);
        lemma_div_exact(128, 2 * len, 16);
    } else if len == 8 {
        lemma_div_exact(128, len, 16);
        assert((128int / len) * (2 * len) == 256) by (nonlinear_arith)
            requires
                128int / len == 16,
                len == 8,
        ;
        lemma_div_exact(128, len / 2, 32);
        lemma_div_exact(128, 2 * len, 8);
    } else if len == 16 {
        lemma_div_exact(128, len, 8);
        assert((128int / len) * (2 * len) == 256) by (nonlinear_arith)
            requires
                128int / len == 8,
                len == 16,
        ;
        lemma_div_exact(128, len / 2, 16);
        lemma_div_exact(128, 2 * len, 4);
    } else if len == 32 {
        lemma_div_exact(128, len, 4);
        assert((128int / len) * (2 * len) == 256) by (nonlinear_arith)
            requires
                128int / len == 4,
                len == 32,
        ;
        lemma_div_exact(128, len / 2, 8);
        lemma_div_exact(128, 2 * len, 2);
    } else if len == 64 {
        lemma_div_exact(128, len, 2);
        assert((128int / len) * (2 * len) == 256) by (nonlinear_arith)
            requires
                128int / len == 2,
                len == 64,
        ;
        lemma_div_exact(128, len / 2, 4);
        lemma_div_exact(128, 2 * len, 1);
    } else if len == 128 {
        lemma_div_exact(128, len, 1);
        assert((128int / len) * (2 * len) == 256) by (nonlinear_arith)
            requires
                128int / len == 1,
                len == 128,
        ;
        lemma_div_exact(128, len / 2, 2);
    }
}

impl Poly {
    /// One forward butterfly on block `b` of the layer with half-length `len`.
    fn ntt_block(&mut self, z: &Vec<i64>, k: usize, start: usize, len: usize, Ghost(wl): Ghost<Seq<int>>)
        requires
            old(self).wf(),
            canonical(wl),
            is_zeta_table(z@),
            is_layer_len(len as int),
            k == 128int / len as int + start as int / (2 * len as int),
            start as int == (start as int / (2 * len as int)) * (2 * len as int),
            start + 2 * len <= 256,
            forall|p: int| start <= p < 256 ==> #[trigger] old(self)@[p] == wl[p],
        ensures
            final(self).wf(),
            forall|p: int| 0 <= p < start ==> #[trigger] final(self)@[p] == old(self)@[p],
            forall|p: int| start <= p < start + 2 * len ==> #[trigger] final(self)@[p] == fwd_layer(wl, len as int)[p],
            forall|p: int| start + 2 * len <= p < 256 ==> #[trigger] final(self)@[p] == wl[p],
    {
        let ghost b = start as int / (2 * len as int);
        proof {
            lemma_layer_quotients(len as int);
            let c = 128int / len as int;
            assert(b < c) by (nonlinear_arith)
                requires
                    start as int == b * (2 * len as int),
                    start + 2 * len <= 256,
                    c * (2 * len as int) == 256,
                    len >= 1,
            ;
        }
        let zeta = z[k];
        proof {
            lemma_modq_range(pow(ZETA_ROOT as int, rev8(k as u64) as nat));
        }
        let mut j = start;
        while j < start + len
            invariant
                self.wf(),
                canonical(wl),
                is_layer_len(len as int),
                start <= j <= start + len,
                start + 2 * len <= 256,
                b >= 0,
                start as int == b * (2 * len as int),
                zeta == zeta_at(128int / len as int + b),
                0 <= zeta < Q,
                forall|p: int| 0 <= p < start ==> #[trigger] self@[p] == old(self)@[p],
                forall|p: int| start <= p < j ==> #[trigger] self@[p] == fwd_layer(wl, len as int)[p],
                forall|p: int| start + len <= p < j + len ==> #[trigger] self@[p] == fwd_layer(wl, len as int)[p],
                forall|p: int| j <= p < start + len ==> #[trigger] self@[p] == wl[p],
                forall|p: int| j + len <= p < 256 ==> #[trigger] self@[p] == wl[p],
            decreases start + len - j,
        {
            let lo0 = self.coeffs[j];
            let hi0 = self.coeffs[j + len];
            proof {
                assert(self@[j as int] == self.coeffs[j as int]);
                assert(self@[j + len] == self.coeffs[j + len]);
                assert(lo0 == wl[j as int]);
                assert(hi0 == wl[j + len]);
                assert(0 <= zeta * hi0 <= Q * Q) by (nonlinear_arith)
                    requires
                        0 <= zeta < Q,
                        0 <= hi0 < Q,
                ;
            }
            let t = barrett_reduce(zeta * hi0);
            let hi = caddq(lo0 - t);
            let lo = csubq(lo0 + t);
            proof {
                lemma_in_block(b, len as int, j - start);
                lemma_in_block(b, len as int, j + len - start);
                lemma_modq_range(zeta * hi0);
                lemma_modq_add(lo0 as int, zeta * hi0);
                lemma_modq_sub(lo0 as int, zeta * hi0);
                if lo0 + t >= Q {
                    lemma_modq_small((lo0 + t - Q) as int);
                    vstd::arithmetic::div_mod::lemma_mod_multiples_vanish(1, lo0 + t - Q, Q as int);
                } else {
                    lemma_modq_small((lo0 + t) as int);
                }
                if lo0 - t < 0 {
                    lemma_modq_small((lo0 - t + Q) as int);
                    vstd::arithmetic::div_mod::lemma_mod_multiples_vanish(-1, lo0 - t + Q, Q as int);
                } else {
                    lemma_modq_small((lo0 - t) as int);
                }
            }
            let ghost prev = self@;
            proof {
                let fl = fwd_layer(wl, len as int);
                assert((j as int) / (2 * len as int) == b && (j as int) % (2 * len as int) == j - start);
                assert(fl[j as int] == modq(wl[j as int] + zeta * wl[j + len]));
                assert(lo == fl[j as int]);
                assert((j + len) / (2 * len as int) == b && (j + len) % (2 * len as int) == j + len - start);
                assert(fl[j + len] == modq(wl[j as int] - zeta * wl[j + len]));
                assert(hi == fl[j + len]);
            }
            self.coeffs[j + len] = hi;
            self.coeffs[j] = lo;
            proof {
                assert forall|p: int| 0 <= p < 256 implies #[trigger] self@[p] == if p == j {
                    lo as int
                } else if p == j + len {
                    hi as int
                } else {
                    prev[p]
                } by {
                    assert(self@[p] == self.coeffs[p]);
                }
            }
            j = j + 1;
        }
    }
}


impl Poly {
    /// All forward layers, with the twiddle table `z`.
    fn ntt_with(&mut self, z: &Vec<i64>)
        requires
            old(self).wf(),
            is_zeta_table(z@),
        ensures
            final(self).wf(),
            final(self)@ == fwd_layers(old(self)@, 1),
    {
        let ghost w0 = self@;
        proof {
            self.lemma_wf_canonical();
        }
        let mut k: usize = 0;
        let mut len: usize = 128;
        while len > 0
            invariant
                len == 0 || is_layer_len(len as int),
                canonical(w0),
                self.wf(),
                is_zeta_table(z@),
                len > 0 ==> self@ == fwd_layers(w0, 2 * len as int) && k == 128int / len as int - 1,
                len == 0 ==> self@ == fwd_layers(w0, 1),
            decreases len,
        {
            let ghost wl = self@;
            proof {
                lemma_layer_quotients(len as int);
                self.lemma_wf_canonical();
            }
            let mut start: usize = 0;
            proof {
                lemma_div_exact(0, 2 * len as int, 0);
            }
            while start < M
                invariant
                    is_layer_len(len as int),
                    canonical(wl),
                    self.wf(),
                    is_zeta_table(z@),
                    start <= 256,
                    start as int == (start as int / (2 * len as int)) * (2 * len as int),
                    k == 128int / len as int - 1 + start as int / (2 * len as int),
                    forall|p: int| 0 <= p < start ==> #[trigger] self@[p] == fwd_layer(wl, len as int)[p],
                    forall|p: int| start <= p < 256 ==> #[trigger] self@[p] == wl[p],
                decreases 256 - start,
            {
                let ghost b = start as int / (2 * len as int);
                proof {
                    lemma_layer_quotients(len as int);
                    assert(start + 2 * len <= 256) by (nonlinear_arith)
                        requires
                            start as int == b * (2 * len as int),
                            start < 256,
                            (128int / len as int) * (2 * len as int) == 256,
                            len >= 1,
                    ;
                }
                k = k + 1;
                self.ntt_block(z, k, start, len, Ghost(wl));
                proof {
                    lemma_in_block(b + 1, len as int, 0);
                    assert((b + 1) * (2 * len as int) == start + 2 * len) by (nonlinear_arith)
                        requires
                            start as int == b * (2 * len as int),
                    ;
                }
                start = start + 2 * len;
            }
            proof {
                assert(self@ =~= fwd_layer(wl, len as int));
                assert(fwd_layers(w0, len as int) == fwd_layer(fwd_layers(w0, 2 * len as int), len as int));
                lemma_div_exact(256, 2 * len as int, 128int / len as int);
            }
            let ghost old_len = len;
            proof {
                assert(len >> 1 == len / 2) by (bit_vector);
            }
            len = len >> 1;
            proof {
                lemma_layer_quotients(old_len as int);
            }
        }
    }
}

proof fn lemma_pow256_step(e: nat, bit: nat, v: int, w: int)
    requires
        modq(pow(256, e)) == v,
        bit == 0 || bit == 1,
        modq(v * v * (if bit == 1 { 256int } else { 1int })) == w,
    ensures
        modq(pow(256, 2 * e + bit)) == w,
{
    lemma_pow_adds(256, e, e);
    lemma_pow_adds(256, e + e, bit);
    lemma_pow1(256);
    lemma_pow0(256);
    let p = pow(256, e);
    let c = pow(256, bit);
    assert(c == if bit == 1 { 256int } else { 1int });
    lemma_modq_mul(p * p, c);
    lemma_modq_mul(p, p);
    lemma_modq_mul(modq(p) * modq(p), c);
    crate::ring_spec::lemma_modq_mul(modq(p * p), c);
}

/// `256^{q-2} = 256^{-1} = 8347681 (mod q)`.
proof fn lemma_m_inv_value()
    ensures
        pow(256, (Q - 2) as nat) % (Q as int) == 8347681,
        (256int * 8347681) % (Q as int) == 1,
{
    lemma_pow1(256);
    lemma_modq_small(256);
    lemma_pow256_step(1, 1, 256, 16382);
    lemma_pow256_step(3, 1, 16382, 41978);
    lemma_pow256_step(7, 1, 41978, 1569211);
    lemma_pow256_step(15, 1, 1569211, 7778913);
    lemma_pow256_step(31, 1, 7778913, 1620757);
    lemma_pow256_step(63, 1, 1620757, 5459360);
    lemma_pow256_step(127, 1, 5459360, 4699327);
    lemma_pow256_step(255, 1, 4699327, 7803087);
    lemma_pow256_step(511, 0, 7803087, 3983976);
    lemma_pow256_step(1022, 1, 3983976, 4236571);
    lemma_pow256_step(2045, 1, 4236571, 679363);
    lemma_pow256_step(4091, 1, 679363, 591891);
    lemma_pow256_step(8183, 1, 591891, 924928);
    lemma_pow256_step(16367, 1, 924928, 3743169);
    lemma_pow256_step(32735, 1, 3743169, 3357099);
    lemma_pow256_step(65471, 1, 3357099, 8333727);
    lemma_pow256_step(130943, 1, 8333727, 32736);
    lemma_pow256_step(261887, 1, 32736, 8347681);
    lemma_pow256_step(523775, 1, 8347681, 8347681);
    lemma_pow256_step(1047551, 1, 8347681, 8347681);
    lemma_pow256_step(2095103, 1, 8347681, 8347681);
    lemma_pow256_step(4190207, 1, 8347681, 8347681);
}

impl Poly {
    /// One inverse butterfly on block `b` of the layer with half-length `len`.
    fn inv_ntt_block(&mut self, z: &Vec<i64>, k: usize, start: usize, len: usize, Ghost(wl): Ghost<Seq<int>>)
        requires
            old(self).wf(),
            canonical(wl),
            is_zeta_table(z@),
            is_layer_len(len as int),
            k == 256int / len as int - 1 - start as int / (2 * len as int),
            start as int == (start as int / (2 * len as int)) * (2 * len as int),
            start + 2 * len <= 256,
            forall|p: int| start <= p < 256 ==> #[trigger] old(self)@[p] == wl[p],
        ensures
            final(self).wf(),
            forall|p: int| 0 <= p < start ==> #[trigger] final(self)@[p] == old(self)@[p],
            forall|p: int| start <= p < start + 2 * len ==> #[trigger] final(self)@[p] == inv_layer(wl, len as int)[p],
            forall|p: int| start + 2 * len <= p < 256 ==> #[trigger] final(self)@[p] == wl[p],
    {
        let ghost b = start as int / (2 * len as int);
        proof {
            lemma_layer_quotients(len as int);
            let c = 128int / len as int;
            assert(b < c) by (nonlinear_arith)
                requires
                    start as int == b * (2 * len as int),
                    start + 2 * len <= 256,
                    c * (2 * len as int) == 256,
                    len >= 1,
            ;
            lemma_div_exact(256, len as int, 2 * c);
            assert(256int / len as int == 2 * c);
        }
        let zk = z[k];
        proof {
            lemma_modq_range(pow(ZETA_ROOT as int, rev8(k as u64) as nat));
        }
        let zeta = csubq(Q - zk);
        proof {
            if zk == 0 {
                vstd::arithmetic::div_mod::lemma_mod_self_0(Q as int);
                assert(modq(-zk) == 0);
            } else {
                lemma_modq_small(Q - zk);
                vstd::arithmetic::div_mod::lemma_mod_multiples_vanish(1, -zk, Q as int);
            }
            assert(zeta == modq(-zeta_at(256int / len as int - 1 - b)));
            lemma_modq_range(-zeta_at(256int / len as int - 1 - b));
        }
        let mut j = start;
        while j < start + len
            invariant
                self.wf(),
                canonical(wl),
                is_layer_len(len as int),
                start <= j <= start + len,
                start + 2 * len <= 256,
                b >= 0,
                start as int == b * (2 * len as int),
                zeta == modq(-zeta_at(256int / len as int - 1 - b)),
                0 <= zeta < Q,
                forall|p: int| 0 <= p < start ==> #[trigger] self@[p] == old(self)@[p],
                forall|p: int| start <= p < j ==> #[trigger] self@[p] == inv_layer(wl, len as int)[p],
                forall|p: int| start + len <= p < j + len ==> #[trigger] self@[p] == inv_layer(wl, len as int)[p],
                forall|p: int| j <= p < start + len ==> #[trigger] self@[p] == wl[p],
                forall|p: int| j + len <= p < 256 ==> #[trigger] self@[p] == wl[p],
            decreases start + len - j,
        {
            proof {
                assert(self@[j as int] == self.coeffs[j as int]);
                assert(self@[j + len] == self.coeffs[j + len]);
            }
            let t = self.coeffs[j];
            let h = self.coeffs[j + len];
            let lo = csubq(t + h);
            let diff = caddq(t - h);
            proof {
                assert(t == wl[j as int]);
                assert(h == wl[j + len]);
                if t + h >= Q {
                    lemma_modq_small((t + h - Q) as int);
                    vstd::arithmetic::div_mod::lemma_mod_multiples_vanish(1, t + h - Q, Q as int);
                } else {
                    lemma_modq_small((t + h) as int);
                }
                if t - h < 0 {
                    lemma_modq_small((t - h + Q) as int);
                    vstd::arithmetic::div_mod::lemma_mod_multiples_vanish(-1, t - h + Q, Q as int);
                } else {
                    lemma_modq_small((t - h) as int);
                }
                assert(diff == modq(t - h));
                assert(0 <= zeta * diff <= Q * Q) by (nonlinear_arith)
                    requires
                        0 <= zeta < Q,
                        0 <= diff < Q,
                ;
            }
            let hi = barrett_reduce(zeta * diff);
            let ghost prev = self@;
            proof {
                crate::ring_spec::lemma_modq_mul(zeta as int, t - h);
                lemma_in_block(b, len as int, j - start);
                lemma_in_block(b, len as int, j + len - start);
                let il = inv_layer(wl, len as int);
                assert((j as int) / (2 * len as int) == b && (j as int) % (2 * len as int) == j - start);
                assert(il[j as int] == modq(wl[j as int] + wl[j + len]));
                assert(lo == il[j as int]);
                assert((j + len) / (2 * len as int) == b && (j + len) % (2 * len as int) == j + len - start);
                assert(il[j + len] == modq(zeta * (wl[j as int] - wl[j + len])));
                assert(hi == il[j + len]);
            }
            self.coeffs[j] = lo;
            self.coeffs[j + len] = hi;
            proof {
                assert forall|p: int| 0 <= p < 256 implies #[trigger] self@[p] == if p == j {
                    lo as int
                } else if p == j + len {
                    hi as int
                } else {
                    prev[p]
                } by {
                    assert(self@[p] == self.coeffs[p]);
                }
            }
            j = j + 1;
        }
    }

    /// All inverse layers followed by scaling with `256^{-1}`.
    fn inv_ntt_with(&mut self, z: &Vec<i64>)
        requires
            old(self).wf(),
            is_zeta_table(z@),
        ensures
            final(self).wf(),
            final(self)@ == poly_scale(m_inv(), inv_layers(old(self)@, 256)),
    {
        let ghost w0 = self@;
        proof {
            self.lemma_wf_canonical();
        }
        let mut k: usize = 256;
        let mut len: usize = 1;
        while len < M
            invariant
                is_layer_len(len as int) || len == 256,
                canonical(w0),
                self.wf(),
                is_zeta_table(z@),
                self@ == inv_layers(w0, len as int),
                len < 256 ==> k == 256int / len as int,
            decreases 256 - len,
        {
            let ghost wl = self@;
            proof {
                lemma_layer_quotients(len as int);
                self.lemma_wf_canonical();
                lemma_div_exact(0, 2 * len as int, 0);
            }
            let mut start: usize = 0;
            while start < M
                invariant
                    is_layer_len(len as int),
                    canonical(wl),
                    self.wf(),
                    is_zeta_table(z@),
                    start <= 256,
                    start as int == (start as int / (2 * len as int)) * (2 * len as int),
                    k == 256int / len as int - start as int / (2 * len as int),
                    forall|p: int| 0 <= p < start ==> #[trigger] self@[p] == inv_layer(wl, len as int)[p],
                    forall|p: int| start <= p < 256 ==> #[trigger] self@[p] == wl[p],
                decreases 256 - start,
            {
                let ghost b = start as int / (2 * len as int);
                proof {
                    lemma_layer_quotients(len as int);
                    assert(start + 2 * len <= 256) by (nonlinear_arith)
                        requires
                            start as int == b * (2 * len as int),
                            start < 256,
                            (128int / len as int) * (2 * len as int) == 256,
                            len >= 1,
                    ;
                    assert(b < 128int / len as int) by (nonlinear_arith)
                        requires
                            start as int == b * (2 * len as int),
                            start + 2 * len <= 256,
                            (128int / len as int) * (2 * len as int) == 256,
                            len >= 1,
                    ;
                    lemma_div_exact(256, len as int, 2 * (128int / len as int));
                }
                k = k - 1;
                self.inv_ntt_block(z, k, start, len, Ghost(wl));
                proof {
                    lemma_in_block(b + 1, len as int, 0);
                    assert((b + 1) * (2 * len as int) == start + 2 * len) by (nonlinear_arith)
                        requires
                            start as int == b * (2 * len as int),
                    ;
                }
                start = start + 2 * len;
            }
            proof {
                assert(self@ =~= inv_layer(wl, len as int));
                assert((2 * len as int) / 2 == len);
                assert(inv_layers(w0, 2 * len as int) == inv_layer(inv_layers(w0, len as int), len as int));
                lemma_div_exact(256, 2 * len as int, 128int / len as int);
                lemma_div_exact(256, len as int, 2 * (128int / len as int));
            }
            let ghost old_len = len;
            proof {
                assert(len << 1 == 2 * len) by (bit_vector)
                    requires
                        len <= 128,
                ;
            }
            len = len << 1;
            proof {
                lemma_layer_quotients(old_len as int);
                if len < 256 {
                    lemma_div_exact(256, len as int, 128int / old_len as int);
                }
            }
        }
        let m_inv_val = mod_pow(M as i64, (Q - 2) as u64, Q);
        proof {
            lemma_m_inv_value();
            self.lemma_wf_canonical();
        }
        let ghost wi = self@;
        let mut i: usize = 0;
        while i < M
            invariant
                m_inv_val == m_inv(),
                canonical(wi),
                i <= 256,
                forall|p: int| 0 <= p < i ==> #[trigger] self@[p] == poly_scale(m_inv(), wi)[p],
                forall|p: int| i <= p < 256 ==> #[trigger] self@[p] == wi[p],
                forall|p: int| 0 <= p < 256 ==> 0 <= #[trigger] self.coeffs[p] < Q,
            decreases 256 - i,
        {
            proof {
                assert(self@[i as int] == self.coeffs[i as int]);
                assert(0 <= self.coeffs[i as int] * m_inv_val <= Q * Q) by (nonlinear_arith)
                    requires
                        0 <= self.coeffs[i as int] < Q,
                        m_inv_val == 8347681,
                ;
            }
            let v = barrett_reduce(self.coeffs[i] * m_inv_val);
            let ghost prev = self@;
            proof {
                lemma_modq_range(self.coeffs[i as int] * m_inv_val);
                assert(v == poly_scale(m_inv(), wi)[i as int]);
            }
            self.coeffs[i] = v;
            proof {
                assert forall|p: int| 0 <= p < 256 implies #[trigger] self@[p] == if p == i {
                    v as int
                } else {
                    prev[p]
                } by {
                    assert(self@[p] == self.coeffs[p]);
                }
            }
            i = i + 1;
        }
        proof {
            assert(self@ =~= poly_scale(m_inv(), wi));
        }
    }
}

/// The polynomial whose coefficient array holds the first `n` entries of `s`.
pub open spec fn coeff_array(s: Seq<int>, n: nat) -> [i64; 256]
    decreases n,
{
    if n == 0 {
        vstd::array::spec_array_fill_for_copy_type::<i64, 256>(0)
    } else {
        vstd::array::spec_array_update(coeff_array(s, (n - 1) as nat), n - 1, s[n - 1] as i64)
    }
}

/// The polynomial with coefficients `s`.
pub open spec fn poly_of(s: Seq<int>) -> Poly {
    Poly { coeffs: coeff_array(s, 256) }
}

proof fn lemma_coeff_array(s: Seq<int>, n: nat)
    requires
        n <= 256,
    ensures
        forall|i: int|
            0 <= i < 256 ==> #[trigger] coeff_array(s, n)[i] == if i < n {
                s[i] as i64
            } else {
                0i64
            },
    decreases n,
{
    if n > 0 {
        lemma_coeff_array(s, (n - 1) as nat);
        let prev = coeff_array(s, (n - 1) as nat);
        let cur = coeff_array(s, n);
        assert(cur@ == prev@.update(n - 1, s[n - 1] as i64));
        assert forall|i: int| 0 <= i < 256 implies #[trigger] cur[i] == if i < n {
            s[i] as i64
        } else {
            0i64
        } by {
            assert(cur[i] == cur@[i]);
            assert(prev[i] == prev@[i]);
        }
    } else {
        assert forall|i: int| 0 <= i < 256 implies #[trigger] coeff_array(s, 0)[i] == 0i64 by {
            assert(coeff_array(s, 0)[i] == coeff_array(s, 0)@[i]);
        }
    }
}

/// The polynomial built from a canonical coefficient sequence has that view.
pub broadcast proof fn lemma_poly_of(s: Seq<int>)
    requires
        canonical(s),
    ensures
        (#[trigger] poly_of(s))@ == s,
        poly_of(s).wf(),
{
    lemma_coeff_array(s, 256);
    assert(poly_of(s)@ =~= s);
}

/// Two polynomials with the same coefficients are equal.
pub proof fn lemma_poly_ext(a: Poly, b: Poly)
    requires
        a@ == b@,
    ensures
        a == b,
{
    assert forall|i: int| 0 <= i < 256 implies a.coeffs[i] == b.coeffs[i] by {
        assert(a@[i] == a.coeffs[i]);
        assert(b@[i] == b.coeffs[i]);
    }
    assert(a.coeffs =~= b.coeffs);
}

impl Poly {
    /// In-place forward NTT: afterwards coefficient `j` is the value of the
    /// polynomial at the root `omega_j` of `x^256 + 1`, reduced mod `q`.
    ///
    /// Follows FIPS 204 Algorithm 41 with constant-time butterflies.
    pub fn ntt(&mut self)
        requires
            old(self).wf(),
        ensures
            final(self).wf(),
            final(self)@ == ntt_spec(old(self)@),
    {
        proof {
            self.lemma_wf_canonical();
            lemma_fwd_layers_is_ntt(self@);
        }
        let z = zetas();
        self.ntt_with(&z);
    }

    /// In-place inverse NTT with final scaling by `m^{-1} mod q`: afterwards
    /// the transform of the result is the input.
    ///
    /// Follows FIPS 204 Algorithm 42 with constant-time butterflies.
    pub fn inv_ntt(&mut self)
        requires
            old(self).wf(),
        ensures
            final(self).wf(),
            ntt_spec(final(self)@) == old(self)@,
    {
        proof {
            self.lemma_wf_canonical();
            lemma_inv_layers_invert(self@);
            lemma_fwd_layers_is_ntt(poly_scale(m_inv(), inv_layers(self@, 256)));
        }
        let z = zetas();
        self.inv_ntt_with(&z);
    }
}

/// `inv_ntt(ntt(p)) == p`: a canonical polynomial is determined by its
/// transform, so the inverse transform returns exactly the polynomial whose
/// transform it was given.
pub proof fn lemma_ntt_round_trip(p: Seq<int>, r: Seq<int>)
    requires
        canonical(p),
        canonical(r),
        ntt_spec(r) == ntt_spec(p),
    ensures
        r == p,
{
    lemma_ntt_injective(r, p);
}

/// The transform of a product in `R_q` is the pointwise product of transforms.
pub proof fn lemma_ntt_mul(a: Seq<int>, b: Seq<int>)
    requires
        canonical(a),
        canonical(b),
    ensures
        ntt_spec(poly_mul(a, b)) == poly_pointwise(ntt_spec(a), ntt_spec(b)),
{
    assert forall|j: int| 0 <= j < 256 implies #[trigger] ntt_spec(poly_mul(a, b))[j]
        == poly_pointwise(ntt_spec(a), ntt_spec(b))[j] by {
        let y = ntt_root(j);
        lemma_root_is_negacyclic(j);
        lemma_eval_poly_mul(a, b, y);
        lemma_modq_mul(eval(a, y), eval(b, y));
    }
    assert(ntt_spec(poly_mul(a, b)) =~= poly_pointwise(ntt_spec(a), ntt_spec(b)));
}

pub proof fn lemma_poly_mul_canonical(a: Seq<int>, b: Seq<int>)
    ensures
        canonical(poly_mul(a, b)),
{
    assert forall|k: int| 0 <= k < 256 implies 0 <= #[trigger] poly_mul(a, b)[k] < Q by {
        lemma_modq_range(crate::ring_spec::conv_sum(a, b, 256, k));
    }
}

/// Coefficient-wise sum modulo `q` (the body of `&a + &b`).
pub(crate) fn add_polys(x: &Poly, rhs: &Poly) -> (r: Poly)
    requires
        x.wf(),
        rhs.wf(),
    ensures
        r == poly_of(poly_add(x@, rhs@)),
        r@ == poly_add(x@, rhs@),
        r.wf(),
{
    let mut out = Poly::zero();
    let mut i: usize = 0;
    while i < M
        invariant
            x.wf(),
            rhs.wf(),
            i <= 256,
            forall|t: int| 0 <= t < i ==> #[trigger] out.coeffs[t] == modq(x.coeffs[t] + rhs.coeffs[t]),
        decreases 256 - i,
    {
        let a = x.coeffs[i];
        let b = rhs.coeffs[i];
        proof {
            if a + b >= Q {
                lemma_modq_small((a + b - Q) as int);
                vstd::arithmetic::div_mod::lemma_mod_multiples_vanish(1, a + b - Q, Q as int);
            } else {
                lemma_modq_small((a + b) as int);
            }
        }
        out.coeffs[i] = csubq(a + b);
        i = i + 1;
    }
    proof {
        assert(out@ =~= poly_add(x@, rhs@));
        x.lemma_wf_canonical();
        rhs.lemma_wf_canonical();
        lemma_poly_add_canonical(x@, rhs@);
        lemma_poly_of(poly_add(x@, rhs@));
        lemma_poly_ext(out, poly_of(poly_add(x@, rhs@)));
    }
    out
}

impl<'a, 'b> std::ops::Add<&'b Poly> for &'a Poly {
    type Output = Poly;

    /// Coefficient-wise sum modulo `q`.
    fn add(self, rhs: &'b Poly) -> (r: Poly) {
        add_polys(self, rhs)
    }
}

impl<'a, 'b> vstd::std_specs::ops::AddSpecImpl<&'b Poly> for &'a Poly {
    open spec fn obeys_add_spec() -> bool {
        true
    }

    open spec fn add_req(self, rhs: &'b Poly) -> bool {
        self.wf() && rhs.wf()
    }

    open spec fn add_spec(self, rhs: &'b Poly) -> Poly {
        poly_of(poly_add(self@, rhs@))
    }
}

/// Coefficient-wise difference modulo `q` (the body of `&a - &b`).
pub(crate) fn sub_polys(x: &Poly, rhs: &Poly) -> (r: Poly)
    requires
        x.wf(),
        rhs.wf(),
    ensures
        r == poly_of(poly_sub(x@, rhs@)),
        r@ == poly_sub(x@, rhs@),
        r.wf(),
{
    let mut out = Poly::zero();
    let mut i: usize = 0;
    while i < M
        invariant
            x.wf(),
            rhs.wf(),
            i <= 256,
            forall|t: int| 0 <= t < i ==> #[trigger] out.coeffs[t] == modq(x.coeffs[t] - rhs.coeffs[t]),
        decreases 256 - i,
    {
        let a = x.coeffs[i];
        let b = rhs.coeffs[i];
        proof {
            if a - b < 0 {
                lemma_modq_small((a - b + Q) as int);
                vstd::arithmetic::div_mod::lemma_mod_multiples_vanish(-1, a - b + Q, Q as int);
            } else {
                lemma_modq_small((a - b) as int);
            }
        }
        out.coeffs[i] = caddq(a - b);
        i = i + 1;
    }
    proof {
        assert(out@ =~= poly_sub(x@, rhs@));
        lemma_poly_sub_canonical(x@, rhs@);
        lemma_poly_of(poly_sub(x@, rhs@));
        lemma_poly_ext(out, poly_of(poly_sub(x@, rhs@)));
    }
    out
}

impl<'a, 'b> std::ops::Sub<&'b Poly> for &'a Poly {
    type Output = Poly;

    /// Coefficient-wise difference modulo `q`.
    fn sub(self, rhs: &'b Poly) -> (r: Poly) {
        sub_polys(self, rhs)
    }
}

impl<'a, 'b> vstd::std_specs::ops::SubSpecImpl<&'b Poly> for &'a Poly {
    open spec fn obeys_sub_spec() -> bool {
        true
    }

    open spec fn sub_req(self, rhs: &'b Poly) -> bool {
        self.wf() && rhs.wf()
    }

    open spec fn sub_spec(self, rhs: &'b Poly) -> Poly {
        poly_of(poly_sub(self@, rhs@))
    }
}

/// Product in `R_q` via forward transforms, pointwise product and inverse
/// transform (the body of `&a * &b`).
pub(crate) fn mul_polys(x: &Poly, rhs: &Poly) -> (r: Poly)
    requires
        x.wf(),
        rhs.wf(),
    ensures
        r == poly_of(poly_mul(x@, rhs@)),
        r@ == poly_mul(x@, rhs@),
        r.wf(),
{
    let z = zetas();
    let mut a = Poly { coeffs: x.coeffs };
    let mut b = Poly { coeffs: rhs.coeffs };
    proof {
        assert(a@ =~= x@);
        assert(b@ =~= rhs@);
    }
    a.ntt_with(&z);
    b.ntt_with(&z);
    let mut c = a.pointwise_mul(&b);
    let ghost pw = c@;
    c.inv_ntt_with(&z);
    proof {
        x.lemma_wf_canonical();
        rhs.lemma_wf_canonical();
        lemma_fwd_layers_is_ntt(x@);
        lemma_fwd_layers_is_ntt(rhs@);
        a.lemma_wf_canonical();
        b.lemma_wf_canonical();
        let pw_c = poly_pointwise(ntt_spec(x@), ntt_spec(rhs@));
        assert(pw == pw_c);
        assert(canonical(pw)) by {
            assert forall|i: int| 0 <= i < 256 implies 0 <= #[trigger] pw[i] < Q by {
                lemma_modq_range(ntt_spec(x@)[i] * ntt_spec(rhs@)[i]);
            }
        }
        lemma_inv_layers_invert(pw);
        let r = c@;
        lemma_fwd_layers_is_ntt(r);
        assert(ntt_spec(r) == pw);
        lemma_ntt_mul(x@, rhs@);
        lemma_poly_mul_canonical(x@, rhs@);
        lemma_ntt_injective(r, poly_mul(x@, rhs@));
        lemma_poly_of(poly_mul(x@, rhs@));
        lemma_poly_ext(c, poly_of(poly_mul(x@, rhs@)));
    }
    c
}

impl<'a, 'b> std::ops::Mul<&'b Poly> for &'a Poly {
    type Output = Poly;

    /// Product in `R_q` via forward transforms, pointwise product and inverse
    /// transform.
    fn mul(self, rhs: &'b Poly) -> (r: Poly) {
        mul_polys(self, rhs)
    }
}

impl<'a, 'b> vstd::std_specs::ops::MulSpecImpl<&'b Poly> for &'a Poly {
    open spec fn obeys_mul_spec() -> bool {
        true
    }

    open spec fn mul_req(self, rhs: &'b Poly) -> bool {
        self.wf() && rhs.wf()
    }

    open spec fn mul_spec(self, rhs: &'b Poly) -> Poly {
        poly_of(poly_mul(self@, rhs@))
    }
}

pub proof fn lemma_poly_add_canonical(a: Seq<int>, b: Seq<int>)
    ensures
        canonical(poly_add(a, b)),
{
    assert forall|k: int| 0 <= k < 256 implies 0 <= #[trigger] poly_add(a, b)[k] < Q by {
        lemma_modq_range(a[k] + b[k]);
    }
}

pub proof fn lemma_poly_sub_canonical(a: Seq<int>, b: Seq<int>)
    ensures
        canonical(poly_sub(a, b)),
{
    assert forall|k: int| 0 <= k < 256 implies 0 <= #[trigger] poly_sub(a, b)[k] < Q by {
        lemma_modq_range(a[k] - b[k]);
    }
}

/// Byte `k` (little-endian, `k < 3`) of the 3-byte encoding of coefficient `c`.
pub open spec fn coeff_byte(c: i64, k: int) -> u8 {
    if k == 0 {
        (c as u64 & 0xff) as u8
    } else if k == 1 {
        ((c as u64 >> 8u64) & 0xff) as u8
    } else {
        ((c as u64 >> 16u64) & 0xff) as u8
    }
}

/// The 768-byte serialization of `p`: 3 bytes per coefficient, little-endian.
pub open spec fn poly_bytes(p: Poly) -> Seq<u8> {
    Seq::new(768, |t: int| coeff_byte(p.coeffs[t / 3], t % 3))
}

/// The 24-bit little-endian value of the bytes `3i, 3i+1, 3i+2` of `b`.
pub open spec fn decode_coeff(b: Seq<u8>, i: int) -> int {
    b[3 * i] + 256 * b[3 * i + 1] + 65536 * b[3 * i + 2]
}

/// `b` is the serialization of some polynomial: it has 768 bytes and every
/// 3-byte value is below `q`.
pub open spec fn bytes_decodable(b: Seq<u8>) -> bool {
    &&& b.len() == 768
    &&& forall|i: int| 0 <= i < 256 ==> #[trigger] decode_coeff(b, i) < Q
}

/// `|centered(c)|`.
pub open spec fn abs_centered(c: int) -> int {
    if crate::ring_ct::centered(c) < 0 {
        -crate::ring_ct::centered(c)
    } else {
        crate::ring_ct::centered(c)
    }
}

/// The largest `|centered(s[i])|` over `i < n` (0 for `n = 0`).
pub open spec fn max_abs_centered(s: Seq<int>, n: nat) -> int
    decreases n,
{
    if n == 0 {
        0
    } else {
        let m = max_abs_centered(s, (n - 1) as nat);
        let a = abs_centered(s[n - 1]);
        if a > m {
            a
        } else {
            m
        }
    }
}

/// `sum_{i < n} centered(s[i])^2`.
pub open spec fn sum_sq_centered(s: Seq<int>, n: nat) -> int
    decreases n,
{
    if n == 0 {
        0
    } else {
        sum_sq_centered(s, (n - 1) as nat) + crate::ring_ct::centered(s[n - 1]) * crate::ring_ct::centered(s[n - 1])
    }
}

/// The squared `l2` norm of the centered coefficient vector.
pub open spec fn norm_sq(s: Seq<int>) -> int {
    sum_sq_centered(s, 256)
}

/// Partial sums of squares never decrease and contain every term before `n`.
proof fn lemma_sum_sq_ge_term(s: Seq<int>, n: nat, k: int)
    ensures
        sum_sq_centered(s, n) >= 0,
        0 <= k < n ==> sum_sq_centered(s, n) >= crate::ring_ct::centered(s[k]) * crate::ring_ct::centered(s[k]),
    decreases n,
{
    if n > 0 {
        lemma_sum_sq_ge_term(s, (n - 1) as nat, k);
        let x = crate::ring_ct::centered(s[n - 1]);
        assert(x * x >= 0) by (nonlinear_arith);
        let y = crate::ring_ct::centered(s[k]);
        assert(y * y >= 0) by (nonlinear_arith);
    }
}

/// Every coefficient counts in the squared norm: for every position `k` of
/// the 256, `||s||^2 >= centered(s[k])^2`.
pub proof fn lemma_norm_sq_ge_coeff(s: Seq<int>, k: int)
    requires
        0 <= k < 256,
    ensures
        norm_sq(s) >= crate::ring_ct::centered(s[k]) * crate::ring_ct::centered(s[k]),
        norm_sq(s) >= 0,
{
    lemma_sum_sq_ge_term(s, 256, k);
}

proof fn lemma_max_abs_bounds(s: Seq<int>, n: nat, k: int)
    ensures
        max_abs_centered(s, n) >= 0,
        0 <= k < n ==> max_abs_centered(s, n) >= abs_centered(s[k]),
        n > 0 ==> exists|j: int| 0 <= j < n && max_abs_centered(s, n) == #[trigger] abs_centered(s[j]),
    decreases n,
{
    if n > 0 {
        lemma_max_abs_bounds(s, (n - 1) as nat, k);
        let m = max_abs_centered(s, (n - 1) as nat);
        let a = abs_centered(s[n - 1]);
        if a > m {
            assert(abs_centered(s[n - 1]) == max_abs_centered(s, n));
        } else if n - 1 > 0 {
            let j = choose|j: int| 0 <= j < n - 1 && m == #[trigger] abs_centered(s[j]);
            assert(max_abs_centered(s, n) == abs_centered(s[j]));
        } else {
            assert(abs_centered(s[0]) >= 0);
            assert(max_abs_centered(s, n) == abs_centered(s[0]));
        }
    }
}

/// The infinity norm is the largest centered magnitude over all 256
/// coefficients: at least that of every coefficient, and attained by one.
pub proof fn lemma_norm_inf_is_max(s: Seq<int>)
    ensures
        forall|k: int| 0 <= k < 256 ==> max_abs_centered(s, 256) >= #[trigger] abs_centered(s[k]),
        exists|j: int| 0 <= j < 256 && max_abs_centered(s, 256) == #[trigger] abs_centered(s[j]),
{
    assert forall|k: int| 0 <= k < 256 implies max_abs_centered(s, 256) >= #[trigger] abs_centered(s[k]) by {
        lemma_max_abs_bounds(s, 256, k);
    }
    lemma_max_abs_bounds(s, 256, 0);
}

/// The polynomial `c x^k`.
pub open spec fn monomial(c: int, k: int) -> Seq<int> {
    Seq::new(256, |j: int| if j == k { c } else { 0 })
}

proof fn lemma_sum_sq_monomial(c: int, k: int, n: nat)
    requires
        0 <= k < 256,
        n <= 256,
    ensures
        sum_sq_centered(monomial(c, k), n) == if k < n {
            crate::ring_ct::centered(c) * crate::ring_ct::centered(c)
        } else {
            0
        },
    decreases n,
{
    if n > 0 {
        lemma_sum_sq_monomial(c, k, (n - 1) as nat);
        let m = monomial(c, k);
        if n - 1 == k {
            assert(m[n - 1] == c);
        } else {
            assert(m[n - 1] == 0);
            assert(crate::ring_ct::centered(0) == 0);
        }
    }
}

/// The squared norm of `c x^k` is `centered(c)^2`, at every degree `k < 256`.
pub proof fn lemma_norm_sq_monomial(c: int, k: int)
    requires
        0 <= k < 256,
    ensures
        norm_sq(monomial(c, k)) == crate::ring_ct::centered(c) * crate::ring_ct::centered(c),
{
    lemma_sum_sq_monomial(c, k, 256);
}

/// The serialization writes coefficient `i` as three little-endian bytes at
/// `3i`, `3i + 1`, `3i + 2`: its value mod 256, then the next two base-256
/// digits.
pub proof fn lemma_poly_bytes_layout(p: Poly)
    requires
        p.wf(),
    ensures
        poly_bytes(p).len() == 768,
        forall|i: int|
            0 <= i < 256 ==> {
                &&& #[trigger] poly_bytes(p)[3 * i] == p.coeffs[i] % 256
                &&& poly_bytes(p)[3 * i + 1] == (p.coeffs[i] / 256) % 256
                &&& poly_bytes(p)[3 * i + 2] == (p.coeffs[i] / 65536) % 256
            },
{
    assert forall|i: int| 0 <= i < 256 implies {
        &&& #[trigger] poly_bytes(p)[3 * i] == p.coeffs[i] % 256
        &&& poly_bytes(p)[3 * i + 1] == (p.coeffs[i] / 256) % 256
        &&& poly_bytes(p)[3 * i + 2] == (p.coeffs[i] / 65536) % 256
    } by {
        let c = p.coeffs[i];
        assert(0 <= c < 8380417);
        assert((c as u64 & 0xff) as u8 == c % 256 && ((c as u64 >> 8u64) & 0xff) as u8 == (c / 256) % 256
            && ((c as u64 >> 16u64) & 0xff) as u8 == (c / 65536) % 256) by (bit_vector)
            requires
                0 <= c < 8380417,
        ;
    }
}

/// Decoding the serialization of a canonical polynomial gives it back.
pub proof fn lemma_bytes_round_trip(p: Poly)
    requires
        p.wf(),
    ensures
        bytes_decodable(poly_bytes(p)),
        forall|i: int| 0 <= i < 256 ==> #[trigger] decode_coeff(poly_bytes(p), i) == p.coeffs[i],
{
    assert forall|i: int| 0 <= i < 256 implies #[trigger] decode_coeff(poly_bytes(p), i) == p.coeffs[i] by {
        let c = p.coeffs[i];
        let b = poly_bytes(p);
        assert(b[3 * i] == coeff_byte(c, 0));
        assert(b[3 * i + 1] == coeff_byte(c, 1));
        assert(b[3 * i + 2] == coeff_byte(c, 2));
        assert(0 <= c < 8380417);
        assert((c as u64 & 0xff) as u8 + 256 * ((c as u64 >> 8u64) & 0xff) as u8 + 65536 * ((c as u64 >> 16u64) & 0xff) as u8 == c) by (bit_vector)
            requires
                0 <= c < 8380417,
        ;
    }
}

impl Poly {
    /// Whether every coefficient lies in `[0, q)` (the invariant that the
    /// ring operations rely on).
    pub fn is_canonical(&self) -> (r: bool)
        ensures
            r == self.wf(),
    {
        let mut i: usize = 0;
        while i < M
            invariant
                i <= 256,
                forall|t: int| 0 <= t < i ==> 0 <= #[trigger] self.coeffs[t] < Q,
            decreases 256 - i,
        {
            if self.coeffs[i] < 0 || self.coeffs[i] >= Q {
                return false;
            }
            i = i + 1;
        }
        true
    }

    /// `l_inf` norm of the centered coefficient vector.
    pub fn norm_inf(&self) -> (r: i64)
        requires
            self.wf(),
        ensures
            r == max_abs_centered(self@, 256),
    {
        let mut m: i64 = 0;
        let mut i: usize = 0;
        while i < M
            invariant
                self.wf(),
                i <= 256,
                m == max_abs_centered(self@, i as nat),
                0 <= m < Q,
            decreases 256 - i,
        {
            let c = crate::ring_ct::center(self.coeffs[i]);
            let a = if c < 0 {
                -c
            } else {
                c
            };
            proof {
                assert(self@[i as int] == self.coeffs[i as int]);
            }
            if a > m {
                m = a;
            }
            i = i + 1;
        }
        m
    }

    /// Squared `l2` norm of the centered coefficient vector.
    pub fn norm_l2_squared(&self) -> (r: i64)
        requires
            self.wf(),
        ensures
            r == norm_sq(self@),
            r >= 0,
    {
        let mut acc: i64 = 0;
        let mut i: usize = 0;
        while i < M
            invariant
                self.wf(),
                i <= 256,
                acc == sum_sq_centered(self@, i as nat),
                0 <= acc <= i * 17557843085264,
            decreases 256 - i,
        {
            let c = crate::ring_ct::center(self.coeffs[i]);
            proof {
                assert(self@[i as int] == self.coeffs[i as int]);
                assert(0 <= c * c <= 17557843085264) by (nonlinear_arith)
                    requires
                        -4190208 <= c <= 4190208,
                ;
            }
            acc = acc + c * c;
            i = i + 1;
        }
        acc
    }

    /// Serialize to bytes: 3 bytes per coefficient, little-endian (768 bytes).
    pub fn to_bytes(&self) -> (r: Vec<u8>)
        ensures
            r@ == poly_bytes(*self),
    {
        let mut out: Vec<u8> = Vec::with_capacity(3 * M);
        let mut i: usize = 0;
        while i < M
            invariant
                i <= 256,
                out@ == poly_bytes(*self).subrange(0, 3 * i as int),
            decreases 256 - i,
        {
            let c = self.coeffs[i] as u64;
            let ghost before = out@;
            out.push((c & 0xFF) as u8);
            out.push(((c >> 8) & 0xFF) as u8);
            out.push(((c >> 16) & 0xFF) as u8);
            proof {
                assert(out@ =~= poly_bytes(*self).subrange(0, 3 * (i + 1)));
            }
            i = i + 1;
        }
        assert(out@ =~= poly_bytes(*self));
        out
    }

    /// Deserialize from [`Poly::to_bytes`] output: `None` if the input does
    /// not have 768 bytes or any coefficient is `>= q`.
    pub fn from_bytes(b: &[u8]) -> (r: Option<Self>)
        ensures
            r is Some <==> bytes_decodable(b@),
            r matches Some(p) ==> p.wf() && forall|i: int| 0 <= i < 256 ==> #[trigger] p.coeffs[i] == decode_coeff(b@, i),
    {
        if b.len() != 3 * M {
            return None;
        }
        let mut coeffs = [0i64; M];
        let mut i: usize = 0;
        while i < M
            invariant
                b@.len() == 768,
                i <= 256,
                forall|t: int| 0 <= t < i ==> #[trigger] coeffs[t] == decode_coeff(b@, t) && decode_coeff(b@, t) < Q,
            decreases 256 - i,
        {
            let b0 = b[3 * i] as u64;
            let b1 = b[3 * i + 1] as u64;
            let b2 = b[3 * i + 2] as u64;
            let c: u64 = b0 | (b1 << 8) | (b2 << 16);
            proof {
                assert(c == b0 + 256 * b1 + 65536 * b2) by (bit_vector)
                    requires
                        b0 < 256,
                        b1 < 256,
                        b2 < 256,
                        c == b0 | (b1 << 8u64) | (b2 << 16u64),
                ;
                assert(decode_coeff(b@, i as int) == c);
            }
            if c >= Q as u64 {
                return None;
            }
            coeffs[i] = c as i64;
            i = i + 1;
        }
        let r = Poly { coeffs };
        proof {
            assert forall|k: int| 0 <= k < 256 implies #[trigger] decode_coeff(b@, k) < Q by {
                assert(coeffs[k] == decode_coeff(b@, k));
            }
            assert forall|k: int| 0 <= k < 256 implies 0 <= #[trigger] r.coeffs[k] < Q by {
                assert(r.coeffs[k] == decode_coeff(b@, k));
            }
        }
        Some(r)
    }
}

/// `2^i - 1`.
pub open spec fn sub_mask(i: u64) -> u64 {
    ((1u64 << i) - 1) as u64
}

} // verus!
