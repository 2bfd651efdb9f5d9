//! 64-bit negacyclic NTT core: Shoup butterflies and Montgomery products
//! with `R = 2^64` over `[u64; N]` buffers with values canonical in `[0, q)`.
use super::evaluation::negacyclic_mul;
use super::modular::{
    lemma_cancel_pow2, lemma_mont_exact, lemma_shoup_window, lemma_wrapping_sub_is_mod,
};
use super::transform::{
    canonical, fwd_layer, fwd_layers, intt_spec, inv_layer, inv_layers, ints64, is_power_of_two,
    lemma_fwd_layer_canonical, lemma_inv_layer_canonical, scale, pointwise_spec, tables_inverse,
    negacyclic_roots, lemma_roundtrip, lemma_convolution, fwd_layers_between,
    inv_layers_between, lemma_fwd_layers_from_zero, lemma_inv_layers_from_zero, stages_end,
    lemma_pow2_product,
    lemma_block_index, lemma_layer_shape, log2, log2_usize, ntt_spec,
};
use vstd::arithmetic::power2::*;
use vstd::arithmetic::div_mod::*;
use vstd::arithmetic::mul::*;
use vstd::prelude::*;

verus! {

pub struct Ring64<const N: usize> {
    pub q: u64,
    pub q_inv_neg: u64,
    pub r2: u64,
    pub ntt_table: [u64; N],
    pub ntt_table_shoup: [u64; N],
    pub inv_ntt_table: [u64; N],
    pub inv_ntt_table_shoup: [u64; N],
    pub n_inv: u64,
    pub n_inv_shoup: u64,
}

/// `floor(w·2^64/q)`, the Shoup companion of a twiddle `w`.
pub open spec fn shoup64(w: int, q: int) -> int {
    (w * 0x1_0000_0000_0000_0000) / q
}

impl<const N: usize> Ring64<N> {
    /// The arithmetic invariants every operation relies on: an odd modulus
    /// with `q < 2^62`, the Montgomery constants, canonical twiddles with
    /// correct Shoup companions, and a canonical `N^-1`.
    pub open spec fn wf(&self) -> bool {
        &&& self.q % 2 == 1
        &&& 1 < self.q
        &&& self.q < 0x4000_0000_0000_0000
        &&& (self.q * self.q_inv_neg + 1) % 0x1_0000_0000_0000_0000 == 0
        &&& self.r2 == 0x1_0000_0000_0000_0000_0000_0000_0000_0000int % (self.q as int)
        &&& forall|k: int|
            0 <= k < N ==> #[trigger] self.ntt_table[k] < self.q && self.ntt_table_shoup[k]
                == shoup64(self.ntt_table[k] as int, self.q as int)
        &&& forall|k: int|
            0 <= k < N ==> #[trigger] self.inv_ntt_table[k] < self.q
                && self.inv_ntt_table_shoup[k] == shoup64(
                self.inv_ntt_table[k] as int,
                self.q as int,
            )
        &&& self.n_inv < self.q
        &&& self.n_inv_shoup == shoup64(self.n_inv as int, self.q as int)
    }
}

impl<const N: usize> Ring64<N> {
    /// The forward transform this ring computes, over integer coefficients.
    pub open spec fn forward_spec(&self, p: Seq<int>) -> Seq<int> {
        ntt_spec(p, ints64(self.ntt_table@), self.q as int)
    }

    /// The inverse transform this ring computes, over integer coefficients.
    pub open spec fn inverse_spec(&self, p: Seq<int>) -> Seq<int> {
        intt_spec(p, ints64(self.inv_ntt_table@), self.n_inv as int, self.q as int)
    }
}

/// The full 128-bit product of two 64-bit words.
#[inline(always)]
fn wide_mul(x: u64, y: u64) -> (r: u128)
    ensures
        r == x * y,
{
    proof {
        lemma_mul_upper_bound(x as int, 0xffff_ffff_ffff_ffff, y as int, 0xffff_ffff_ffff_ffff);
    }
    x as u128 * y as u128
}

/// `x - q` if that is non-negative, else `x`.
fn csub_s(x: u64, q: u64) -> (r: u64)
    requires
        0 < q < 0x4000_0000_0000_0000,
        x < 2 * q,
    ensures
        r == (if x >= q { x - q } else { x as int }),
{
    let d = x.wrapping_sub(q);
    let r = d.wrapping_add(q & (((d as i64) >> 63) as u64));
    assert(r == (if x >= q { x - q } else { x as int })) by (bit_vector)
        requires
            0 < q < 0x4000_0000_0000_0000,
            x < 2 * q,
            d == (if x - q < 0 { (x - q + 0x1_0000_0000_0000_0000) as u64 } else { (x - q) as u64 }),
            r == (if d + (q & (((d as i64) >> 63) as u64)) > 0xffff_ffff_ffff_ffff {
                (d + (q & (((d as i64) >> 63) as u64)) - 0x1_0000_0000_0000_0000) as u64
            } else {
                (d + (q & (((d as i64) >> 63) as u64))) as u64
            }),
    ;
    r
}

#[inline(always)]
pub fn add_mod(a: u64, b: u64, q: u64) -> (r: u64)
    requires
        q < 0x4000_0000_0000_0000,
        a < q,
        b < q,
    ensures
        r == (a + b) % (q as int),
{
    let r = csub_s(a + b, q);
    proof {
        if a + b >= q {
            lemma_small_mod((a + b - q) as nat, q as nat);
            lemma_mod_add_multiples_vanish(a + b - q, q as int);
        } else {
            lemma_small_mod((a + b) as nat, q as nat);
        }
    }
    r
}

#[inline(always)]
pub fn sub_mod(a: u64, b: u64, q: u64) -> (r: u64)
    requires
        q < 0x4000_0000_0000_0000,
        a < q,
        b < q,
    ensures
        r == (a - b) % (q as int),
{
    let d = a.wrapping_sub(b);
    let r = d.wrapping_add(q & (((d as i64) >> 63) as u64));
    assert(r == (if a >= b { a - b } else { a - b + q })) by (bit_vector)
        requires
            q < 0x4000_0000_0000_0000,
            a < q,
            b < q,
            d == (if a - b < 0 { (a - b + 0x1_0000_0000_0000_0000) as u64 } else { (a - b) as u64 }),
            r == (if d + (q & (((d as i64) >> 63) as u64)) > 0xffff_ffff_ffff_ffff {
                (d + (q & (((d as i64) >> 63) as u64)) - 0x1_0000_0000_0000_0000) as u64
            } else {
                (d + (q & (((d as i64) >> 63) as u64))) as u64
            }),
    ;
    proof {
        if a >= b {
            lemma_small_mod((a - b) as nat, q as nat);
        } else {
            lemma_small_mod((a - b + q) as nat, q as nat);
            lemma_mod_add_multiples_vanish(a - b, q as int);
        }
    }
    r
}

#[inline(always)]
fn shoup_mul(a: u64, w: u64, w_shoup: u64, q: u64) -> (r: u64)
    requires
        1 < q,
        q < 0x4000_0000_0000_0000,
        w < q,
        w_shoup == shoup64(w as int, q as int),
    ensures
        r == (a * w) % (q as int),
{
    let p: u128 = wide_mul(a, w_shoup);
    let qq = (p >> 64) as u64;
    let x = a.wrapping_mul(w).wrapping_sub(qq.wrapping_mul(q));
    proof {
        let rr: int = 0x1_0000_0000_0000_0000;
        assert(p >> 64 == p / 0x1_0000_0000_0000_0000 && p >> 64 < 0x1_0000_0000_0000_0000) by (bit_vector);
        assert(qq == (p as int) / rr);
        lemma_shoup_window(a as int, w as int, w_shoup as int, qq as int, q as int, rr);
        let t = a * w - qq * q;
        let aa = (a * w) % rr;
        let bb = (qq * q) % rr;
        lemma_mod_bound(a * w, rr);
        lemma_mod_bound(qq * q, rr);
        lemma_wrapping_sub_is_mod(aa, bb, rr, x as int);
        lemma_sub_mod_noop(a * w, qq * q, rr);
        lemma_small_mod(t as nat, rr as nat);
        assert(x == t);
        lemma_mod_multiples_vanish(-(qq as int), t, q as int);
        assert(t + (-(qq as int)) * q == a * w - 2 * (qq * q)) by (nonlinear_arith)
            requires
                t == a * w - qq * q,
        ;
    }
    let r = csub_s(x, q);
    proof {
        let t = x as int;
        assert(t % (q as int) == (a * w) % (q as int)) by {
            lemma_mod_multiples_vanish(qq as int, t, q as int);
            assert(qq * q + t == a * w) by (nonlinear_arith)
                requires
                    t == a * w - qq * q,
            ;
            assert(qq * (q as int) == qq * q);
        }
        if t >= q {
            lemma_mod_sub_multiples_vanish(t, q as int);
            lemma_small_mod((t - q) as nat, q as nat);
        } else {
            lemma_small_mod(t as nat, q as nat);
        }
    }
    r
}

/// Montgomery reduction: `x < q·2^64` → `x·2^-64 mod q`, canonical.
#[inline(always)]
pub fn mont_reduce<const N: usize>(x: u128, ring: &Ring64<N>) -> (r: u64)
    requires
        ring.wf(),
        x < ring.q * 0x1_0000_0000_0000_0000,
    ensures
        r < ring.q,
        (r * 0x1_0000_0000_0000_0000) % (ring.q as int) == (x as int) % (ring.q as int),
{
    let q = ring.q;
    let x_lo = x as u64;
    let m = x_lo.wrapping_mul(ring.q_inv_neg);
    let mq = wide_mul(m, q);
    proof {
        let rr: int = 0x1_0000_0000_0000_0000;
        assert(x_lo == x % 0x1_0000_0000_0000_0000) by (bit_vector)
            requires
                x_lo == x as u64,
        ;
        assert(m == (x_lo * ring.q_inv_neg) % rr);
        lemma_mont_exact(x as int, m as int, q as int, ring.q_inv_neg as int, rr);
        lemma_mul_strict_inequality(m as int, rr, q as int);
        assert(m * q < q * rr) by (nonlinear_arith)
            requires
                m < rr,
                q > 0,
        ;
    }
    let s = x + mq;
    let t = (s >> 64) as u64;
    proof {
        let rr: int = 0x1_0000_0000_0000_0000;
        assert(s >> 64 == s / 0x1_0000_0000_0000_0000 && s >> 64 < 0x1_0000_0000_0000_0000) by (bit_vector);
        lemma_fundamental_div_mod(s as int, rr);
        assert(t * rr == s);
        assert(t < 2 * q) by (nonlinear_arith)
            requires
                t * rr == s,
                s < 2 * q * rr,
                rr > 0,
        ;
        lemma_mod_multiples_vanish(m as int, x as int, q as int);
        assert(q * m == m * q) by (nonlinear_arith);
        assert(q * m + x == s);
        assert((t * rr) % (q as int) == (x as int) % (q as int));
    }
    let r = csub_s(t, q);
    proof {
        let rr: int = 0x1_0000_0000_0000_0000;
        if t >= q {
            lemma_mul_is_distributive_sub_other_way(rr, t as int, q as int);
            assert((t - q) * rr == t * rr - q * rr);
            lemma_mod_multiples_vanish(-rr, t * rr, q as int);
            assert(q * (-rr) + t * rr == (t - q) * rr) by (nonlinear_arith);
            assert(r * rr == (t - q) * rr);
        }
        assert((r * rr) % (q as int) == (t * rr) % (q as int));
    }
    r
}

/// `a·b·2^-64 mod q` (Montgomery-domain product).
#[inline(always)]
pub fn mont_mul<const N: usize>(a: u64, b: u64, ring: &Ring64<N>) -> (r: u64)
    requires
        ring.wf(),
        a * b < ring.q * 0x1_0000_0000_0000_0000,
    ensures
        r < ring.q,
        (r * 0x1_0000_0000_0000_0000) % (ring.q as int) == (a * b) % (ring.q as int),
{
    mont_reduce(wide_mul(a, b), ring)
}

/// Canonical modular product `a·b mod q` for canonical inputs.
#[inline(always)]
pub fn mul_mod<const N: usize>(a: u64, b: u64, ring: &Ring64<N>) -> (r: u64)
    requires
        ring.wf(),
        a < ring.q,
        b < ring.q,
    ensures
        r == (a * b) % (ring.q as int),
{
    proof {
        assert(a * b < ring.q * 0x1_0000_0000_0000_0000) by (nonlinear_arith)
            requires
                a < ring.q,
                b < ring.q,
                ring.q < 0x1_0000_0000_0000_0000,
        ;
    }
    let ab = mont_mul(a, b, ring);
    proof {
        assert(ab * ring.r2 < ring.q * 0x1_0000_0000_0000_0000) by (nonlinear_arith)
            requires
                ab < ring.q,
                ring.r2 < ring.q,
                ring.q < 0x1_0000_0000_0000_0000,
        ;
    }
    let r = mont_mul(ab, ring.r2, ring);
    proof {
        lemma_mont_twice(a * b, ab as int, ring.r2 as int, r as int, ring.q as int);
        lemma_small_mod(r as nat, ring.q as nat);
    }
    r
}

/// Two Montgomery reductions, the second after multiplying by `R^2 mod q`,
/// undo the `R^-1` factor: `(s·R^-1)·R^2·R^-1 ≡ s (mod q)`.
proof fn lemma_mont_twice(s: int, ab: int, r2: int, r: int, q: int)
    requires
        q > 1,
        q % 2 == 1,
        (ab * 0x1_0000_0000_0000_0000) % q == s % q,
        r2 == 0x1_0000_0000_0000_0000_0000_0000_0000_0000int % q,
        (r * 0x1_0000_0000_0000_0000) % q == (ab * r2) % q,
    ensures
        r % q == s % q,
{
    let rr: int = 0x1_0000_0000_0000_0000;
    lemma2_to64();
    lemma2_to64_rest();
    lemma_mul_mod_noop_right(ab, 0x1_0000_0000_0000_0000_0000_0000_0000_0000int, q);
    assert(0x1_0000_0000_0000_0000_0000_0000_0000_0000int == rr * rr);
    assert(ab * (rr * rr) == (ab * rr) * rr) by (nonlinear_arith);
    lemma_mul_mod_noop_left(ab * rr, rr, q);
    lemma_mul_mod_noop_left(s, rr, q);
    assert((r * rr) % q == (s * rr) % q);
    assert(pow2(64) == rr);
    lemma_cancel_pow2(r, s, q, 64);
}

/// One forward butterfly layer `l`, in place; `t` is the block size.
fn ntt_layer_scalar<const N: usize>(ring: &Ring64<N>, p: &mut [u64; N], l: usize, t: usize)
    requires
        ring.wf(),
        is_power_of_two(N as nat),
        l < log2(N as nat),
        t == N as int / (pow2(l as nat) as int),
        canonical(ints64(old(p)@), ring.q as int),
    ensures
        ints64(final(p)@) == fwd_layer(
            ints64(old(p)@),
            ints64(ring.ntt_table@),
            ring.q as int,
            l as nat,
        ),
{
    let q = ring.q;
    let ghost p0 = ints64(p@);
    let ghost p1 = fwd_layer(p0, ints64(ring.ntt_table@), q as int, l as nat);
    proof {
        lemma_layer_shape(N as nat, l as nat);
        super::transform::lemma_log2_bound(N as nat);
        vstd::bits::lemma_usize_shl_is_mul(1, l);
    }
    let m = 1usize << l;
    assert(t >> 1 == t / 2) by (bit_vector);
    let ht = t >> 1;
    let mut i = 0usize;
    let mut j1 = 0usize;
    proof {
        assert forall|k: int| 0 <= k < N implies #[trigger] p@[k] < q by {
            assert(p0[k] == p@[k]);
        }
        assert(p0.len() as int / (pow2(l as nat) as int) == t as int);
    }
    while i < m
        invariant
            p0.len() as int / (pow2(l as nat) as int) == t as int,
            ring.wf(),
            q == ring.q,
            m == pow2(l as nat),
            m * t == N,
            t % 2 == 0,
            ht == t / 2,
            m * 2 <= N,
            i <= m,
            j1 == i * t,
            p0.len() == N,
            p1 == fwd_layer(p0, ints64(ring.ntt_table@), q as int, l as nat),
            canonical(p0, q as int),
            forall|k: int| 0 <= k < N ==> #[trigger] p@[k] < q,
            forall|k: int|
                0 <= k < N ==> #[trigger] ints64(p@)[k] == (if k < j1 {
                    p1[k]
                } else {
                    p0[k]
                }),
        decreases m - i,
    {
        proof {
            lemma_mul_is_distributive_add_other_way(t as int, i as int, 1);
            lemma_mul_inequality(i as int + 1, m as int, t as int);
        }
        let w = ring.ntt_table[m + i];
        let ws = ring.ntt_table_shoup[m + i];
        let j2 = j1 + ht;
        let mut j = j1;
        while j < j2
            invariant
                p0.len() as int / (pow2(l as nat) as int) == t as int,
                ring.wf(),
                q == ring.q,
                m == pow2(l as nat),
                m * t == N,
                t % 2 == 0,
                ht == t / 2,
                i < m,
                m * 2 <= N,
                j1 == i * t,
                j1 + t <= N,
                j2 == j1 + ht,
                j1 <= j <= j2,
                w == ring.ntt_table[m + i],
                ws == ring.ntt_table_shoup[m + i],
                w < q,
                ws == shoup64(w as int, q as int),
                p0.len() == N,
                p1 == fwd_layer(p0, ints64(ring.ntt_table@), q as int, l as nat),
                canonical(p0, q as int),
                forall|k: int| 0 <= k < N ==> #[trigger] p@[k] < q,
                forall|k: int|
                    0 <= k < N ==> #[trigger] ints64(p@)[k] == (if k < j1 || (j1 <= k < j) || (
                    j1 + ht <= k < j + ht) {
                        p1[k]
                    } else {
                        p0[k]
                    }),
            decreases j2 - j,
        {
            let ghost pj = ints64(p@);
            assert(pj[j as int] == p0[j as int]);
            assert(pj[j + ht] == p0[j + ht]);
            let u = p[j];
            let v = shoup_mul(p[j + ht], w, ws, q);
            p[j] = add_mod(u, v, q);
            p[j + ht] = sub_mod(u, v, q);
            proof {
                let tb = ints64(ring.ntt_table@);
                lemma_block_index(j as int, i as int, t as int);
                lemma_block_index(j + ht, i as int, t as int);
                assert(tb[m + i] == w);
                lemma_add_mod_noop_right(u as int, (p0[j + ht] * w) as int, q as int);
                lemma_sub_mod_noop_right(u as int, (p0[j + ht] * w) as int, q as int);
                assert(p0[j + ht] * w == w * p0[j + ht]) by (nonlinear_arith);
                assert(p1[j as int] == (p0[j as int] + w * p0[j + ht]) % (q as int));
                assert(p1[j + ht] == (p0[j as int] - w * p0[j + ht]) % (q as int));
                assert forall|k: int| 0 <= k < N implies #[trigger] ints64(p@)[k] == (if k < j1
                    || (j1 <= k < j + 1) || (j1 + ht <= k < j + 1 + ht) {
                    p1[k]
                } else {
                    p0[k]
                }) by {
                    if k != j && k != j + ht {
                        assert(ints64(p@)[k] == pj[k]);
                    }
                }
            }
            j += 1;
        }
        proof {
            assert forall|k: int| 0 <= k < N implies #[trigger] ints64(p@)[k] == (if k < j1 + t {
                p1[k]
            } else {
                p0[k]
            }) by {
                if j1 <= k < j1 + t {
                    if k >= j1 + ht {
                        assert(j1 + ht <= k < j + ht);
                    }
                }
            }
        }
        i += 1;
        j1 += t;
    }
    proof {
        assert(ints64(p@) =~= p1);
    }
}

/// The forward butterfly layers from `start_l` on, with block size
/// `t = N >> start_l`.
fn ntt_stages_scalar<const N: usize>(ring: &Ring64<N>, p: &mut [u64; N], start_l: usize, t: usize)
    requires
        ring.wf(),
        is_power_of_two(N as nat),
        start_l <= log2(N as nat),
        t == N as int / (pow2(start_l as nat) as int),
        canonical(ints64(old(p)@), ring.q as int),
    ensures
        ints64(final(p)@) == fwd_layers_between(
            ints64(old(p)@),
            ints64(ring.ntt_table@),
            ring.q as int,
            start_l as nat,
            log2(N as nat),
        ),
        canonical(ints64(final(p)@), ring.q as int),
{
    let big_l = log2_usize(N);
    let mut t = t;
    for l in start_l..big_l
        invariant
            ring.wf(),
            is_power_of_two(N as nat),
            big_l == log2(N as nat),
            start_l <= l,
            t == N as int / (pow2(l as nat) as int),
            ints64(p@) == fwd_layers_between(
                ints64(old(p)@),
                ints64(ring.ntt_table@),
                ring.q as int,
                start_l as nat,
                l as nat,
            ),
            canonical(ints64(p@), ring.q as int),
    {
        ntt_layer_scalar(ring, p, l, t);
        proof {
            lemma_layer_shape(N as nat, l as nat);
            lemma_fwd_layer_canonical(
                fwd_layers_between(
                    ints64(old(p)@),
                    ints64(ring.ntt_table@),
                    ring.q as int,
                    start_l as nat,
                    l as nat,
                ),
                ints64(ring.ntt_table@),
                ring.q as int,
                l as nat,
            );
            assert(t >> 1 == t / 2) by (bit_vector);
            lemma_pow2_unfold((l + 1) as nat);
            lemma_pow2_pos(l as nat);
            vstd::arithmetic::div_mod::lemma_div_denominator(N as int, pow2(l as nat) as int, 2);
            assert(pow2(l as nat) * 2 == pow2((l + 1) as nat));
        }
        t = t >> 1;
    }
}

/// One inverse butterfly layer `l`, in place; `t` is half the block size.
fn inv_ntt_layer_scalar<const N: usize>(
    ring: &Ring64<N>,
    p: &mut [u64; N],
    hm: usize,
    t: usize,
    Ghost(l): Ghost<nat>,
)
    requires
        hm == pow2(l),
        ring.wf(),
        is_power_of_two(N as nat),
        l < log2(N as nat),
        t * 2 == N as int / (pow2(l as nat) as int),
        canonical(ints64(old(p)@), ring.q as int),
    ensures
        ints64(final(p)@) == inv_layer(
            ints64(old(p)@),
            ints64(ring.inv_ntt_table@),
            ring.q as int,
            l as nat,
        ),
{
    let q = ring.q;
    let ghost p0 = ints64(p@);
    let ghost p1 = inv_layer(p0, ints64(ring.inv_ntt_table@), q as int, l as nat);
    proof {
        lemma_layer_shape(N as nat, l as nat);
    }
    let dt = t * 2;
    let mut i = 0usize;
    let mut j1 = 0usize;
    proof {
        assert forall|k: int| 0 <= k < N implies #[trigger] p@[k] < q by {
            assert(p0[k] == p@[k]);
        }
        assert(p0.len() as int / (pow2(l as nat) as int) == dt as int);
    }
    while i < hm
        invariant
            p0.len() as int / (pow2(l as nat) as int) == dt as int,
            ring.wf(),
            q == ring.q,
            hm == pow2(l as nat),
            hm * dt == N,
            dt == 2 * t,
            hm * 2 <= N,
            i <= hm,
            j1 == i * dt,
            p0.len() == N,
            p1 == inv_layer(p0, ints64(ring.inv_ntt_table@), q as int, l as nat),
            canonical(p0, q as int),
            forall|k: int| 0 <= k < N ==> #[trigger] p@[k] < q,
            forall|k: int|
                0 <= k < N ==> #[trigger] ints64(p@)[k] == (if k < j1 {
                    p1[k]
                } else {
                    p0[k]
                }),
        decreases hm - i,
    {
        proof {
            lemma_mul_is_distributive_add_other_way(dt as int, i as int, 1);
            lemma_mul_inequality(i as int + 1, hm as int, dt as int);
        }
        let w = ring.inv_ntt_table[hm + i];
        let ws = ring.inv_ntt_table_shoup[hm + i];
        let j2 = j1 + t;
        let mut j = j1;
        while j < j2
            invariant
                p0.len() as int / (pow2(l as nat) as int) == dt as int,
                ring.wf(),
                q == ring.q,
                hm == pow2(l as nat),
                hm * dt == N,
                dt == 2 * t,
                i < hm,
                hm * 2 <= N,
                j1 == i * dt,
                j1 + dt <= N,
                j2 == j1 + t,
                j1 <= j <= j2,
                w == ring.inv_ntt_table[hm + i],
                ws == ring.inv_ntt_table_shoup[hm + i],
                w < q,
                ws == shoup64(w as int, q as int),
                p0.len() == N,
                p1 == inv_layer(p0, ints64(ring.inv_ntt_table@), q as int, l as nat),
                canonical(p0, q as int),
                forall|k: int| 0 <= k < N ==> #[trigger] p@[k] < q,
                forall|k: int|
                    0 <= k < N ==> #[trigger] ints64(p@)[k] == (if k < j1 || (j1 <= k < j) || (
                    j1 + t <= k < j + t) {
                        p1[k]
                    } else {
                        p0[k]
                    }),
            decreases j2 - j,
        {
            let ghost pj = ints64(p@);
            assert(pj[j as int] == p0[j as int]);
            assert(pj[j + t] == p0[j + t]);
            let u = p[j];
            let v = p[j + t];
            p[j] = add_mod(u, v, q);
            let d = sub_mod(u, v, q);
            proof {
                lemma_mod_bound(u - v, q as int);
            }
            p[j + t] = shoup_mul(d, w, ws, q);
            proof {
                let tb = ints64(ring.inv_ntt_table@);
                lemma_block_index(j as int, i as int, dt as int);
                lemma_block_index(j + t, i as int, dt as int);
                assert(tb[hm + i] == w);
                lemma_mul_mod_noop_left(u - v, w as int, q as int);
                assert(p1[j as int] == (p0[j as int] + p0[j + t]) % (q as int));
                assert(p1[j + t] == ((p0[j as int] - p0[j + t]) * w) % (q as int));
                assert forall|k: int| 0 <= k < N implies #[trigger] ints64(p@)[k] == (if k < j1
                    || (j1 <= k < j + 1) || (j1 + t <= k < j + 1 + t) {
                    p1[k]
                } else {
                    p0[k]
                }) by {
                    if k != j && k != j + t {
                        assert(ints64(p@)[k] == pj[k]);
                    }
                }
            }
            j += 1;
        }
        proof {
            assert forall|k: int| 0 <= k < N implies #[trigger] ints64(p@)[k] == (if k < j1 + dt {
                p1[k]
            } else {
                p0[k]
            }) by {
                if j1 <= k < j1 + dt {
                    if k >= j1 + t {
                        assert(j1 + t <= k < j + t);
                    }
                }
            }
        }
        i += 1;
        j1 += dt;
    }
    proof {
        assert(ints64(p@) =~= p1);
    }
}

/// Up to `iters` inverse butterfly iterations from half-block size `t` and
/// block count `m`, stopping early once a single block remains; returns the
/// updated `(t, m)` for resumption.
fn inv_ntt_stages_scalar<const N: usize>(
    ring: &Ring64<N>,
    p: &mut [u64; N],
    iters: usize,
    t: usize,
    m: usize,
) -> (tm: (usize, usize))
    requires
        ring.wf(),
        is_power_of_two(N as nat),
        is_power_of_two(t as nat),
        is_power_of_two(m as nat),
        t * m == N,
        canonical(ints64(old(p)@), ring.q as int),
    ensures
        tm.0 == pow2(stages_end(log2(t as nat), iters as nat, log2(N as nat))),
        tm.1 == N as int / (pow2(stages_end(log2(t as nat), iters as nat, log2(N as nat))) as int),
        ints64(final(p)@) == inv_layers_between(
            ints64(old(p)@),
            ints64(ring.inv_ntt_table@),
            ring.q as int,
            log2(N as nat),
            log2(t as nat),
            stages_end(log2(t as nat), iters as nat, log2(N as nat)),
        ),
        canonical(ints64(final(p)@), ring.q as int),
{
    let ghost big_l = log2(N as nat);
    let ghost k0 = log2(t as nat);
    proof {
        lemma_pow2_product(k0, log2(m as nat), big_l);
    }
    let mut t = t;
    let mut m = m;
    let mut k = 0usize;
    while k < iters && m > 1
        invariant
            ring.wf(),
            is_power_of_two(N as nat),
            big_l == log2(N as nat),
            k <= iters,
            k0 + k <= big_l,
            t == pow2((k0 + k) as nat),
            m == pow2((big_l - k0 - k) as nat),
            ints64(p@) == inv_layers_between(
                ints64(old(p)@),
                ints64(ring.inv_ntt_table@),
                ring.q as int,
                big_l,
                k0,
                (k0 + k) as nat,
            ),
            canonical(ints64(p@), ring.q as int),
        decreases iters - k,
    {
        let ghost kk: nat = (k0 + k) as nat;
        let ghost l = (big_l - kk - 1) as nat;
        proof {
            assert(kk < big_l) by {
                if kk == big_l {
                    lemma2_to64();
                    assert(m == 1);
                }
            }
            lemma_layer_shape(N as nat, l);
            lemma_pow2_unfold((big_l - kk) as nat);
            lemma_pow2_unfold((kk + 1) as nat);
            lemma_pow2_adds((kk + 1) as nat, l);
            lemma_pow2_pos(l);
            vstd::arithmetic::div_mod::lemma_div_multiples_vanish(pow2((kk + 1) as nat) as int, pow2(l) as int);
            assert(pow2((kk + 1) as nat) * pow2(l) == pow2(l) * pow2((kk + 1) as nat)) by (nonlinear_arith);
            assert(t * 2 == N as int / (pow2(l) as int));
            lemma_inv_layer_canonical(
                ints64(p@),
                ints64(ring.inv_ntt_table@),
                ring.q as int,
                l,
            );
        }
        assert(m >> 1 == m / 2) by (bit_vector);
        let hm = m >> 1;
        inv_ntt_layer_scalar(ring, p, hm, t, Ghost(l));
        t = t * 2;
        m = hm;
        k += 1;
    }
    proof {
        lemma_pow2_pos((big_l - k0 - k) as nat);
        if m <= 1 {
            assert(big_l - k0 - k == 0) by {
                if big_l - k0 - k > 0 {
                    lemma_pow2_unfold((big_l - k0 - k) as nat);
                    lemma_pow2_pos((big_l - k0 - k - 1) as nat);
                }
            }
        }
        let k1 = stages_end(k0, iters as nat, big_l);
        assert(k0 + k == k1);
        lemma_pow2_adds(k1, (big_l - k1) as nat);
        lemma_pow2_pos((big_l - k1) as nat);
        vstd::arithmetic::div_mod::lemma_div_multiples_vanish(m as int, t as int);
        assert(t * m == m * t) by (nonlinear_arith);
    }
    (t, m)
}

/// Multiplies every entry by `N^-1` (Shoup), completing the inverse transform.
fn inv_ntt_final_scale_scalar<const N: usize>(ring: &Ring64<N>, p: &mut [u64; N])
    requires
        ring.wf(),
    ensures
        ints64(final(p)@) == scale(ints64(old(p)@), ring.n_inv as int, ring.q as int),
        canonical(ints64(final(p)@), ring.q as int),
{
    let ghost p0 = ints64(p@);
    for k in 0..N
        invariant
            ring.wf(),
            p0 == ints64(old(p)@),
            forall|j: int|
                0 <= j < N ==> #[trigger] ints64(p@)[j] == (if j < k {
                    scale(p0, ring.n_inv as int, ring.q as int)[j]
                } else {
                    p0[j]
                }),
    {
        let ghost before = ints64(p@);
        let e = p[k];
        p[k] = shoup_mul(e, ring.n_inv, ring.n_inv_shoup, ring.q);
        proof {
            assert(e * ring.n_inv == ring.n_inv * e) by (nonlinear_arith);
            assert forall|j: int| 0 <= j < N implies #[trigger] ints64(p@)[j] == (if j < k + 1 {
                scale(p0, ring.n_inv as int, ring.q as int)[j]
            } else {
                p0[j]
            }) by {
                if j != k {
                    assert(ints64(p@)[j] == before[j]);
                } else {
                    assert(before[j] == p0[j]);
                    assert(e == p0[j]);
                    assert(ints64(p@)[j] == (e * ring.n_inv) % (ring.q as int));
                }
            }
        }
    }
    proof {
        assert(ints64(p@) =~= scale(p0, ring.n_inv as int, ring.q as int));
        assert forall|j: int| 0 <= j < N implies 0 <= #[trigger] ints64(p@)[j] < ring.q by {
            lemma_mod_bound(ring.n_inv * p0[j], ring.q as int);
        }
    }
}

fn ntt_scalar<const N: usize>(ring: &Ring64<N>, p: &mut [u64; N])
    requires
        ring.wf(),
        is_power_of_two(N as nat),
        canonical(ints64(old(p)@), ring.q as int),
    ensures
        ints64(final(p)@) == ring.forward_spec(ints64(old(p)@)),
        canonical(ints64(final(p)@), ring.q as int),
{
    proof {
        lemma2_to64();
        assert(N as int / (pow2(0) as int) == N);
        lemma_fwd_layers_from_zero(ints64(old(p)@), ints64(ring.ntt_table@), ring.q as int, log2(N as nat));
    }
    ntt_stages_scalar(ring, p, 0, N);
}

fn inv_ntt_scalar<const N: usize>(ring: &Ring64<N>, p: &mut [u64; N])
    requires
        ring.wf(),
        is_power_of_two(N as nat),
        canonical(ints64(old(p)@), ring.q as int),
    ensures
        ints64(final(p)@) == ring.inverse_spec(ints64(old(p)@)),
        canonical(ints64(final(p)@), ring.q as int),
{
    let big_l = log2_usize(N);
    proof {
        lemma2_to64();
        assert(log2(1) == 0);
        assert(is_power_of_two(1));
        lemma_inv_layers_from_zero(
            ints64(old(p)@),
            ints64(ring.inv_ntt_table@),
            ring.q as int,
            big_l as nat,
            big_l as nat,
        );
    }
    inv_ntt_stages_scalar(ring, p, big_l, 1, N);
    inv_ntt_final_scale_scalar(ring, p);
}

/// Forward NTT over canonical `[0, q)` values, in place.
pub fn ntt<const N: usize>(ring: &Ring64<N>, p: &mut [u64; N])
    requires
        ring.wf(),
        is_power_of_two(N as nat),
        canonical(ints64(old(p)@), ring.q as int),
    ensures
        ints64(final(p)@) == ring.forward_spec(ints64(old(p)@)),
        canonical(ints64(final(p)@), ring.q as int),
{
    ntt_scalar(ring, p);
}

/// Inverse NTT over canonical `[0, q)` values, in place (includes the final
/// `N^-1` scaling).
pub fn inv_ntt<const N: usize>(ring: &Ring64<N>, p: &mut [u64; N])
    requires
        ring.wf(),
        is_power_of_two(N as nat),
        canonical(ints64(old(p)@), ring.q as int),
    ensures
        ints64(final(p)@) == ring.inverse_spec(ints64(old(p)@)),
        canonical(ints64(final(p)@), ring.q as int),
{
    inv_ntt_scalar(ring, p);
}

#[inline]
pub fn add_assign<const N: usize>(ring: &Ring64<N>, lhs: &mut [u64; N], rhs: &[u64; N])
    requires
        ring.wf(),
        canonical(ints64(old(lhs)@), ring.q as int),
        canonical(ints64(rhs@), ring.q as int),
    ensures
        forall|i: int|
            0 <= i < N ==> #[trigger] final(lhs)@[i] == (old(lhs)@[i] + rhs@[i]) % (ring.q as int),
{
    for i in 0..N
        invariant
            ring.wf(),
            canonical(ints64(old(lhs)@), ring.q as int),
            canonical(ints64(rhs@), ring.q as int),
            forall|j: int|
                0 <= j < N ==> #[trigger] lhs@[j] == (if j < i {
                    (old(lhs)@[j] + rhs@[j]) % (ring.q as int)
                } else {
                    old(lhs)@[j] as int
                }),
    {
        assert(ints64(old(lhs)@)[i as int] == lhs@[i as int]);
        assert(ints64(rhs@)[i as int] == rhs@[i as int]);
        lhs[i] = add_mod(lhs[i], rhs[i], ring.q);
    }
}

#[inline]
pub fn sub_assign<const N: usize>(ring: &Ring64<N>, lhs: &mut [u64; N], rhs: &[u64; N])
    requires
        ring.wf(),
        canonical(ints64(old(lhs)@), ring.q as int),
        canonical(ints64(rhs@), ring.q as int),
    ensures
        forall|i: int|
            0 <= i < N ==> #[trigger] final(lhs)@[i] == (old(lhs)@[i] - rhs@[i]) % (ring.q as int),
{
    for i in 0..N
        invariant
            ring.wf(),
            canonical(ints64(old(lhs)@), ring.q as int),
            canonical(ints64(rhs@), ring.q as int),
            forall|j: int|
                0 <= j < N ==> #[trigger] lhs@[j] == (if j < i {
                    (old(lhs)@[j] - rhs@[j]) % (ring.q as int)
                } else {
                    old(lhs)@[j] as int
                }),
    {
        assert(ints64(old(lhs)@)[i as int] == lhs@[i as int]);
        assert(ints64(rhs@)[i as int] == rhs@[i as int]);
        lhs[i] = sub_mod(lhs[i], rhs[i], ring.q);
    }
}

#[inline]
pub fn pointwise_mul<const N: usize>(ring: &Ring64<N>, lhs: &[u64; N], rhs: &[u64; N]) -> (out:
    [u64; N])
    requires
        ring.wf(),
        canonical(ints64(lhs@), ring.q as int),
        canonical(ints64(rhs@), ring.q as int),
    ensures
        ints64(out@) == pointwise_spec(ints64(lhs@), ints64(rhs@), ring.q as int),
{
    let mut out = [0u64; N];
    for i in 0..N
        invariant
            ring.wf(),
            canonical(ints64(lhs@), ring.q as int),
            canonical(ints64(rhs@), ring.q as int),
            forall|j: int|
                0 <= j < i ==> #[trigger] out@[j] == (lhs@[j] * rhs@[j]) % (ring.q as int),
    {
        assert(ints64(lhs@)[i as int] == lhs@[i as int]);
        assert(ints64(rhs@)[i as int] == rhs@[i as int]);
        out[i] = mul_mod(lhs[i], rhs[i], ring);
    }
    proof {
        assert(ints64(out@) =~= pointwise_spec(ints64(lhs@), ints64(rhs@), ring.q as int));
    }
    out
}

/// Adding Montgomery-domain values adds the values they stand for:
/// if `x·R ≡ X` and `y·R ≡ Y` then `((x + y) mod q)·R ≡ X + Y (mod q)`.
proof fn lemma_mont_add(x: int, y: int, xx: int, yy: int, q: int)
    requires
        q > 0,
        (x * 0x1_0000_0000_0000_0000) % q == xx % q,
        (y * 0x1_0000_0000_0000_0000) % q == yy % q,
    ensures
        (((x + y) % q) * 0x1_0000_0000_0000_0000) % q == (xx + yy) % q,
{
    let r: int = 0x1_0000_0000_0000_0000;
    lemma_mul_mod_noop_left(x + y, r, q);
    assert((x + y) * r == x * r + y * r) by (nonlinear_arith);
    lemma_add_mod_noop(x * r, y * r, q);
    lemma_add_mod_noop(xx, yy, q);
}

/// `Σ_{k < m} a[k][i]·b[k][i]`.
pub open spec fn mac_sum<const N: usize>(a: Seq<&[u64; N]>, b: Seq<&[u64; N]>, i: int, m: nat) -> int
    decreases m,
{
    if m == 0 {
        0
    } else {
        mac_sum(a, b, i, (m - 1) as nat) + a[m - 1][i] * b[m - 1][i]
    }
}

/// Every operand is canonical for `q`.
pub open spec fn operands_canonical<const N: usize>(a: Seq<&[u64; N]>, q: int) -> bool {
    forall|k: int| 0 <= k < a.len() ==> canonical(ints64((#[trigger] a[k])@), q)
}

fn pointwise_mac_scalar<const N: usize>(
    ring: &Ring64<N>,
    acc: &mut [u64; N],
    a: &[&[u64; N]],
    b: &[&[u64; N]],
)
    requires
        ring.wf(),
        a@.len() == b@.len(),
        canonical(ints64(old(acc)@), ring.q as int),
        operands_canonical(a@, ring.q as int),
        operands_canonical(b@, ring.q as int),
    ensures
        forall|i: int|
            0 <= i < N ==> #[trigger] final(acc)@[i] == (old(acc)@[i] + mac_sum(a@, b@, i, a@.len()))
                % (ring.q as int),
{
    let q = ring.q;
    let mut mont_acc = [0u64; N];
    proof {
        lemma_small_mod(0, q as nat);
    }
    for k in 0..a.len()
        invariant
            ring.wf(),
            q == ring.q,
            a@.len() == b@.len(),
            operands_canonical(a@, q as int),
            operands_canonical(b@, q as int),
            forall|i: int|
                0 <= i < N ==> #[trigger] mont_acc@[i] < q && (mont_acc@[i]
                    * 0x1_0000_0000_0000_0000) % (q as int) == mac_sum(a@, b@, i, k as nat) % (
                q as int),
    {
        let av = a[k];
        let bv = b[k];
        for i in 0..N
            invariant
                ring.wf(),
                q == ring.q,
                k < a@.len(),
                a@.len() == b@.len(),
                av == a@[k as int],
                bv == b@[k as int],
                operands_canonical(a@, q as int),
                operands_canonical(b@, q as int),
                forall|j: int|
                    0 <= j < N ==> #[trigger] mont_acc@[j] < q && (mont_acc@[j]
                        * 0x1_0000_0000_0000_0000) % (q as int) == mac_sum(
                        a@,
                        b@,
                        j,
                        (if j < i {
                            k + 1
                        } else {
                            k as int
                        }) as nat,
                    ) % (q as int),
        {
            let x = av[i];
            let y = bv[i];
            proof {
                assert(ints64(a@[k as int]@)[i as int] == x);
                assert(ints64(b@[k as int]@)[i as int] == y);
                assert(x * y < q * 0x1_0000_0000_0000_0000) by (nonlinear_arith)
                    requires
                        x < q,
                        y < q,
                        q < 0x1_0000_0000_0000_0000,
                ;
            }
            let mm = mont_mul(x, y, ring);
            let ghost old_acc = mont_acc@[i as int];
            mont_acc[i] = add_mod(mont_acc[i], mm, q);
            proof {
                lemma_mont_add(
                    old_acc as int,
                    mm as int,
                    mac_sum(a@, b@, i as int, k as nat),
                    x * y,
                    q as int,
                );
                lemma_mod_bound(old_acc + mm, q as int);
            }
        }
    }
    for i in 0..N
        invariant
            ring.wf(),
            q == ring.q,
            canonical(ints64(old(acc)@), ring.q as int),
            forall|j: int|
                0 <= j < N ==> #[trigger] mont_acc@[j] < q && (mont_acc@[j]
                    * 0x1_0000_0000_0000_0000) % (q as int) == mac_sum(a@, b@, j, a@.len()) % (
                q as int),
            forall|j: int|
                0 <= j < N ==> #[trigger] acc@[j] == (if j < i {
                    (old(acc)@[j] + mac_sum(a@, b@, j, a@.len())) % (q as int)
                } else {
                    old(acc)@[j] as int
                }),
    {
        let m = mont_acc[i];
        proof {
            assert(m * ring.r2 < q * 0x1_0000_0000_0000_0000) by (nonlinear_arith)
                requires
                    m < q,
                    ring.r2 < q,
                    q < 0x1_0000_0000_0000_0000,
            ;
            assert(ints64(old(acc)@)[i as int] == acc@[i as int]);
        }
        let v = mont_mul(m, ring.r2, ring);
        proof {
            let s = mac_sum(a@, b@, i as int, a@.len());
            lemma_mont_twice(s, m as int, ring.r2 as int, v as int, q as int);
            lemma_small_mod(v as nat, q as nat);
            lemma_add_mod_noop_right(acc@[i as int] as int, s, q as int);
        }
        acc[i] = add_mod(acc[i], v, q);
    }
}

/// `acc[i] += Σ_k a[k][i]·b[k][i] (mod q)` for canonical inputs.
pub fn pointwise_mac<const N: usize>(
    ring: &Ring64<N>,
    acc: &mut [u64; N],
    a: &[&[u64; N]],
    b: &[&[u64; N]],
)
    requires
        ring.wf(),
        a@.len() == b@.len(),
        canonical(ints64(old(acc)@), ring.q as int),
        operands_canonical(a@, ring.q as int),
        operands_canonical(b@, ring.q as int),
    ensures
        forall|i: int|
            0 <= i < N ==> #[trigger] final(acc)@[i] == (old(acc)@[i] + mac_sum(a@, b@, i, a@.len()))
                % (ring.q as int),
{
    pointwise_mac_scalar(ring, acc, a, b);
}

/// The transform-domain validity of the tables: `N` a power of two, each
/// inverse twiddle the inverse of its forward twiddle, and `N^-1` correct.
impl<const N: usize> Ring64<N> {
    pub open spec fn inverse_valid(&self) -> bool {
        &&& is_power_of_two(N as nat)
        &&& tables_inverse(
            ints64(self.ntt_table@),
            ints64(self.inv_ntt_table@),
            self.q as int,
            N as nat,
        )
        &&& (self.n_inv * N) % (self.q as int) == 1
    }

    /// The forward twiddles are successive square roots of `−1` in
    /// bit-reversed order, so the transform evaluates at the roots of `x^N + 1`.
    pub open spec fn roots_valid(&self) -> bool {
        negacyclic_roots(ints64(self.ntt_table@), self.q as int, N as nat)
    }
}

/// `inv_ntt` undoes `ntt` on canonical input.
pub proof fn lemma_ntt_roundtrip<const N: usize>(ring: &Ring64<N>, p: Seq<int>)
    requires
        ring.wf(),
        ring.inverse_valid(),
        p.len() == N,
        canonical(p, ring.q as int),
    ensures
        ring.inverse_spec(ring.forward_spec(p)) == p,
{
    lemma_roundtrip(
        p,
        ints64(ring.ntt_table@),
        ints64(ring.inv_ntt_table@),
        ring.n_inv as int,
        ring.q as int,
    );
}

/// `inv_ntt(pointwise_mul(ntt(a), ntt(b)))` is the negacyclic product of `a`
/// and `b` in `Z_q[x]/(x^N + 1)`.
pub proof fn lemma_ntt_convolution<const N: usize>(ring: &Ring64<N>, a: Seq<int>, b: Seq<int>)
    requires
        ring.wf(),
        ring.inverse_valid(),
        ring.roots_valid(),
        a.len() == N,
        b.len() == N,
        canonical(a, ring.q as int),
        canonical(b, ring.q as int),
    ensures
        ring.inverse_spec(
            pointwise_spec(ring.forward_spec(a), ring.forward_spec(b), ring.q as int),
        ) == negacyclic_mul(a, b, ring.q as int),
{
    lemma_convolution(
        a,
        b,
        ints64(ring.ntt_table@),
        ints64(ring.inv_ntt_table@),
        ring.n_inv as int,
        ring.q as int,
    );
}

} // verus!
