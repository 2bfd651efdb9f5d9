//! 32-bit negacyclic NTT core for single-modulus and RNS arithmetic.
use super::evaluation::negacyclic_mul;
use super::modular::{
    lemma_cancel_pow2, lemma_mont_exact, lemma_shoup_window, lemma_wrapping_sub_is_mod,
};
use super::transform::{
    canonical, fwd_layer, fwd_layers, intt_spec, inv_layer, inv_layers, ints32, is_power_of_two,
    lemma_fwd_layer_canonical, lemma_inv_layer_canonical, scale, pointwise_spec, tables_inverse,
    negacyclic_roots, lemma_roundtrip, lemma_convolution, fwd_layers_between,
    inv_layers_between, lemma_fwd_layers_from_zero, lemma_inv_layers_from_zero, stages_end,
    lemma_pow2_product,
    lemma_block_index, lemma_layer_shape, log2, log2_usize, ntt_spec,
};
use vstd::arithmetic::power2::*;
use vstd::arithmetic::div_mod::*;
use vstd::arithmetic::mul::*;
use vstd::prelude::*;

verus! {

pub struct Ring32<const N: usize> {
    pub q: u32,
    pub q_inv_neg: u32,
    pub r2: u32,
    pub ntt_table: [u32; N],
    pub ntt_table_shoup: [u32; N],
    pub inv_ntt_table: [u32; N],
    pub inv_ntt_table_shoup: [u32; N],
    pub n_inv: u32,
    pub n_inv_shoup: u32,
}

/// `floor(w·2^32/q)`, the Shoup companion of a twiddle `w`.
pub open spec fn shoup32(w: int, q: int) -> int {
    (w * 0x1_0000_0000) / q
}

impl<const N: usize> Ring32<N> {
    /// The arithmetic invariants every operation relies on: an odd modulus
    /// with `2q < 2^31`, the Montgomery constants, canonical twiddles with
    /// correct Shoup companions, and a canonical `N^-1`.
    pub open spec fn wf(&self) -> bool {
        &&& self.q % 2 == 1
        &&& 1 < self.q
        &&& 2 * self.q < 0x8000_0000
        &&& (self.q * self.q_inv_neg + 1) % 0x1_0000_0000 == 0
        &&& self.r2 == 0x1_0000_0000_0000_0000int % (self.q as int)
        &&& forall|k: int|
            0 <= k < N ==> #[trigger] self.ntt_table[k] < self.q && self.ntt_table_shoup[k]
                == shoup32(self.ntt_table[k] as int, self.q as int)
        &&& forall|k: int|
            0 <= k < N ==> #[trigger] self.inv_ntt_table[k] < self.q
                && self.inv_ntt_table_shoup[k] == shoup32(
                self.inv_ntt_table[k] as int,
                self.q as int,
            )
        &&& self.n_inv < self.q
        &&& self.n_inv_shoup == shoup32(self.n_inv as int, self.q as int)
    }
}

impl<const N: usize> Ring32<N> {
    /// The forward transform this ring computes, over integer coefficients.
    pub open spec fn forward_spec(&self, p: Seq<int>) -> Seq<int> {
        ntt_spec(p, ints32(self.ntt_table@), self.q as int)
    }

    /// The inverse transform this ring computes, over integer coefficients.
    pub open spec fn inverse_spec(&self, p: Seq<int>) -> Seq<int> {
        intt_spec(p, ints32(self.inv_ntt_table@), self.n_inv as int, self.q as int)
    }
}

pub type Residues<const N: usize, const LIMBS: usize> = [[u32; N]; LIMBS];

pub struct Rns<const N: usize, const LIMBS: usize> {
    pub ch: [Ring32<N>; LIMBS],
    pub sample_threshold: [u32; LIMBS],
    pub prefix_products: [u128; LIMBS],
    pub prefix_inverses: [u32; LIMBS],
    pub product: u128,
}

/// The full 64-bit product of two 32-bit words.
#[inline(always)]
fn wide_mul(x: u32, y: u32) -> (r: u64)
    ensures
        r == x * y,
{
    proof {
        lemma_mul_upper_bound(x as int, 0xffff_ffff, y as int, 0xffff_ffff);
    }
    x as u64 * y as u64
}

/// `x - q` if that is non-negative, else `x`.
fn csub(x: u32, q: u32) -> (r: u32)
    requires
        0 < q < 0x4000_0000,
        x < 2 * q,
    ensures
        r == (if x >= q { x - q } else { x as int }),
{
    let d = x.wrapping_sub(q);
    let r = d.wrapping_add(q & (((d as i32) >> 31) as u32));
    assert(r == (if x >= q { x - q } else { x as int })) by (bit_vector)
        requires
            0 < q < 0x4000_0000,
            x < 2 * q,
            d == (if x - q < 0 { (x - q + 0x1_0000_0000) as u32 } else { (x - q) as u32 }),
            r == (if d + (q & (((d as i32) >> 31) as u32)) > 0xffff_ffff {
                (d + (q & (((d as i32) >> 31) as u32)) - 0x1_0000_0000) as u32
            } else {
                (d + (q & (((d as i32) >> 31) as u32))) as u32
            }),
    ;
    r
}

#[inline(always)]
pub fn add_mod(a: u32, b: u32, q: u32) -> (r: u32)
    requires
        2 * q < 0x8000_0000,
        a < q,
        b < q,
    ensures
        r == (a + b) % (q as int),
{
    let r = csub(a + b, q);
    proof {
        if a + b >= q {
            lemma_small_mod((a + b - q) as nat, q as nat);
            lemma_mod_add_multiples_vanish(a + b - q, q as int);
        } else {
            lemma_small_mod((a + b) as nat, q as nat);
        }
    }
    r
}

#[inline(always)]
pub fn sub_mod(a: u32, b: u32, q: u32) -> (r: u32)
    requires
        2 * q < 0x8000_0000,
        a < q,
        b < q,
    ensures
        r == (a - b) % (q as int),
{
    let d = a.wrapping_sub(b);
    let r = d.wrapping_add(q & (((d as i32) >> 31) as u32));
    assert(r == (if a >= b { a - b } else { a - b + q })) by (bit_vector)
        requires
            2 * q < 0x8000_0000,
            a < q,
            b < q,
            d == (if a - b < 0 { (a - b + 0x1_0000_0000) as u32 } else { (a - b) as u32 }),
            r == (if d + (q & (((d as i32) >> 31) as u32)) > 0xffff_ffff {
                (d + (q & (((d as i32) >> 31) as u32)) - 0x1_0000_0000) as u32
            } else {
                (d + (q & (((d as i32) >> 31) as u32))) as u32
            }),
    ;
    proof {
        if a >= b {
            lemma_small_mod((a - b) as nat, q as nat);
        } else {
            lemma_small_mod((a - b + q) as nat, q as nat);
            lemma_mod_add_multiples_vanish(a - b, q as int);
        }
    }
    r
}

#[inline(always)]
fn shoup_mul(a: u32, w: u32, w_shoup: u32, q: u32) -> (r: u32)
    requires
        1 < q,
        2 * q < 0x8000_0000,
        w < q,
        w_shoup == shoup32(w as int, q as int),
    ensures
        r == (a * w) % (q as int),
{
    let p: u64 = wide_mul(a, w_shoup);
    let qq = (p >> 32) as u32;
    let x = a.wrapping_mul(w).wrapping_sub(qq.wrapping_mul(q));
    proof {
        let rr: int = 0x1_0000_0000;
        assert(p >> 32 == p / 0x1_0000_0000 && p >> 32 < 0x1_0000_0000) by (bit_vector);
        assert(qq == (p as int) / rr);
        lemma_shoup_window(a as int, w as int, w_shoup as int, qq as int, q as int, rr);
        let t = a * w - qq * q;
        let aa = (a * w) % rr;
        let bb = (qq * q) % rr;
        lemma_mod_bound(a * w, rr);
        lemma_mod_bound(qq * q, rr);
        lemma_wrapping_sub_is_mod(aa, bb, rr, x as int);
        lemma_sub_mod_noop(a * w, qq * q, rr);
        lemma_small_mod(t as nat, rr as nat);
        assert(x == t);
        lemma_mod_multiples_vanish(-(qq as int), t, q as int);
        assert(t + (-(qq as int)) * q == a * w - 2 * (qq * q)) by (nonlinear_arith)
            requires
                t == a * w - qq * q,
        ;
    }
    let r = csub(x, q);
    proof {
        let t = x as int;
        assert(t % (q as int) == (a * w) % (q as int)) by {
            lemma_mod_multiples_vanish(qq as int, t, q as int);
            assert(qq * q + t == a * w) by (nonlinear_arith)
                requires
                    t == a * w - qq * q,
            ;
            assert(qq * (q as int) == qq * q);
        }
        if t >= q {
            lemma_mod_sub_multiples_vanish(t, q as int);
            lemma_small_mod((t - q) as nat, q as nat);
        } else {
            lemma_small_mod(t as nat, q as nat);
        }
    }
    r
}

/// The lazy forward butterfly of the `[0, 2q)` schedule, for `4q < 2^31`:
/// from `u, v < 2q` it gives `u + w·v` and `u − w·v` modulo `q`, each kept
/// below `2q` instead of being reduced into `[0, q)`.
pub fn lazy_butterfly(u: u32, v: u32, w: u32, w_shoup: u32, q: u32) -> (r: (u32, u32))
    requires
        1 < q,
        4 * q < 0x8000_0000,
        u < 2 * q,
        v < 2 * q,
        w < q,
        w_shoup == shoup32(w as int, q as int),
    ensures
        r.0 < 2 * q,
        r.1 < 2 * q,
        (r.0 as int) % (q as int) == (u + w * v) % (q as int),
        (r.1 as int) % (q as int) == (u - w * v) % (q as int),
{
    let ghost qq = q as int;
    let t = shoup_mul(v, w, w_shoup, q);
    proof {
        lemma_mod_bound(v * w, qq);
        assert(v * w == w * v) by (nonlinear_arith);
        lemma_add_mod_noop(u as int, v * w, qq);
        lemma_add_mod_noop(u as int, t as int, qq);
        lemma_mod_twice(v * w, qq);
        lemma_sub_mod_noop(u as int, v * w, qq);
        lemma_sub_mod_noop(u as int, t as int, qq);
        lemma_mod_add_multiples_vanish(u - t, qq);
        lemma_mod_add_multiples_vanish(u - t + qq, qq);
    }
    let two_q = 2 * q;
    let mut x = u + t;
    if x >= two_q {
        proof {
            lemma_mod_sub_multiples_vanish(x as int, qq);
            lemma_mod_sub_multiples_vanish(x - qq, qq);
        }
        x = x - two_q;
    }
    let mut y = u + two_q - t;
    if y >= two_q {
        proof {
            lemma_mod_sub_multiples_vanish(y as int, qq);
            lemma_mod_sub_multiples_vanish(y - qq, qq);
        }
        y = y - two_q;
    }
    (x, y)
}

/// The signed form of a twiddle for signed Barrett multiplication:
/// `centered` is `w` moved into `[−⌊q/2⌋, ⌊q/2⌋]`, and `scaled`, derived from
/// the Shoup companion, is `centered·2^31/q` rounded to the nearest integer.
pub fn centered_twiddle(w: u32, w_shoup: u32, q: u32) -> (r: (i32, i32))
    requires
        1 < q,
        2 * q < 0x8000_0000,
        w < q,
        w_shoup == shoup32(w as int, q as int),
    ensures
        (r.0 as int) % (q as int) == w as int,
        -(q / 2) <= r.0 <= q / 2,
        -(q as int) < 2 * (r.1 * q - r.0 * 0x8000_0000) <= q,
{
    let ghost qq = q as int;
    let ghost ws = w_shoup as int;
    proof {
        lemma_fundamental_div_mod(w * 0x1_0000_0000, qq);
        lemma_mod_bound(w * 0x1_0000_0000, qq);
        assert(ws * qq <= w * 0x1_0000_0000 < ws * qq + qq) by (nonlinear_arith)
            requires
                w * 0x1_0000_0000 == qq * ws + (w * 0x1_0000_0000) % qq,
                0 <= (w * 0x1_0000_0000) % qq < qq,
        ;
        assert(ws < 0x1_0000_0000);
    }
    let x = w_shoup as u64 + 1;
    let s = x >> 1;
    assert(s == x / 2) by (bit_vector)
        requires
            s == x >> 1,
    ;
    let ghost s0 = s as int;
    proof {
        assert(-qq < 2 * (s0 * qq - w * 0x8000_0000) <= qq) by (nonlinear_arith)
            requires
                ws * qq <= w * 0x1_0000_0000 < ws * qq + qq,
                2 * s0 == ws || 2 * s0 == ws + 1,
                qq > 0,
        ;
    }
    let mut centered = w as i64;
    let mut scaled = s as i64;
    if w > q / 2 {
        assert(1i64 << 31 == 0x8000_0000) by (bit_vector);
        proof {
            assert(s0 <= 0x8000_0000 && s0 >= 0x4000_0000 - 1) by (nonlinear_arith)
                requires
                    -qq < 2 * (s0 * qq - w * 0x8000_0000) <= qq,
                    w < qq,
                    2 * w > qq,
                    qq > 1,
            ;
        }
        centered -= q as i64;
        scaled -= 1i64 << 31;
        proof {
            lemma_mod_multiples_vanish(1, centered as int, qq);
            lemma_small_mod(w as nat, q as nat);
            assert(scaled * qq - centered * 0x8000_0000 == s0 * qq - w * 0x8000_0000)
                by (nonlinear_arith)
                requires
                    scaled == s0 - 0x8000_0000,
                    centered == w - qq,
            ;
        }
    } else {
        proof {
            lemma_small_mod(w as nat, q as nat);
            assert(s0 <= 0x4000_0000) by (nonlinear_arith)
                requires
                    -qq < 2 * (s0 * qq - w * 0x8000_0000) <= qq,
                    2 * w <= qq,
                    qq > 1,
            ;
        }
    }
    (centered as i32, scaled as i32)
}

/// Montgomery reduction: `x < q·2^32` → `x·2^-32 mod q`, canonical.
#[inline(always)]
pub fn mont_reduce<const N: usize>(x: u64, ring: &Ring32<N>) -> (r: u32)
    requires
        ring.wf(),
        x < ring.q * 0x1_0000_0000,
    ensures
        r < ring.q,
        (r * 0x1_0000_0000) % (ring.q as int) == (x as int) % (ring.q as int),
{
    let q = ring.q;
    let x_lo = x as u32;
    let m = x_lo.wrapping_mul(ring.q_inv_neg);
    let mq = wide_mul(m, q);
    proof {
        let rr: int = 0x1_0000_0000;
        assert(x_lo == x % 0x1_0000_0000) by (bit_vector)
            requires
                x_lo == x as u32,
        ;
        assert(m == (x_lo * ring.q_inv_neg) % rr);
        lemma_mont_exact(x as int, m as int, q as int, ring.q_inv_neg as int, rr);
        lemma_mul_strict_inequality(m as int, rr, q as int);
        assert(m * q < q * rr) by (nonlinear_arith)
            requires
                m < rr,
                q > 0,
        ;
    }
    let s = x + mq;
    let t = (s >> 32) as u32;
    proof {
        let rr: int = 0x1_0000_0000;
        assert(s >> 32 == s / 0x1_0000_0000 && s >> 32 < 0x1_0000_0000) by (bit_vector);
        lemma_fundamental_div_mod(s as int, rr);
        assert(t * rr == s);
        assert(t < 2 * q) by (nonlinear_arith)
            requires
                t * rr == s,
                s < 2 * q * rr,
                rr > 0,
        ;
        lemma_mod_multiples_vanish(m as int, x as int, q as int);
        assert(q * m == m * q) by (nonlinear_arith);
        assert(q * m + x == s);
        assert((t * rr) % (q as int) == (x as int) % (q as int));
    }
    let r = csub(t, q);
    proof {
        let rr: int = 0x1_0000_0000;
        if t >= q {
            lemma_mul_is_distributive_sub_other_way(rr, t as int, q as int);
            assert((t - q) * rr == t * rr - q * rr);
            lemma_mod_multiples_vanish(-rr, t * rr, q as int);
            assert(q * (-rr) + t * rr == (t - q) * rr) by (nonlinear_arith);
            assert(r * rr == (t - q) * rr);
        }
        assert((r * rr) % (q as int) == (t * rr) % (q as int));
    }
    r
}

/// `a·b·2^-32 mod q` (Montgomery-domain product).
#[inline(always)]
pub fn mont_mul<const N: usize>(a: u32, b: u32, ring: &Ring32<N>) -> (r: u32)
    requires
        ring.wf(),
        a * b < ring.q * 0x1_0000_0000,
    ensures
        r < ring.q,
        (r * 0x1_0000_0000) % (ring.q as int) == (a * b) % (ring.q as int),
{
    mont_reduce(wide_mul(a, b), ring)
}

/// Canonical modular product `a·b mod q` for canonical inputs.
#[inline(always)]
pub fn mul_mod<const N: usize>(a: u32, b: u32, ring: &Ring32<N>) -> (r: u32)
    requires
        ring.wf(),
        a < ring.q,
        b < ring.q,
    ensures
        r == (a * b) % (ring.q as int),
{
    proof {
        assert(a * b < ring.q * 0x1_0000_0000) by (nonlinear_arith)
            requires
                a < ring.q,
                b < ring.q,
                ring.q < 0x1_0000_0000,
        ;
    }
    let ab = mont_mul(a, b, ring);
    proof {
        assert(ab * ring.r2 < ring.q * 0x1_0000_0000) by (nonlinear_arith)
            requires
                ab < ring.q,
                ring.r2 < ring.q,
                ring.q < 0x1_0000_0000,
        ;
    }
    let r = mont_mul(ab, ring.r2, ring);
    proof {
        lemma_mont_twice(a * b, ab as int, ring.r2 as int, r as int, ring.q as int);
        lemma_small_mod(r as nat, ring.q as nat);
    }
    r
}

/// Two Montgomery reductions, the second after multiplying by `R^2 mod q`,
/// undo the `R^-1` factor: `(s·R^-1)·R^2·R^-1 ≡ s (mod q)`.
proof fn lemma_mont_twice(s: int, ab: int, r2: int, r: int, q: int)
    requires
        q > 1,
        q % 2 == 1,
        (ab * 0x1_0000_0000) % q == s % q,
        r2 == 0x1_0000_0000_0000_0000int % q,
        (r * 0x1_0000_0000) % q == (ab * r2) % q,
    ensures
        r % q == s % q,
{
    let rr: int = 0x1_0000_0000;
    lemma2_to64();
    lemma2_to64_rest();
    lemma_mul_mod_noop_right(ab, 0x1_0000_0000_0000_0000int, q);
    assert(0x1_0000_0000_0000_0000int == rr * rr);
    assert(ab * (rr * rr) == (ab * rr) * rr) by (nonlinear_arith);
    lemma_mul_mod_noop_left(ab * rr, rr, q);
    lemma_mul_mod_noop_left(s, rr, q);
    assert((r * rr) % q == (s * rr) % q);
    assert(pow2(32) == rr);
    lemma_cancel_pow2(r, s, q, 32);
}

/// One forward butterfly layer `l`, in place; `t` is the block size.
fn ntt_layer_scalar<const N: usize>(ring: &Ring32<N>, p: &mut [u32; N], l: usize, t: usize)
    requires
        ring.wf(),
        is_power_of_two(N as nat),
        l < log2(N as nat),
        t == N as int / (pow2(l as nat) as int),
        canonical(ints32(old(p)@), ring.q as int),
    ensures
        ints32(final(p)@) == fwd_layer(
            ints32(old(p)@),
            ints32(ring.ntt_table@),
            ring.q as int,
            l as nat,
        ),
{
    let q = ring.q;
    let ghost p0 = ints32(p@);
    let ghost p1 = fwd_layer(p0, ints32(ring.ntt_table@), q as int, l as nat);
    proof {
        lemma_layer_shape(N as nat, l as nat);
        super::transform::lemma_log2_bound(N as nat);
        vstd::bits::lemma_usize_shl_is_mul(1, l);
    }
    let m = 1usize << l;
    assert(t >> 1 == t / 2) by (bit_vector);
    let ht = t >> 1;
    let mut i = 0usize;
    let mut j1 = 0usize;
    proof {
        assert forall|k: int| 0 <= k < N implies #[trigger] p@[k] < q by {
            assert(p0[k] == p@[k]);
        }
        assert(p0.len() as int / (pow2(l as nat) as int) == t as int);
    }
    while i < m
        invariant
            p0.len() as int / (pow2(l as nat) as int) == t as int,
            ring.wf(),
            q == ring.q,
            m == pow2(l as nat),
            m * t == N,
            t % 2 == 0,
            ht == t / 2,
            m * 2 <= N,
            i <= m,
            j1 == i * t,
            p0.len() == N,
            p1 == fwd_layer(p0, ints32(ring.ntt_table@), q as int, l as nat),
            canonical(p0, q as int),
            forall|k: int| 0 <= k < N ==> #[trigger] p@[k] < q,
            forall|k: int|
                0 <= k < N ==> #[trigger] ints32(p@)[k] == (if k < j1 {
                    p1[k]
                } else {
                    p0[k]
                }),
        decreases m - i,
    {
        proof {
            lemma_mul_is_distributive_add_other_way(t as int, i as int, 1);
            lemma_mul_inequality(i as int + 1, m as int, t as int);
        }
        let w = ring.ntt_table[m + i];
        let ws = ring.ntt_table_shoup[m + i];
        let j2 = j1 + ht;
        let mut j = j1;
        while j < j2
            invariant
                p0.len() as int / (pow2(l as nat) as int) == t as int,
                ring.wf(),
                q == ring.q,
                m == pow2(l as nat),
                m * t == N,
                t % 2 == 0,
                ht == t / 2,
                i < m,
                m * 2 <= N,
                j1 == i * t,
                j1 + t <= N,
                j2 == j1 + ht,
                j1 <= j <= j2,
                w == ring.ntt_table[m + i],
                ws == ring.ntt_table_shoup[m + i],
                w < q,
                ws == shoup32(w as int, q as int),
                p0.len() == N,
                p1 == fwd_layer(p0, ints32(ring.ntt_table@), q as int, l as nat),
                canonical(p0, q as int),
                forall|k: int| 0 <= k < N ==> #[trigger] p@[k] < q,
                forall|k: int|
                    0 <= k < N ==> #[trigger] ints32(p@)[k] == (if k < j1 || (j1 <= k < j) || (
                    j1 + ht <= k < j + ht) {
                        p1[k]
                    } else {
                        p0[k]
                    }),
            decreases j2 - j,
        {
            let ghost pj = ints32(p@);
            assert(pj[j as int] == p0[j as int]);
            assert(pj[j + ht] == p0[j + ht]);
            let u = p[j];
            let v = shoup_mul(p[j + ht], w, ws, q);
            p[j] = add_mod(u, v, q);
            p[j + ht] = sub_mod(u, v, q);
            proof {
                let tb = ints32(ring.ntt_table@);
                lemma_block_index(j as int, i as int, t as int);
                lemma_block_index(j + ht, i as int, t as int);
                assert(tb[m + i] == w);
                lemma_add_mod_noop_right(u as int, (p0[j + ht] * w) as int, q as int);
                lemma_sub_mod_noop_right(u as int, (p0[j + ht] * w) as int, q as int);
                assert(p0[j + ht] * w == w * p0[j + ht]) by (nonlinear_arith);
                assert(p1[j as int] == (p0[j as int] + w * p0[j + ht]) % (q as int));
                assert(p1[j + ht] == (p0[j as int] - w * p0[j + ht]) % (q as int));
                assert forall|k: int| 0 <= k < N implies #[trigger] ints32(p@)[k] == (if k < j1
                    || (j1 <= k < j + 1) || (j1 + ht <= k < j + 1 + ht) {
                    p1[k]
                } else {
                    p0[k]
                }) by {
                    if k != j && k != j + ht {
                        assert(ints32(p@)[k] == pj[k]);
                    }
                }
            }
            j += 1;
        }
        proof {
            assert forall|k: int| 0 <= k < N implies #[trigger] ints32(p@)[k] == (if k < j1 + t {
                p1[k]
            } else {
                p0[k]
            }) by {
                if j1 <= k < j1 + t {
                    if k >= j1 + ht {
                        assert(j1 + ht <= k < j + ht);
                    }
                }
            }
        }
        i += 1;
        j1 += t;
    }
    proof {
        assert(ints32(p@) =~= p1);
    }
}

/// The forward butterfly layers from `start_l` on, with block size
/// `t = N >> start_l`.
fn ntt_stages_scalar<const N: usize>(ring: &Ring32<N>, p: &mut [u32; N], start_l: usize, t: usize)
    requires
        ring.wf(),
        is_power_of_two(N as nat),
        start_l <= log2(N as nat),
        t == N as int / (pow2(start_l as nat) as int),
        canonical(ints32(old(p)@), ring.q as int),
    ensures
        ints32(final(p)@) == fwd_layers_between(
            ints32(old(p)@),
            ints32(ring.ntt_table@),
            ring.q as int,
            start_l as nat,
            log2(N as nat),
        ),
        canonical(ints32(final(p)@), ring.q as int),
{
    let big_l = log2_usize(N);
    let mut t = t;
    for l in start_l..big_l
        invariant
            ring.wf(),
            is_power_of_two(N as nat),
            big_l == log2(N as nat),
            start_l <= l,
            t == N as int / (pow2(l as nat) as int),
            ints32(p@) == fwd_layers_between(
                ints32(old(p)@),
                ints32(ring.ntt_table@),
                ring.q as int,
                start_l as nat,
                l as nat,
            ),
            canonical(ints32(p@), ring.q as int),
    {
        ntt_layer_scalar(ring, p, l, t);
        proof {
            lemma_layer_shape(N as nat, l as nat);
            lemma_fwd_layer_canonical(
                fwd_layers_between(
                    ints32(old(p)@),
                    ints32(ring.ntt_table@),
                    ring.q as int,
                    start_l as nat,
                    l as nat,
                ),
                ints32(ring.ntt_table@),
                ring.q as int,
                l as nat,
            );
            assert(t >> 1 == t / 2) by (bit_vector);
            lemma_pow2_unfold((l + 1) as nat);
            lemma_pow2_pos(l as nat);
            vstd::arithmetic::div_mod::lemma_div_denominator(N as int, pow2(l as nat) as int, 2);
            assert(pow2(l as nat) * 2 == pow2((l + 1) as nat));
        }
        t = t >> 1;
    }
}

/// One inverse butterfly layer `l`, in place; `t` is half the block size.
fn inv_ntt_layer_scalar<const N: usize>(
    ring: &Ring32<N>,
    p: &mut [u32; N],
    hm: usize,
    t: usize,
    Ghost(l): Ghost<nat>,
)
    requires
        hm == pow2(l),
        ring.wf(),
        is_power_of_two(N as nat),
        l < log2(N as nat),
        t * 2 == N as int / (pow2(l as nat) as int),
        canonical(ints32(old(p)@), ring.q as int),
    ensures
        ints32(final(p)@) == inv_layer(
            ints32(old(p)@),
            ints32(ring.inv_ntt_table@),
            ring.q as int,
            l as nat,
        ),
{
    let q = ring.q;
    let ghost p0 = ints32(p@);
    let ghost p1 = inv_layer(p0, ints32(ring.inv_ntt_table@), q as int, l as nat);
    proof {
        lemma_layer_shape(N as nat, l as nat);
    }
    let dt = t * 2;
    let mut i = 0usize;
    let mut j1 = 0usize;
    proof {
        assert forall|k: int| 0 <= k < N implies #[trigger] p@[k] < q by {
            assert(p0[k] == p@[k]);
        }
        assert(p0.len() as int / (pow2(l as nat) as int) == dt as int);
    }
    while i < hm
        invariant
            p0.len() as int / (pow2(l as nat) as int) == dt as int,
            ring.wf(),
            q == ring.q,
            hm == pow2(l as nat),
            hm * dt == N,
            dt == 2 * t,
            hm * 2 <= N,
            i <= hm,
            j1 == i * dt,
            p0.len() == N,
            p1 == inv_layer(p0, ints32(ring.inv_ntt_table@), q as int, l as nat),
            canonical(p0, q as int),
            forall|k: int| 0 <= k < N ==> #[trigger] p@[k] < q,
            forall|k: int|
                0 <= k < N ==> #[trigger] ints32(p@)[k] == (if k < j1 {
                    p1[k]
                } else {
                    p0[k]
                }),
        decreases hm - i,
    {
        proof {
            lemma_mul_is_distributive_add_other_way(dt as int, i as int, 1);
            lemma_mul_inequality(i as int + 1, hm as int, dt as int);
        }
        let w = ring.inv_ntt_table[hm + i];
        let ws = ring.inv_ntt_table_shoup[hm + i];
        let j2 = j1 + t;
        let mut j = j1;
        while j < j2
            invariant
                p0.len() as int / (pow2(l as nat) as int) == dt as int,
                ring.wf(),
                q == ring.q,
                hm == pow2(l as nat),
                hm * dt == N,
                dt == 2 * t,
                i < hm,
                hm * 2 <= N,
                j1 == i * dt,
                j1 + dt <= N,
                j2 == j1 + t,
                j1 <= j <= j2,
                w == ring.inv_ntt_table[hm + i],
                ws == ring.inv_ntt_table_shoup[hm + i],
                w < q,
                ws == shoup32(w as int, q as int),
                p0.len() == N,
                p1 == inv_layer(p0, ints32(ring.inv_ntt_table@), q as int, l as nat),
                canonical(p0, q as int),
                forall|k: int| 0 <= k < N ==> #[trigger] p@[k] < q,
                forall|k: int|
                    0 <= k < N ==> #[trigger] ints32(p@)[k] == (if k < j1 || (j1 <= k < j) || (
                    j1 + t <= k < j + t) {
                        p1[k]
                    } else {
                        p0[k]
                    }),
            decreases j2 - j,
        {
            let ghost pj = ints32(p@);
            assert(pj[j as int] == p0[j as int]);
            assert(pj[j + t] == p0[j + t]);
            let u = p[j];
            let v = p[j + t];
            p[j] = add_mod(u, v, q);
            let d = sub_mod(u, v, q);
            proof {
                lemma_mod_bound(u - v, q as int);
            }
            p[j + t] = shoup_mul(d, w, ws, q);
            proof {
                let tb = ints32(ring.inv_ntt_table@);
                lemma_block_index(j as int, i as int, dt as int);
                lemma_block_index(j + t, i as int, dt as int);
                assert(tb[hm + i] == w);
                lemma_mul_mod_noop_left(u - v, w as int, q as int);
                assert(p1[j as int] == (p0[j as int] + p0[j + t]) % (q as int));
                assert(p1[j + t] == ((p0[j as int] - p0[j + t]) * w) % (q as int));
                assert forall|k: int| 0 <= k < N implies #[trigger] ints32(p@)[k] == (if k < j1
                    || (j1 <= k < j + 1) || (j1 + t <= k < j + 1 + t) {
                    p1[k]
                } else {
                    p0[k]
                }) by {
                    if k != j && k != j + t {
                        assert(ints32(p@)[k] == pj[k]);
                    }
                }
            }
            j += 1;
        }
        proof {
            assert forall|k: int| 0 <= k < N implies #[trigger] ints32(p@)[k] == (if k < j1 + dt {
                p1[k]
            } else {
                p0[k]
            }) by {
                if j1 <= k < j1 + dt {
                    if k >= j1 + t {
                        assert(j1 + t <= k < j + t);
                    }
                }
            }
        }
        i += 1;
        j1 += dt;
    }
    proof {
        assert(ints32(p@) =~= p1);
    }
}

/// Up to `iters` inverse butterfly iterations from half-block size `t` and
/// block count `m`, stopping early once a single block remains; returns the
/// updated `(t, m)` for resumption.
fn inv_ntt_stages_scalar<const N: usize>(
    ring: &Ring32<N>,
    p: &mut [u32; N],
    iters: usize,
    t: usize,
    m: usize,
) -> (tm: (usize, usize))
    requires
        ring.wf(),
        is_power_of_two(N as nat),
        is_power_of_two(t as nat),
        is_power_of_two(m as nat),
        t * m == N,
        canonical(ints32(old(p)@), ring.q as int),
    ensures
        tm.0 == pow2(stages_end(log2(t as nat), iters as nat, log2(N as nat))),
        tm.1 == N as int / (pow2(stages_end(log2(t as nat), iters as nat, log2(N as nat))) as int),
        ints32(final(p)@) == inv_layers_between(
            ints32(old(p)@),
            ints32(ring.inv_ntt_table@),
            ring.q as int,
            log2(N as nat),
            log2(t as nat),
            stages_end(log2(t as nat), iters as nat, log2(N as nat)),
        ),
        canonical(ints32(final(p)@), ring.q as int),
{
    let ghost big_l = log2(N as nat);
    let ghost k0 = log2(t as nat);
    proof {
        lemma_pow2_product(k0, log2(m as nat), big_l);
    }
    let mut t = t;
    let mut m = m;
    let mut k = 0usize;
    while k < iters && m > 1
        invariant
            ring.wf(),
            is_power_of_two(N as nat),
            big_l == log2(N as nat),
            k <= iters,
            k0 + k <= big_l,
            t == pow2((k0 + k) as nat),
            m == pow2((big_l - k0 - k) as nat),
            ints32(p@) == inv_layers_between(
                ints32(old(p)@),
                ints32(ring.inv_ntt_table@),
                ring.q as int,
                big_l,
                k0,
                (k0 + k) as nat,
            ),
            canonical(ints32(p@), ring.q as int),
        decreases iters - k,
    {
        let ghost kk: nat = (k0 + k) as nat;
        let ghost l = (big_l - kk - 1) as nat;
        proof {
            assert(kk < big_l) by {
                if kk == big_l {
                    lemma2_to64();
                    assert(m == 1);
                }
            }
            lemma_layer_shape(N as nat, l);
            lemma_pow2_unfold((big_l - kk) as nat);
            lemma_pow2_unfold((kk + 1) as nat);
            lemma_pow2_adds((kk + 1) as nat, l);
            lemma_pow2_pos(l);
            vstd::arithmetic::div_mod::lemma_div_multiples_vanish(pow2((kk + 1) as nat) as int, pow2(l) as int);
            assert(pow2((kk + 1) as nat) * pow2(l) == pow2(l) * pow2((kk + 1) as nat)) by (nonlinear_arith);
            assert(t * 2 == N as int / (pow2(l) as int));
            lemma_inv_layer_canonical(
                ints32(p@),
                ints32(ring.inv_ntt_table@),
                ring.q as int,
                l,
            );
        }
        assert(m >> 1 == m / 2) by (bit_vector);
        let hm = m >> 1;
        inv_ntt_layer_scalar(ring, p, hm, t, Ghost(l));
        t = t * 2;
        m = hm;
        k += 1;
    }
    proof {
        lemma_pow2_pos((big_l - k0 - k) as nat);
        if m <= 1 {
            assert(big_l - k0 - k == 0) by {
                if big_l - k0 - k > 0 {
                    lemma_pow2_unfold((big_l - k0 - k) as nat);
                    lemma_pow2_pos((big_l - k0 - k - 1) as nat);
                }
            }
        }
        let k1 = stages_end(k0, iters as nat, big_l);
        assert(k0 + k == k1);
        lemma_pow2_adds(k1, (big_l - k1) as nat);
        lemma_pow2_pos((big_l - k1) as nat);
        vstd::arithmetic::div_mod::lemma_div_multiples_vanish(m as int, t as int);
        assert(t * m == m * t) by (nonlinear_arith);
    }
    (t, m)
}

/// Multiplies every entry by `N^-1` (Shoup), completing the inverse transform.
fn inv_ntt_final_scale_scalar<const N: usize>(ring: &Ring32<N>, p: &mut [u32; N])
    requires
        ring.wf(),
    ensures
        ints32(final(p)@) == scale(ints32(old(p)@), ring.n_inv as int, ring.q as int),
        canonical(ints32(final(p)@), ring.q as int),
{
    let ghost p0 = ints32(p@);
    for k in 0..N
        invariant
            ring.wf(),
            p0 == ints32(old(p)@),
            forall|j: int|
                0 <= j < N ==> #[trigger] ints32(p@)[j] == (if j < k {
                    scale(p0, ring.n_inv as int, ring.q as int)[j]
                } else {
                    p0[j]
                }),
    {
        let ghost before = ints32(p@);
        let e = p[k];
        p[k] = shoup_mul(e, ring.n_inv, ring.n_inv_shoup, ring.q);
        proof {
            assert(e * ring.n_inv == ring.n_inv * e) by (nonlinear_arith);
            assert forall|j: int| 0 <= j < N implies #[trigger] ints32(p@)[j] == (if j < k + 1 {
                scale(p0, ring.n_inv as int, ring.q as int)[j]
            } else {
                p0[j]
            }) by {
                if j != k {
                    assert(ints32(p@)[j] == before[j]);
                } else {
                    assert(before[j] == p0[j]);
                    assert(e == p0[j]);
                    assert(ints32(p@)[j] == (e * ring.n_inv) % (ring.q as int));
                }
            }
        }
    }
    proof {
        assert(ints32(p@) =~= scale(p0, ring.n_inv as int, ring.q as int));
        assert forall|j: int| 0 <= j < N implies 0 <= #[trigger] ints32(p@)[j] < ring.q by {
            lemma_mod_bound(ring.n_inv * p0[j], ring.q as int);
        }
    }
}

fn ntt_scalar<const N: usize>(ring: &Ring32<N>, p: &mut [u32; N])
    requires
        ring.wf(),
        is_power_of_two(N as nat),
        canonical(ints32(old(p)@), ring.q as int),
    ensures
        ints32(final(p)@) == ring.forward_spec(ints32(old(p)@)),
        canonical(ints32(final(p)@), ring.q as int),
{
    proof {
        lemma2_to64();
        assert(N as int / (pow2(0) as int) == N);
        lemma_fwd_layers_from_zero(ints32(old(p)@), ints32(ring.ntt_table@), ring.q as int, log2(N as nat));
    }
    ntt_stages_scalar(ring, p, 0, N);
}

fn inv_ntt_scalar<const N: usize>(ring: &Ring32<N>, p: &mut [u32; N])
    requires
        ring.wf(),
        is_power_of_two(N as nat),
        canonical(ints32(old(p)@), ring.q as int),
    ensures
        ints32(final(p)@) == ring.inverse_spec(ints32(old(p)@)),
        canonical(ints32(final(p)@), ring.q as int),
{
    let big_l = log2_usize(N);
    proof {
        lemma2_to64();
        assert(log2(1) == 0);
        assert(is_power_of_two(1));
        lemma_inv_layers_from_zero(
            ints32(old(p)@),
            ints32(ring.inv_ntt_table@),
            ring.q as int,
            big_l as nat,
            big_l as nat,
        );
    }
    inv_ntt_stages_scalar(ring, p, big_l, 1, N);
    inv_ntt_final_scale_scalar(ring, p);
}

/// Forward NTT over canonical `[0, q)` values, in place.
pub fn ntt<const N: usize>(ring: &Ring32<N>, p: &mut [u32; N])
    requires
        ring.wf(),
        is_power_of_two(N as nat),
        canonical(ints32(old(p)@), ring.q as int),
    ensures
        ints32(final(p)@) == ring.forward_spec(ints32(old(p)@)),
        canonical(ints32(final(p)@), ring.q as int),
{
    ntt_scalar(ring, p);
}

/// Inverse NTT over canonical `[0, q)` values, in place (includes the final
/// `N^-1` scaling).
pub fn inv_ntt<const N: usize>(ring: &Ring32<N>, p: &mut [u32; N])
    requires
        ring.wf(),
        is_power_of_two(N as nat),
        canonical(ints32(old(p)@), ring.q as int),
    ensures
        ints32(final(p)@) == ring.inverse_spec(ints32(old(p)@)),
        canonical(ints32(final(p)@), ring.q as int),
{
    inv_ntt_scalar(ring, p);
}

#[inline]
pub fn add_assign<const N: usize>(ring: &Ring32<N>, lhs: &mut [u32; N], rhs: &[u32; N])
    requires
        ring.wf(),
        canonical(ints32(old(lhs)@), ring.q as int),
        canonical(ints32(rhs@), ring.q as int),
    ensures
        forall|i: int|
            0 <= i < N ==> #[trigger] final(lhs)@[i] == (old(lhs)@[i] + rhs@[i]) % (ring.q as int),
{
    for i in 0..N
        invariant
            ring.wf(),
            canonical(ints32(old(lhs)@), ring.q as int),
            canonical(ints32(rhs@), ring.q as int),
            forall|j: int|
                0 <= j < N ==> #[trigger] lhs@[j] == (if j < i {
                    (old(lhs)@[j] + rhs@[j]) % (ring.q as int)
                } else {
                    old(lhs)@[j] as int
                }),
    {
        assert(ints32(old(lhs)@)[i as int] == lhs@[i as int]);
        assert(ints32(rhs@)[i as int] == rhs@[i as int]);
        lhs[i] = add_mod(lhs[i], rhs[i], ring.q);
    }
}

#[inline]
pub fn sub_assign<const N: usize>(ring: &Ring32<N>, lhs: &mut [u32; N], rhs: &[u32; N])
    requires
        ring.wf(),
        canonical(ints32(old(lhs)@), ring.q as int),
        canonical(ints32(rhs@), ring.q as int),
    ensures
        forall|i: int|
            0 <= i < N ==> #[trigger] final(lhs)@[i] == (old(lhs)@[i] - rhs@[i]) % (ring.q as int),
{
    for i in 0..N
        invariant
            ring.wf(),
            canonical(ints32(old(lhs)@), ring.q as int),
            canonical(ints32(rhs@), ring.q as int),
            forall|j: int|
                0 <= j < N ==> #[trigger] lhs@[j] == (if j < i {
                    (old(lhs)@[j] - rhs@[j]) % (ring.q as int)
                } else {
                    old(lhs)@[j] as int
                }),
    {
        assert(ints32(old(lhs)@)[i as int] == lhs@[i as int]);
        assert(ints32(rhs@)[i as int] == rhs@[i as int]);
        lhs[i] = sub_mod(lhs[i], rhs[i], ring.q);
    }
}

#[inline]
pub fn pointwise_mul<const N: usize>(ring: &Ring32<N>, lhs: &[u32; N], rhs: &[u32; N]) -> (out:
    [u32; N])
    requires
        ring.wf(),
        canonical(ints32(lhs@), ring.q as int),
        canonical(ints32(rhs@), ring.q as int),
    ensures
        ints32(out@) == pointwise_spec(ints32(lhs@), ints32(rhs@), ring.q as int),
{
    let mut out = [0u32; N];
    for i in 0..N
        invariant
            ring.wf(),
            canonical(ints32(lhs@), ring.q as int),
            canonical(ints32(rhs@), ring.q as int),
            forall|j: int|
                0 <= j < i ==> #[trigger] out@[j] == (lhs@[j] * rhs@[j]) % (ring.q as int),
    {
        assert(ints32(lhs@)[i as int] == lhs@[i as int]);
        assert(ints32(rhs@)[i as int] == rhs@[i as int]);
        out[i] = mul_mod(lhs[i], rhs[i], ring);
    }
    proof {
        assert(ints32(out@) =~= pointwise_spec(ints32(lhs@), ints32(rhs@), ring.q as int));
    }
    out
}

/// The transform-domain validity of the tables: `N` a power of two, each
/// inverse twiddle the inverse of its forward twiddle, and `N^-1` correct.
impl<const N: usize> Ring32<N> {
    pub open spec fn inverse_valid(&self) -> bool {
        &&& is_power_of_two(N as nat)
        &&& tables_inverse(
            ints32(self.ntt_table@),
            ints32(self.inv_ntt_table@),
            self.q as int,
            N as nat,
        )
        &&& (self.n_inv * N) % (self.q as int) == 1
    }

    /// The forward twiddles are successive square roots of `−1` in
    /// bit-reversed order, so the transform evaluates at the roots of `x^N + 1`.
    pub open spec fn roots_valid(&self) -> bool {
        negacyclic_roots(ints32(self.ntt_table@), self.q as int, N as nat)
    }
}

/// `inv_ntt` undoes `ntt` on canonical input.
pub proof fn lemma_ntt_roundtrip<const N: usize>(ring: &Ring32<N>, p: Seq<int>)
    requires
        ring.wf(),
        ring.inverse_valid(),
        p.len() == N,
        canonical(p, ring.q as int),
    ensures
        ring.inverse_spec(ring.forward_spec(p)) == p,
{
    lemma_roundtrip(
        p,
        ints32(ring.ntt_table@),
        ints32(ring.inv_ntt_table@),
        ring.n_inv as int,
        ring.q as int,
    );
}

/// `inv_ntt(pointwise_mul(ntt(a), ntt(b)))` is the negacyclic product of `a`
/// and `b` in `Z_q[x]/(x^N + 1)`.
pub proof fn lemma_ntt_convolution<const N: usize>(ring: &Ring32<N>, a: Seq<int>, b: Seq<int>)
    requires
        ring.wf(),
        ring.inverse_valid(),
        ring.roots_valid(),
        a.len() == N,
        b.len() == N,
        canonical(a, ring.q as int),
        canonical(b, ring.q as int),
    ensures
        ring.inverse_spec(
            pointwise_spec(ring.forward_spec(a), ring.forward_spec(b), ring.q as int),
        ) == negacyclic_mul(a, b, ring.q as int),
{
    lemma_convolution(
        a,
        b,
        ints32(ring.ntt_table@),
        ints32(ring.inv_ntt_table@),
        ring.n_inv as int,
        ring.q as int,
    );
}

/// Some `x` in `[0, m)` has `a·x ≡ 1 (mod m)`.
pub open spec fn invertible(a: int, m: int) -> bool {
    exists|x: int| 0 <= x < m && #[trigger] ((a * x) % m) == 1
}

/// `x mod m` in `[0, m)`.
fn rem_euclid_i64(x: i64, m: i64) -> (r: i64)
    requires
        m > 0,
    ensures
        r == (x as int) % (m as int),
{
    let r = x % m;
    proof {
        if x >= 0 {
            assert(r == (x as int) % (m as int));
        } else {
            assert(r == -((-(x as int)) % (m as int)));
            lemma_mod_bound(-(x as int), m as int);
            if r < 0 {
                lemma_small_mod((r + m) as nat, m as nat);
                lemma_fundamental_div_mod(-(x as int), m as int);
                let k = (-(x as int)) / (m as int);
                assert(x + m * (k + 1) == r + m) by (nonlinear_arith)
                    requires
                        -(x as int) == m * k + (-(x as int)) % (m as int),
                        r == -((-(x as int)) % (m as int)),
                ;
                lemma_mod_multiples_vanish(k + 1, x as int, m as int);
            } else {
                assert(r == 0);
                lemma_fundamental_div_mod(-(x as int), m as int);
                let k = (-(x as int)) / (m as int);
                assert(x == m * (-k)) by (nonlinear_arith)
                    requires
                        -(x as int) == m * k + (-(x as int)) % (m as int),
                        (-(x as int)) % (m as int) == 0,
                ;
                lemma_mod_multiples_basic(-k, m as int);
                assert(m * (-k) == (-k) * m) by (nonlinear_arith);
            }
        }
    }
    if r < 0 {
        r + m
    } else {
        r
    }
}

/// `x mod m` in `[0, m)`.
fn rem_euclid_i128(x: i128, m: i128) -> (r: i128)
    requires
        m > 0,
    ensures
        r == (x as int) % (m as int),
{
    let r = x % m;
    proof {
        if x >= 0 {
            assert(r == (x as int) % (m as int));
        } else {
            assert(r == -((-(x as int)) % (m as int)));
            lemma_mod_bound(-(x as int), m as int);
            if r < 0 {
                lemma_small_mod((r + m) as nat, m as nat);
                lemma_fundamental_div_mod(-(x as int), m as int);
                let k = (-(x as int)) / (m as int);
                assert(x + m * (k + 1) == r + m) by (nonlinear_arith)
                    requires
                        -(x as int) == m * k + (-(x as int)) % (m as int),
                        r == -((-(x as int)) % (m as int)),
                ;
                lemma_mod_multiples_vanish(k + 1, x as int, m as int);
            } else {
                assert(r == 0);
                lemma_fundamental_div_mod(-(x as int), m as int);
                let k = (-(x as int)) / (m as int);
                assert(x == m * (-k)) by (nonlinear_arith)
                    requires
                        -(x as int) == m * k + (-(x as int)) % (m as int),
                        (-(x as int)) % (m as int) == 0,
                ;
                lemma_mod_multiples_basic(-k, m as int);
                assert(m * (-k) == (-k) * m) by (nonlinear_arith);
            }
        }
    }
    if r < 0 {
        r + m
    } else {
        r
    }
}

/// `d` divides `x`.
spec fn divides(d: int, x: int) -> bool {
    x % d == 0
}

/// The inverse of `value` modulo `modulus` by the extended Euclidean
/// algorithm, when it exists.
fn inverse_mod(value: u32, modulus: u32) -> (r: Option<u32>)
    requires
        modulus > 1,
    ensures
        r matches Some(x) ==> x < modulus && ((value * x) % (modulus as int)) == 1,
        r is None ==> !invertible(value as int, modulus as int),
{
    let ghost a = value as int;
    let ghost m = modulus as int;
    let mut old_r = value as i64;
    let mut r = modulus as i64;
    let mut old_s = 1i64;
    let mut s = 0i64;
    proof {
        lemma_small_mod(0, m as nat);
        lemma_mod_self_0(m);
        assert((a * 1 - a) % m == 0);
        assert((a * 0 - m) % m == 0) by {
            lemma_mod_multiples_basic(-1, m);
        }
        assert(abs_i(s) == 0 && abs_i(old_s) == 1);
        assert(abs_i(s) * old_r + abs_i(old_s) * r == m);
    }
    while r != 0
        invariant
            m == modulus,
            a == value,
            m > 1,
            0 <= old_r <= 0xffff_ffff,
            0 <= r <= 0xffff_ffff,
            old_s * s <= 0,
            abs_i(s) * old_r + abs_i(old_s) * r == m,
            (a * old_s - old_r) % m == 0,
            (a * s - r) % m == 0,
            forall|d: int| d > 0 && divides(d, old_r as int) && divides(d, r as int) ==> divides(d, a) && divides(d, m),
        decreases r,
    {
        let quotient = old_r / r;
        proof {
            lemma_fundamental_div_mod(old_r as int, r as int);
            lemma_mod_bound(old_r as int, r as int);
            lemma_div_pos_is_pos(old_r as int, r as int);
            // |quotient·s| ≤ m, so no product overflows
            assert(abs_i(s) * old_r <= m);
            assert(quotient * r <= old_r) by (nonlinear_arith)
                requires
                    old_r == r * quotient + old_r % r,
                    old_r % r >= 0,
            ;
            assert(quotient * abs_i(s) <= m) by (nonlinear_arith)
                requires
                    quotient * r <= old_r,
                    abs_i(s) * old_r <= m,
                    r >= 1,
                    quotient >= 0,
                    abs_i(s) >= 0,
            ;
            assert(abs_i(old_s) <= m) by (nonlinear_arith)
                requires
                    abs_i(old_s) * r <= m,
                    r >= 1,
                    abs_i(old_s) >= 0,
            ;
            assert(-m <= quotient * s <= m) by (nonlinear_arith)
                requires
                    quotient * abs_i(s) <= m,
                    abs_i(s) == (if s >= 0 { s as int } else { -s }),
                    quotient >= 0,
            ;
        }
        let next_r = old_r - quotient * r;
        let next_s = old_s - quotient * s;
        proof {
            let ghost q0 = quotient as int;
            assert(next_r == old_r % r);
            // the coefficient magnitudes add up, since the signs alternate
            assert(abs_i(next_s) == abs_i(old_s) + q0 * abs_i(s)) by (nonlinear_arith)
                requires
                    next_s == old_s - q0 * s,
                    old_s * s <= 0,
                    q0 >= 0,
                    abs_i(next_s) == (if next_s >= 0 { next_s as int } else { -next_s }),
                    abs_i(old_s) == (if old_s >= 0 { old_s as int } else { -old_s }),
                    abs_i(s) == (if s >= 0 { s as int } else { -s }),
            ;
            assert(abs_i(next_s) * r + abs_i(s) * next_r == m) by (nonlinear_arith)
                requires
                    abs_i(next_s) == abs_i(old_s) + q0 * abs_i(s),
                    next_r == old_r - q0 * r,
                    abs_i(s) * old_r + abs_i(old_s) * r == m,
            ;
            assert(s * next_s <= 0) by (nonlinear_arith)
                requires
                    next_s == old_s - q0 * s,
                    old_s * s <= 0,
                    q0 >= 0,
            ;
            assert((a * next_s - next_r) % m == 0) by {
                assert(a * next_s - next_r == (a * old_s - old_r) - q0 * (a * s - r)) by (nonlinear_arith)
                    requires
                        next_s == old_s - q0 * s,
                        next_r == old_r - q0 * r,
                ;
                lemma_mul_mod_noop_right(q0, a * s - r, m);
                assert(q0 * 0 == 0);
                lemma_small_mod(0, m as nat);
                lemma_sub_mod_noop(a * old_s - old_r, q0 * (a * s - r), m);
            }
            assert forall|d: int| d > 0 && divides(d, r as int) && divides(d, next_r as int) implies divides(d, a) && divides(d, m) by {
                lemma_mul_mod_noop_right(q0, r as int, d);
                assert(q0 * 0 == 0);
                lemma_small_mod(0, d as nat);
                lemma_add_mod_noop(next_r as int, q0 * r, d);
                assert(old_r == next_r + q0 * r);
            }
        }
        old_r = r;
        r = next_r;
        old_s = s;
        s = next_s;
    }
    if old_r == 1 {
        let x = rem_euclid_i64(old_s, modulus as i64);
        proof {
            lemma_mod_bound(old_s as int, m);
            lemma_mul_mod_noop_right(a, old_s as int, m);
            lemma_mod_equivalence(a * old_s, 1, m);
            lemma_small_mod(1, m as nat);
        }
        Some(x as u32)
    } else {
        proof {
            if invertible(a, m) {
                let x = choose|x: int| 0 <= x < m && #[trigger] ((a * x) % m) == 1;
                let g = old_r as int;
                assert(divides(g, 0)) by {
                    if g > 0 {
                        lemma_small_mod(0, g as nat);
                    }
                }
                if g == 0 {
                    // the invariant then reads |s|·0 + |old_s|·0 == m
                    assert(false);
                }
                lemma_mod_self_0(g);
                assert(divides(g, a) && divides(g, m));
                // a·x = 1 + k·m, so g divides 1
                lemma_fundamental_div_mod(a * x, m);
                let k = (a * x) / m;
                lemma_fundamental_div_mod(a, g);
                lemma_fundamental_div_mod(m, g);
                let ca = a / g;
                let cm = m / g;
                assert(1 == g * (ca * x - cm * k)) by (nonlinear_arith)
                    requires
                        a * x == m * k + 1,
                        a == g * ca,
                        m == g * cm,
                ;
                assert(g > 1);
                assert(false) by (nonlinear_arith)
                    requires
                        1 == g * (ca * x - cm * k),
                        g > 1,
                ;
            }
        }
        None
    }
}

spec fn abs_i(x: i64) -> int {
    if x >= 0 {
        x as int
    } else {
        -(x as int)
    }
}

/// `q_0·q_1·…·q_{k−1}`.
pub open spec fn moduli_product(qs: Seq<int>, k: nat) -> int
    decreases k,
{
    if k == 0 {
        1
    } else {
        moduli_product(qs, (k - 1) as nat) * qs[k - 1]
    }
}

/// The channel moduli of an array of rings.
pub open spec fn channel_moduli<const N: usize, const LIMBS: usize>(ch: [Ring32<N>; LIMBS]) -> Seq<
    int,
> {
    Seq::new(LIMBS as nat, |i: int| ch[i].q as int)
}

/// Every prefix product of moduli above one is at least one, and they grow.
pub proof fn lemma_moduli_product_grows(qs: Seq<int>, i: nat, k: nat)
    requires
        i <= k <= qs.len(),
        forall|j: int| 0 <= j < qs.len() ==> #[trigger] qs[j] > 1,
    ensures
        1 <= moduli_product(qs, i) <= moduli_product(qs, k),
    decreases k,
{
    if k > i {
        lemma_moduli_product_grows(qs, i, (k - 1) as nat);
        assert(moduli_product(qs, (k - 1) as nat) * qs[k - 1] >= moduli_product(qs, (k - 1) as nat))
            by (nonlinear_arith)
            requires
                moduli_product(qs, (k - 1) as nat) >= 1,
                qs[k - 1] > 1,
        ;
    } else if k > 0 {
        lemma_moduli_product_grows(qs, (k - 1) as nat, (k - 1) as nat);
        assert(moduli_product(qs, (k - 1) as nat) * qs[k - 1] >= 1) by (nonlinear_arith)
            requires
                moduli_product(qs, (k - 1) as nat) >= 1,
                qs[k - 1] > 1,
        ;
    }
}

/// Each modulus `q_j` with `j < k` divides `q_0·…·q_{k−1}`.
pub proof fn lemma_moduli_product_divisible(qs: Seq<int>, j: int, k: nat)
    requires
        0 <= j < k <= qs.len(),
        forall|i: int| 0 <= i < qs.len() ==> #[trigger] qs[i] > 1,
    ensures
        moduli_product(qs, k) % qs[j] == 0,
    decreases k,
{
    let k1 = (k - 1) as nat;
    if j == k1 {
        lemma_mod_multiples_basic(moduli_product(qs, k1), qs[j]);
    } else {
        lemma_moduli_product_divisible(qs, j, k1);
        lemma_mul_mod_noop_left(moduli_product(qs, k1), qs[k1 as int], qs[j]);
        assert(0 * qs[k1 as int] == 0);
        lemma_small_mod(0, qs[j] as nat);
    }
}

impl<const N: usize, const LIMBS: usize> Rns<N, LIMBS> {
    pub open spec fn moduli(&self) -> Seq<int> {
        channel_moduli(self.ch)
    }

    /// The chain invariants: at least one channel, moduli above one, the
    /// prefix products `q_0·…·q_{i−1}` with their inverses modulo `q_i`, the
    /// full product, and each channel's rejection-sampling threshold.
    pub open spec fn wf(&self) -> bool {
        &&& LIMBS > 0
        &&& forall|i: int| 0 <= i < LIMBS ==> #[trigger] self.ch[i].q > 1
        &&& forall|i: int|
            0 <= i < LIMBS ==> #[trigger] self.prefix_products[i] == moduli_product(
                self.moduli(),
                i as nat,
            )
        &&& self.product == moduli_product(self.moduli(), LIMBS as nat)
        &&& forall|i: int|
            1 <= i < LIMBS ==> #[trigger] self.prefix_inverses[i] < self.ch[i].q && (
            self.prefix_products[i] * self.prefix_inverses[i]) % (self.ch[i].q as int) == 1
        &&& forall|i: int|
            0 <= i < LIMBS ==> #[trigger] self.sample_threshold[i] == ((0x1_0000_0000int / (
            self.ch[i].q as int)) * self.ch[i].q) % 0x1_0000_0000
    }

    /// Every channel is a valid ring.
    pub open spec fn channels_wf(&self) -> bool {
        forall|i: int| 0 <= i < LIMBS ==> (#[trigger] self.ch[i]).wf()
    }

    /// Every residue of every channel is canonical.
    pub open spec fn residues_canonical(&self, r: [[u32; N]; LIMBS]) -> bool {
        forall|c: int| 0 <= c < LIMBS ==> canonical(ints32((#[trigger] r[c])@), self.ch[c].q as int)
    }

    /// Builds the chain's prefix products, their inverses and the sampling
    /// thresholds. The moduli must exceed one, be pairwise coprime (each
    /// prefix product invertible modulo the next modulus), and multiply to
    /// at most `u128::MAX`.
    pub fn new(ch: [Ring32<N>; LIMBS]) -> (rns: Self)
        requires
            LIMBS > 0,
            forall|i: int| 0 <= i < LIMBS ==> #[trigger] ch[i].q > 1,
            moduli_product(channel_moduli(ch), LIMBS as nat) <= u128::MAX,
            forall|i: int|
                1 <= i < LIMBS ==> invertible(
                    moduli_product(channel_moduli(ch), i as nat) % (#[trigger] ch[i].q as int),
                    ch[i].q as int,
                ),
        ensures
            rns.ch == ch,
            rns.wf(),
            rns.prefix_inverses[0] == 0,
    {
        let ghost qs = channel_moduli(ch);
        let mut prefix_products = [1u128; LIMBS];
        let mut prefix_inverses = [0u32; LIMBS];
        let mut product = 1u128;
        for i in 0..LIMBS
            invariant
                qs == channel_moduli(ch),
                forall|j: int| 0 <= j < LIMBS ==> #[trigger] ch[j].q > 1,
                forall|j: int| 0 <= j < qs.len() ==> #[trigger] qs[j] > 1,
                qs.len() == LIMBS,
                moduli_product(qs, LIMBS as nat) <= u128::MAX,
                forall|j: int|
                    1 <= j < LIMBS ==> invertible(
                        moduli_product(qs, j as nat) % (#[trigger] ch[j].q as int),
                        ch[j].q as int,
                    ),
                product == moduli_product(qs, i as nat),
                prefix_inverses[0] == 0,
                forall|j: int| i <= j < LIMBS ==> #[trigger] prefix_products[j] == 1,
                forall|j: int|
                    0 <= j < i ==> #[trigger] prefix_products[j] == moduli_product(qs, j as nat),
                forall|j: int|
                    1 <= j < i ==> #[trigger] prefix_inverses[j] < ch[j].q && (prefix_products[j]
                        * prefix_inverses[j]) % (ch[j].q as int) == 1,
        {
            let q = ch[i].q;
            assert(qs[i as int] == q);
            if i != 0 {
                prefix_products[i] = product;
                let inv = inverse_mod((product % q as u128) as u32, q);
                let v = match inv {
                    Some(v) => v,
                    None => {
                        proof {
                            assert(invertible(moduli_product(qs, i as nat) % (q as int), q as int));
                        }
                        0
                    },
                };
                proof {
                    lemma_mul_mod_noop_left(product as int, v as int, q as int);
                }
                prefix_inverses[i] = v;
            }
            proof {
                lemma_moduli_product_grows(qs, (i + 1) as nat, LIMBS as nat);
            }
            product = match product.checked_mul(q as u128) {
                Some(p) => p,
                None => {
                    proof {
                        assert(false);
                    }
                    0
                },
            };
        }
        let mut sample_threshold = [0u32; LIMBS];
        for i in 0..LIMBS
            invariant
                forall|j: int| 0 <= j < LIMBS ==> #[trigger] ch[j].q > 1,
                forall|j: int|
                    0 <= j < i ==> #[trigger] sample_threshold[j] == ((0x1_0000_0000int / (
                    ch[j].q as int)) * ch[j].q) % 0x1_0000_0000,
        {
            let q = ch[i].q as u64;
            proof {
                lemma_div_is_ordered_by_denominator(0x1_0000_0000, 1, q as int);
                lemma_fundamental_div_mod(0x1_0000_0000, q as int);
                lemma_mod_bound(0x1_0000_0000, q as int);
                assert(q * (0x1_0000_0000int / (q as int)) <= 0x1_0000_0000);
                assert((0x1_0000_0000int / (q as int)) * q <= 0x1_0000_0000) by (nonlinear_arith)
                    requires
                        q * (0x1_0000_0000int / (q as int)) <= 0x1_0000_0000,
                ;
            }
            let t = (0x1_0000_0000u64 / q) * q;
            proof {
                assert((t as u32) == t % 0x1_0000_0000) by (bit_vector);
            }
            sample_threshold[i] = #[verifier::truncate] (t as u32);
        }
        let rns = Self { ch, sample_threshold, prefix_products, prefix_inverses, product };
        proof {
            assert(rns.moduli() =~= qs);
        }
        rns
    }
}

impl<const N: usize, const LIMBS: usize> Rns<N, LIMBS> {
    /// Values in a window of length `product` are determined by their
    /// residues: the Chinese remainder theorem for the chain.
    pub proof fn lemma_residues_determine(&self, lo: int, x: int, y: int)
        requires
            self.wf(),
            lo <= x < lo + self.product,
            lo <= y < lo + self.product,
            forall|j: int|
                0 <= j < LIMBS ==> x % (#[trigger] self.ch[j].q as int) == y % (
                self.ch[j].q as int),
        ensures
            x == y,
    {
        let qs = self.moduli();
        assert forall|j: int| 0 <= j < LIMBS implies (x - lo) % (#[trigger] qs[j]) == (y - lo) % qs[j] by {
            assert(qs[j] == self.ch[j].q);
            lemma_sub_mod_noop(x, lo, qs[j]);
            lemma_sub_mod_noop(y, lo, qs[j]);
        }
        self.lemma_unique_prefix(x - lo, y - lo, LIMBS as nat);
    }

    /// Lifting undoes reduction: a value in `[0, product)` is recovered from
    /// its residues by `lift_coeff`.
    pub proof fn lemma_lift_undoes_reduce(&self, x: int, r: [u32; LIMBS], y: int)
        requires
            self.wf(),
            0 <= x < self.product,
            forall|i: int| 0 <= i < LIMBS ==> #[trigger] r[i] == x % (self.ch[i].q as int),
            0 <= y < self.product,
            forall|i: int| 0 <= i < LIMBS ==> y % (#[trigger] self.ch[i].q as int) == r[i],
        ensures
            y == x,
    {
        self.lemma_residues_determine(0, x, y);
    }

    /// Centered lifting undoes reduction: a value in the centered window
    /// `(product/2 − product, product/2]` is recovered by `lift_centered`.
    pub proof fn lemma_lift_centered_undoes_reduce(&self, x: int, r: [u32; LIMBS], y: int)
        requires
            self.wf(),
            self.product / 2 - self.product < x <= self.product / 2,
            forall|i: int| 0 <= i < LIMBS ==> #[trigger] r[i] == x % (self.ch[i].q as int),
            self.product / 2 - self.product < y <= self.product / 2,
            forall|i: int| 0 <= i < LIMBS ==> y % (#[trigger] self.ch[i].q as int) == r[i],
        ensures
            y == x,
    {
        self.lemma_residues_determine(self.product / 2 - self.product + 1, x, y);
    }

    proof fn lemma_unique_prefix(&self, x: int, y: int, k: nat)
        requires
            self.wf(),
            k <= LIMBS,
            0 <= x,
            0 <= y,
            x < moduli_product(self.moduli(), k),
            y < moduli_product(self.moduli(), k),
            forall|j: int| 0 <= j < k ==> x % (#[trigger] self.moduli()[j]) == y % self.moduli()[j],
        ensures
            x == y,
        decreases k,
    {
        let qs = self.moduli();
        if k > 0 {
            let k1 = (k - 1) as nat;
            let p = moduli_product(qs, k1);
            let q = qs[k1 as int];
            assert forall|j: int| 0 <= j < qs.len() implies #[trigger] qs[j] > 1 by {
                assert(qs[j] == self.ch[j].q);
            }
            lemma_moduli_product_grows(qs, k1, k1);
            let xr = x % p;
            let yr = y % p;
            lemma_fundamental_div_mod(x, p);
            lemma_fundamental_div_mod(y, p);
            lemma_mod_bound(x, p);
            lemma_mod_bound(y, p);
            lemma_div_pos_is_pos(x, p);
            lemma_div_pos_is_pos(y, p);
            let dx = x / p;
            let dy = y / p;
            assert forall|j: int| 0 <= j < k1 implies xr % (#[trigger] qs[j]) == yr % qs[j] by {
                lemma_moduli_product_divisible(qs, j, k1);
                lemma_fundamental_div_mod(p, qs[j]);
                let c = p / qs[j];
                assert(x == qs[j] * (c * dx) + xr) by (nonlinear_arith)
                    requires
                        x == p * dx + xr,
                        p == qs[j] * c,
                ;
                assert(y == qs[j] * (c * dy) + yr) by (nonlinear_arith)
                    requires
                        y == p * dy + yr,
                        p == qs[j] * c,
                ;
                lemma_mod_multiples_vanish(c * dx, xr, qs[j]);
                lemma_mod_multiples_vanish(c * dy, yr, qs[j]);
            }
            self.lemma_unique_prefix(xr, yr, k1);
            // p·(dx − dy) ≡ 0 (mod q), so dx ≡ dy
            assert(dx < q && dy < q) by (nonlinear_arith)
                requires
                    x == p * dx + xr,
                    y == p * dy + yr,
                    x < p * q,
                    y < p * q,
                    0 <= xr,
                    0 <= yr,
                    p >= 1,
            ;
            lemma_mod_equivalence(x, y, q);
            assert(x - y == p * (dx - dy)) by (nonlinear_arith)
                requires
                    x == p * dx + xr,
                    y == p * dy + yr,
                    xr == yr,
            ;
            if k1 == 0 {
                assert(p == 1);
                assert(p * (dx - dy) == dx - dy) by (nonlinear_arith)
                    requires
                        p == 1,
                ;
                assert(dx - dy == x - y);
            } else {
                let inv = self.prefix_inverses[k1 as int] as int;
                assert(self.prefix_products[k1 as int] == p);
                assert((p * inv) % q == 1);
                lemma_mul_mod_noop_left(p * (dx - dy), inv, q);
                assert(0 * inv == 0);
                lemma_small_mod(0, q as nat);
                assert((p * (dx - dy) * inv) % q == 0);
                assert(p * (dx - dy) * inv == (dx - dy) * (p * inv)) by (nonlinear_arith);
                lemma_mul_mod_noop_right(dx - dy, p * inv, q);
                assert((dx - dy) * 1 == dx - dy);
            }
            assert((dx - dy) % q == 0);
            if dx != dy {
                if dx > dy {
                    lemma_small_mod((dx - dy) as nat, q as nat);
                } else {
                    lemma_small_mod((dy - dx) as nat, q as nat);
                    lemma_mod_equivalence(dy as int, dx as int, q);
                    lemma_mod_equivalence(dx as int, dy as int, q);
                }
            }
        }
    }

    /// The canonical residue of `x` in every channel.
    #[inline]
    pub fn reduce_coeff(&self, x: i128) -> (r: [u32; LIMBS])
        requires
            self.wf(),
        ensures
            forall|i: int| 0 <= i < LIMBS ==> #[trigger] r[i] == (x as int) % (self.ch[i].q as int),
    {
        let mut r = [0u32; LIMBS];
        for i in 0..LIMBS
            invariant
                self.wf(),
                forall|j: int| 0 <= j < i ==> #[trigger] r[j] == (x as int) % (self.ch[j].q as int),
        {
            let q = self.ch[i].q;
            let v = rem_euclid_i128(x, q as i128);
            proof {
                lemma_mod_bound(x as int, q as int);
            }
            r[i] = v as u32;
        }
        r
    }

    /// Garner lift into `[0, product)`: the unique value below the product
    /// with the given canonical residues.
    #[inline]
    pub fn lift_coeff(&self, r: [u32; LIMBS]) -> (x: u128)
        requires
            self.wf(),
            forall|i: int| 0 <= i < LIMBS ==> #[trigger] r[i] < self.ch[i].q,
        ensures
            x < self.product,
            forall|i: int| 0 <= i < LIMBS ==> (x as int) % (#[trigger] self.ch[i].q as int) == r[i],
    {
        let ghost qs = self.moduli();
        proof {
            assert forall|j: int| 0 <= j < qs.len() implies #[trigger] qs[j] > 1 by {
                assert(qs[j] == self.ch[j].q);
            }
            lemma2_to64();
            lemma_small_mod(r[0] as nat, self.ch[0].q as nat);
            assert(moduli_product(qs, 0) == 1);
            assert(moduli_product(qs, 1) == qs[0]);
        }
        let mut x = r[0] as u128;
        for i in 1..LIMBS
            invariant
                self.wf(),
                qs == self.moduli(),
                forall|j: int| 0 <= j < qs.len() ==> #[trigger] qs[j] > 1,
                forall|j: int| 0 <= j < LIMBS ==> #[trigger] r[j] < self.ch[j].q,
                x < moduli_product(qs, i as nat),
                forall|j: int| 0 <= j < i ==> (x as int) % (#[trigger] self.ch[j].q as int) == r[j],
        {
            let q = self.ch[i].q as u128;
            let p = self.prefix_products[i];
            let inv = self.prefix_inverses[i] as u128;
            proof {
                assert(qs[i as int] == q);
                lemma_mod_bound(x as int, q as int);
            }
            let delta = (r[i] as u128 + q - x % q) % q;
            proof {
                lemma_mod_bound(r[i as int] as int + q as int - (x % q) as int, q as int);
                assert(self.prefix_inverses[i as int] < self.ch[i as int].q);
                lemma_mul_upper_bound(delta as int, q as int, inv as int, q as int);
                assert(q * q <= 0xffff_ffff * 0xffff_ffff) by (nonlinear_arith)
                    requires
                        q <= 0xffff_ffff,
                ;
            }
            let digit = delta * inv % q;
            proof {
                lemma_mod_bound(delta * inv, q as int);
                lemma_moduli_product_grows(qs, (i + 1) as nat, LIMBS as nat);
                assert(x + p * digit < p * q) by (nonlinear_arith)
                    requires
                        x < p,
                        digit < q,
                ;
            }
            let ghost x0 = x as int;
            x += p * digit;
            proof {
                let qi = q as int;
                let ri = r[i as int] as int;
                assert((p * inv) % qi == 1) by {
                    assert(self.prefix_products[i as int] == p);
                }
                // p·digit ≡ p·delta·inv = delta·(p·inv) ≡ delta (mod q)
                lemma_mul_mod_noop_right(p as int, delta * inv, qi);
                assert(p * (delta * inv) == delta * (p * inv)) by (nonlinear_arith);
                lemma_mul_mod_noop_right(delta as int, p * inv, qi);
                assert(delta * 1 == delta);
                lemma_small_mod(delta as nat, q as nat);
                assert((p * digit) % qi == delta);
                // delta ≡ r_i − x0 (mod q)
                lemma_mod_bound(x0, qi);
                lemma_small_mod(r[i as int] as nat, q as nat);
                lemma_mod_add_multiples_vanish(ri - x0 % qi, qi);
                lemma_sub_mod_noop(ri, x0, qi);
                lemma_mod_twice(x0, qi);
                assert(delta == (ri - x0) % qi);
                // x ≡ x0 + (r_i − x0) = r_i
                lemma_add_mod_noop(x0, p * digit, qi);
                lemma_add_mod_noop(x0, ri - x0, qi);
                assert((x as int) % qi == ri);
                assert forall|j: int| 0 <= j < i + 1 implies (x as int) % (#[trigger] self.ch[j].q as int) == r[j] by {
                    if j < i {
                        assert(qs[j] == self.ch[j].q);
                        lemma_moduli_product_divisible(qs, j, i as nat);
                        lemma_fundamental_div_mod(p as int, qs[j]);
                        let c = p as int / qs[j];
                        assert(p * digit == qs[j] * (c * digit)) by (nonlinear_arith)
                            requires
                                p == qs[j] * c,
                        ;
                        lemma_mod_multiples_vanish(c * digit, x0, qs[j]);
                    }
                }
            }
        }
        x
    }

    /// Garner lift into the centered interval `(product/2 − product, product/2]`.
    #[inline]
    pub fn lift_centered(&self, r: [u32; LIMBS]) -> (x: i128)
        requires
            self.wf(),
            forall|i: int| 0 <= i < LIMBS ==> #[trigger] r[i] < self.ch[i].q,
            self.product <= i128::MAX,
        ensures
            self.product / 2 - self.product < x <= self.product / 2,
            forall|i: int| 0 <= i < LIMBS ==> (x as int) % (#[trigger] self.ch[i].q as int) == r[i],
    {
        let x = self.lift_coeff(r);
        if x > self.product / 2 {
            proof {
                assert forall|i: int| 0 <= i < LIMBS implies ((x - self.product) as int) % (
                #[trigger] self.ch[i].q as int) == r[i] by {
                    let qs = self.moduli();
                    assert(qs[i] == self.ch[i].q);
                    assert forall|j: int| 0 <= j < qs.len() implies #[trigger] qs[j] > 1 by {
                        assert(qs[j] == self.ch[j].q);
                    }
                    lemma_moduli_product_divisible(qs, i, LIMBS as nat);
                    lemma_fundamental_div_mod(self.product as int, qs[i]);
                    let c = (self.product as int) / qs[i];
                    lemma_mod_multiples_vanish(-c, x as int, qs[i]);
                    assert(qs[i] * (-c) + x == x - self.product) by (nonlinear_arith)
                        requires
                            self.product == qs[i] * c,
                    ;
                }
            }
            x as i128 - self.product as i128
        } else {
            x as i128
        }
    }
}

/// `|x|` as an unsigned word.
fn unsigned_abs32(x: i32) -> (r: u32)
    ensures
        r == (if x < 0 { -(x as int) } else { x as int }),
{
    if x < 0 {
        let r = 0u32.wrapping_sub(x as u32);
        assert(r == -(x as int)) by (bit_vector)
            requires
                x < 0,
                r == (if 0 - (x as u32) < 0 { (0 - (x as u32) + 0x1_0000_0000) as u32 } else { (0 - (x as u32)) as u32 }),
        ;
        r
    } else {
        x as u32
    }
}

fn reduce_i64_channel_scalar<const N: usize>(ring: &Ring32<N>, input: &[i64; N], output: &mut [u32; N])
    requires
        ring.wf(),
    ensures
        forall|i: int| 0 <= i < N ==> #[trigger] final(output)@[i] == (input@[i] as int) % (ring.q as int),
{
    for i in 0..N
        invariant
            ring.wf(),
            forall|j: int| 0 <= j < i ==> #[trigger] output@[j] == (input@[j] as int) % (ring.q as int),
    {
        let value = input[i];
        let v = rem_euclid_i64(value, ring.q as i64);
        proof {
            lemma_mod_bound(value as int, ring.q as int);
        }
        output[i] = v as u32;
    }
}

fn reduce_i64_channel<const N: usize>(ring: &Ring32<N>, input: &[i64; N], output: &mut [u32; N])
    requires
        ring.wf(),
    ensures
        forall|i: int| 0 <= i < N ==> #[trigger] final(output)@[i] == (input@[i] as int) % (ring.q as int),
{
    reduce_i64_channel_scalar(ring, input, output);
}

fn reduce_centered_i32_channel_scalar<const N: usize>(
    ring: &Ring32<N>,
    input: &[i32; N],
    output: &mut [u32; N],
)
    requires
        ring.wf(),
        forall|i: int| 0 <= i < N ==> -(ring.q as int) < #[trigger] input@[i] < ring.q,
    ensures
        forall|i: int| 0 <= i < N ==> #[trigger] final(output)@[i] == (input@[i] as int) % (ring.q as int),
{
    for i in 0..N
        invariant
            ring.wf(),
            forall|j: int| 0 <= j < N ==> -(ring.q as int) < #[trigger] input@[j] < ring.q,
            forall|j: int| 0 <= j < i ==> #[trigger] output@[j] == (input@[j] as int) % (ring.q as int),
    {
        let value = input[i];
        let q = ring.q;
        let negative = 0u32.wrapping_sub(if value < 0 { 1u32 } else { 0u32 });
        let abs = unsigned_abs32(value);
        let lo = value as u32 & !negative;
        let hi = (q - abs) & negative;
        let out = lo | hi;
        assert(out == (if value < 0 { (q - abs) as int } else { value as int })) by (bit_vector)
            requires
                negative == (if value < 0 { 0xffff_ffffu32 } else { 0u32 }),
                lo == value as u32 & !negative,
                hi == (q - abs) as u32 & negative,
                out == lo | hi,
                abs <= q,
        ;
        proof {
            if value < 0 {
                lemma_small_mod((q + value) as nat, q as nat);
                lemma_mod_add_multiples_vanish(value as int, q as int);
            } else {
                lemma_small_mod(value as nat, q as nat);
            }
        }
        output[i] = out;
    }
}

/// Reduce centered signed coefficients, each of magnitude below `q`, into
/// canonical residues.
pub fn reduce_centered_i32_into<const N: usize>(ring: &Ring32<N>, input: &[i32; N], output: &mut [u32; N])
    requires
        ring.wf(),
        forall|i: int| 0 <= i < N ==> -(ring.q as int) < #[trigger] input@[i] < ring.q,
    ensures
        forall|i: int| 0 <= i < N ==> #[trigger] final(output)@[i] == (input@[i] as int) % (ring.q as int),
{
    reduce_centered_i32_channel_scalar(ring, input, output);
}

/// One step of two-channel Garner lifting: with `d = ((r1 − r0) · q0^-1) mod q1`
/// the value `r0 + q0·d` lies below `q0·q1` and has residues `r0` and `r1`.
proof fn lemma_garner2(r0: int, r1: int, q0: int, q1: int, inv: int, delta: int, digit: int)
    requires
        q0 > 1,
        q1 > 1,
        0 <= r0 < q0,
        0 <= r1 < q1,
        (q0 * inv) % q1 == 1,
        delta == (r1 - r0 % q1) % q1,
        digit == (delta * inv) % q1,
    ensures
        0 <= r0 + q0 * digit < q0 * q1,
        (r0 + q0 * digit) % q0 == r0,
        (r0 + q0 * digit) % q1 == r1,
{
    lemma_mod_bound(delta * inv, q1);
    assert(0 <= r0 + q0 * digit < q0 * q1) by (nonlinear_arith)
        requires
            0 <= r0 < q0,
            0 <= digit < q1,
            q0 > 1,
    ;
    lemma_mod_multiples_vanish(digit, r0, q0);
    assert(q0 * digit + r0 == r0 + q0 * digit);
    lemma_small_mod(r0 as nat, q0 as nat);
    // q0·digit ≡ q0·delta·inv = delta·(q0·inv) ≡ delta (mod q1)
    lemma_mul_mod_noop_right(q0, delta * inv, q1);
    assert(q0 * (delta * inv) == delta * (q0 * inv)) by (nonlinear_arith);
    lemma_mul_mod_noop_right(delta, q0 * inv, q1);
    lemma_mod_bound(r1 - r0 % q1, q1);
    lemma_small_mod(delta as nat, q1 as nat);
    assert((q0 * digit) % q1 == delta);
    // delta ≡ r1 − r0 (mod q1)
    lemma_sub_mod_noop(r1, r0, q1);
    lemma_small_mod(r1 as nat, q1 as nat);
    lemma_mod_twice(r0, q1);
    lemma_sub_mod_noop(r1, r0 % q1, q1);
    lemma_add_mod_noop(r0, q0 * digit, q1);
    lemma_add_mod_noop(r0, r1 - r0, q1);
}

/// Adding Montgomery-domain values adds the values they stand for:
/// if `x·R ≡ X` and `y·R ≡ Y` then `((x + y) mod q)·R ≡ X + Y (mod q)`.
proof fn lemma_mont_add(x: int, y: int, xx: int, yy: int, q: int)
    requires
        q > 0,
        (x * 0x1_0000_0000) % q == xx % q,
        (y * 0x1_0000_0000) % q == yy % q,
    ensures
        (((x + y) % q) * 0x1_0000_0000) % q == (xx + yy) % q,
{
    let r: int = 0x1_0000_0000;
    lemma_mul_mod_noop_left(x + y, r, q);
    assert((x + y) * r == x * r + y * r) by (nonlinear_arith);
    lemma_add_mod_noop(x * r, y * r, q);
    lemma_add_mod_noop(xx, yy, q);
}

/// `Σ_{k < m} a[k][i]·b[k][i]`.
pub open spec fn dot_sum<const N: usize>(a: Seq<[u32; N]>, b: Seq<[u32; N]>, i: int, m: nat) -> int
    decreases m,
{
    if m == 0 {
        0
    } else {
        dot_sum(a, b, i, (m - 1) as nat) + a[m - 1][i] * b[m - 1][i]
    }
}

fn pointwise_dot_scalar<const N: usize>(ring: &Ring32<N>, a: &[[u32; N]], b: &[[u32; N]]) -> (out: [u32; N])
    requires
        ring.wf(),
        a@.len() == b@.len(),
        forall|k: int| 0 <= k < a@.len() ==> canonical(ints32((#[trigger] a@[k])@), ring.q as int),
        forall|k: int| 0 <= k < b@.len() ==> canonical(ints32((#[trigger] b@[k])@), ring.q as int),
    ensures
        forall|i: int| 0 <= i < N ==> #[trigger] out@[i] == dot_sum(a@, b@, i, a@.len()) % (ring.q as int),
{
    let q = ring.q;
    let mut out = [0u32; N];
    for i in 0..N
        invariant
            ring.wf(),
            q == ring.q,
            a@.len() == b@.len(),
            forall|k: int| 0 <= k < a@.len() ==> canonical(ints32((#[trigger] a@[k])@), ring.q as int),
            forall|k: int| 0 <= k < b@.len() ==> canonical(ints32((#[trigger] b@[k])@), ring.q as int),
            forall|j: int| 0 <= j < i ==> #[trigger] out@[j] == dot_sum(a@, b@, j, a@.len()) % (q as int),
    {
        let mut mont_acc = 0u32;
        proof {
            lemma_small_mod(0, q as nat);
        }
        for k in 0..a.len()
            invariant
                ring.wf(),
                q == ring.q,
                i < N,
                a@.len() == b@.len(),
                forall|k: int| 0 <= k < a@.len() ==> canonical(ints32((#[trigger] a@[k])@), ring.q as int),
                forall|k: int| 0 <= k < b@.len() ==> canonical(ints32((#[trigger] b@[k])@), ring.q as int),
                mont_acc < q,
                (mont_acc * 0x1_0000_0000) % (q as int) == dot_sum(a@, b@, i as int, k as nat) % (q as int),
        {
            let x = a[k][i];
            let y = b[k][i];
            proof {
                assert(ints32(a@[k as int]@)[i as int] == x);
                assert(ints32(b@[k as int]@)[i as int] == y);
                assert(x * y < q * 0x1_0000_0000) by (nonlinear_arith)
                    requires
                        x < q,
                        y < q,
                        q < 0x1_0000_0000,
                ;
            }
            let mm = mont_mul(x, y, ring);
            let ghost old_acc = mont_acc;
            mont_acc = add_mod(mont_acc, mm, q);
            proof {
                lemma_mont_add(old_acc as int, mm as int, dot_sum(a@, b@, i as int, k as nat), x * y, q as int);
                lemma_mod_bound(old_acc + mm, q as int);
            }
        }
        proof {
            assert(mont_acc * ring.r2 < q * 0x1_0000_0000) by (nonlinear_arith)
                requires
                    mont_acc < q,
                    ring.r2 < q,
                    q < 0x1_0000_0000,
            ;
        }
        let v = mont_mul(mont_acc, ring.r2, ring);
        proof {
            lemma_mont_twice(dot_sum(a@, b@, i as int, a@.len()), mont_acc as int, ring.r2 as int, v as int, q as int);
            lemma_small_mod(v as nat, q as nat);
        }
        out[i] = v;
    }
    out
}

/// `out[i] = Σ_k a[k][i]·b[k][i] (mod q)` for canonical inputs.
pub fn pointwise_dot<const N: usize>(ring: &Ring32<N>, a: &[[u32; N]], b: &[[u32; N]]) -> (out: [u32; N])
    requires
        ring.wf(),
        a@.len() == b@.len(),
        forall|k: int| 0 <= k < a@.len() ==> canonical(ints32((#[trigger] a@[k])@), ring.q as int),
        forall|k: int| 0 <= k < b@.len() ==> canonical(ints32((#[trigger] b@[k])@), ring.q as int),
    ensures
        forall|i: int| 0 <= i < N ==> #[trigger] out@[i] == dot_sum(a@, b@, i, a@.len()) % (ring.q as int),
{
    pointwise_dot_scalar(ring, a, b)
}

/// `Σ_{k < m} a[k][ch][i]·b[k][ch][i]`.
pub open spec fn mac_sum<const N: usize, const LIMBS: usize>(
    a: Seq<&[[u32; N]; LIMBS]>,
    b: Seq<&[[u32; N]; LIMBS]>,
    ch: int,
    i: int,
    m: nat,
) -> int
    decreases m,
{
    if m == 0 {
        0
    } else {
        mac_sum(a, b, ch, i, (m - 1) as nat) + a[m - 1][ch][i] * b[m - 1][ch][i]
    }
}

/// Every operand's channel `ch` is canonical for `q`.
pub open spec fn operands_canonical<const N: usize, const LIMBS: usize>(
    a: Seq<&[[u32; N]; LIMBS]>,
    ch: int,
    q: int,
) -> bool {
    forall|k: int| 0 <= k < a.len() ==> canonical(ints32((#[trigger] a[k])[ch]@), q)
}

fn pointwise_mac_scalar<const N: usize, const LIMBS: usize>(
    ring: &Ring32<N>,
    acc: &mut [u32; N],
    a: &[&Residues<N, LIMBS>],
    b: &[&Residues<N, LIMBS>],
    ch: usize,
)
    requires
        ring.wf(),
        ch < LIMBS,
        a@.len() == b@.len(),
        canonical(ints32(old(acc)@), ring.q as int),
        operands_canonical(a@, ch as int, ring.q as int),
        operands_canonical(b@, ch as int, ring.q as int),
    ensures
        forall|i: int|
            0 <= i < N ==> #[trigger] final(acc)@[i] == (old(acc)@[i] + mac_sum(
                a@,
                b@,
                ch as int,
                i,
                a@.len(),
            )) % (ring.q as int),
{
    let q = ring.q;
    let mut mont_acc = [0u32; N];
    proof {
        lemma_small_mod(0, q as nat);
    }
    for k in 0..a.len()
        invariant
            ring.wf(),
            q == ring.q,
            ch < LIMBS,
            a@.len() == b@.len(),
            operands_canonical(a@, ch as int, q as int),
            operands_canonical(b@, ch as int, q as int),
            forall|i: int|
                0 <= i < N ==> #[trigger] mont_acc@[i] < q && (mont_acc@[i] * 0x1_0000_0000) % (
                q as int) == mac_sum(a@, b@, ch as int, i, k as nat) % (q as int),
    {
        let av = a[k];
        let bv = b[k];
        for i in 0..N
            invariant
                ring.wf(),
                q == ring.q,
                ch < LIMBS,
                k < a@.len(),
                a@.len() == b@.len(),
                av == a@[k as int],
                bv == b@[k as int],
                operands_canonical(a@, ch as int, q as int),
                operands_canonical(b@, ch as int, q as int),
                forall|j: int|
                    0 <= j < N ==> #[trigger] mont_acc@[j] < q && (mont_acc@[j] * 0x1_0000_0000) % (
                    q as int) == mac_sum(a@, b@, ch as int, j, (if j < i { k + 1 } else { k as int }) as nat)
                        % (q as int),
        {
            let x = av[ch][i];
            let y = bv[ch][i];
            proof {
                assert(ints32(a@[k as int][ch as int]@)[i as int] == x);
                assert(ints32(b@[k as int][ch as int]@)[i as int] == y);
                assert(x * y < q * 0x1_0000_0000) by (nonlinear_arith)
                    requires
                        x < q,
                        y < q,
                        q < 0x1_0000_0000,
                ;
            }
            let mm = mont_mul(x, y, ring);
            let ghost old_acc = mont_acc@[i as int];
            mont_acc[i] = add_mod(mont_acc[i], mm, q);
            proof {
                lemma_mont_add(old_acc as int, mm as int, mac_sum(a@, b@, ch as int, i as int, k as nat), x * y, q as int);
                lemma_mod_bound(old_acc + mm, q as int);
            }
        }
    }
    for i in 0..N
        invariant
            ring.wf(),
            q == ring.q,
            canonical(ints32(old(acc)@), ring.q as int),
            forall|j: int|
                0 <= j < N ==> #[trigger] mont_acc@[j] < q && (mont_acc@[j] * 0x1_0000_0000) % (
                q as int) == mac_sum(a@, b@, ch as int, j, a@.len()) % (q as int),
            forall|j: int|
                0 <= j < N ==> #[trigger] acc@[j] == (if j < i {
                    (old(acc)@[j] + mac_sum(a@, b@, ch as int, j, a@.len())) % (q as int)
                } else {
                    old(acc)@[j] as int
                }),
    {
        let m = mont_acc[i];
        proof {
            assert(m * ring.r2 < q * 0x1_0000_0000) by (nonlinear_arith)
                requires
                    m < q,
                    ring.r2 < q,
                    q < 0x1_0000_0000,
            ;
            assert(ints32(old(acc)@)[i as int] == acc@[i as int]);
        }
        let v = mont_mul(m, ring.r2, ring);
        proof {
            let s = mac_sum(a@, b@, ch as int, i as int, a@.len());
            lemma_mont_twice(s, m as int, ring.r2 as int, v as int, q as int);
            lemma_small_mod(v as nat, q as nat);
            lemma_add_mod_noop_right(acc@[i as int] as int, s, q as int);
        }
        acc[i] = add_mod(acc[i], v, q);
    }
}

/// `acc[i] += Σ_k a[k][ch][i]·b[k][ch][i] (mod q)` for canonical inputs.
pub fn pointwise_mac<const N: usize, const LIMBS: usize>(
    ring: &Ring32<N>,
    acc: &mut [u32; N],
    a: &[&Residues<N, LIMBS>],
    b: &[&Residues<N, LIMBS>],
    ch: usize,
)
    requires
        ring.wf(),
        ch < LIMBS,
        a@.len() == b@.len(),
        canonical(ints32(old(acc)@), ring.q as int),
        operands_canonical(a@, ch as int, ring.q as int),
        operands_canonical(b@, ch as int, ring.q as int),
    ensures
        forall|i: int|
            0 <= i < N ==> #[trigger] final(acc)@[i] == (old(acc)@[i] + mac_sum(
                a@,
                b@,
                ch as int,
                i,
                a@.len(),
            )) % (ring.q as int),
{
    pointwise_mac_scalar(ring, acc, a, b, ch);
}

impl<const N: usize, const LIMBS: usize> Rns<N, LIMBS> {
    /// Reduce signed coefficients into canonical residues for every channel.
    pub fn reduce_i64_into(&self, input: &[i64; N], output: &mut Residues<N, LIMBS>)
        requires
            self.channels_wf(),
        ensures
            forall|c: int, i: int|
                0 <= c < LIMBS && 0 <= i < N ==> #[trigger] final(output)[c][i] == (input@[i] as int)
                    % (self.ch[c].q as int),
    {
        for c in 0..LIMBS
            invariant
                self.channels_wf(),
                forall|d: int, i: int|
                    0 <= d < c && 0 <= i < N ==> #[trigger] output[d][i] == (input@[i] as int) % (
                    self.ch[d].q as int),
        {
            let mut channel = output[c];
            reduce_i64_channel(&self.ch[c], input, &mut channel);
            output[c] = channel;
        }
    }

    /// Reduce centered coefficients into every channel. Each coefficient's
    /// magnitude must be smaller than every channel modulus.
    pub fn reduce_centered_i32_into(&self, input: &[i32; N], output: &mut Residues<N, LIMBS>)
        requires
            self.channels_wf(),
            forall|c: int, i: int|
                0 <= c < LIMBS && 0 <= i < N ==> -(self.ch[c].q as int) < #[trigger] input@[i] < (
                #[trigger] self.ch[c]).q,
        ensures
            forall|c: int, i: int|
                0 <= c < LIMBS && 0 <= i < N ==> #[trigger] final(output)[c][i] == (input@[i] as int)
                    % (self.ch[c].q as int),
    {
        for c in 0..LIMBS
            invariant
                self.channels_wf(),
                forall|d: int, i: int|
                    0 <= d < LIMBS && 0 <= i < N ==> -(self.ch[d].q as int) < #[trigger] input@[i] < (
                    #[trigger] self.ch[d]).q,
                forall|d: int, i: int|
                    0 <= d < c && 0 <= i < N ==> #[trigger] output[d][i] == (input@[i] as int) % (
                    self.ch[d].q as int),
        {
            let mut channel = output[c];
            proof {
                assert forall|i: int| 0 <= i < N implies -(self.ch[c as int].q as int) < #[trigger] input@[i]
                    < self.ch[c as int].q by {
                    let r = self.ch[c as int];
                }
            }
            reduce_centered_i32_into(&self.ch[c], input, &mut channel);
            output[c] = channel;
        }
    }

    pub fn forward(&self, res: &mut Residues<N, LIMBS>)
        requires
            self.channels_wf(),
            is_power_of_two(N as nat),
            self.residues_canonical(*old(res)),
        ensures
            forall|c: int|
                0 <= c < LIMBS ==> ints32((#[trigger] final(res)[c])@) == self.ch[c].forward_spec(
                    ints32(old(res)[c]@),
                ),
            self.residues_canonical(*final(res)),
    {
        let ghost r0 = *res;
        for c in 0..LIMBS
            invariant
                self.channels_wf(),
                is_power_of_two(N as nat),
                self.residues_canonical(r0),
                forall|d: int|
                    0 <= d < c ==> ints32((#[trigger] res[d])@) == self.ch[d].forward_spec(
                        ints32(r0[d]@),
                    ) && canonical(ints32(res[d]@), self.ch[d].q as int),
                forall|d: int| c <= d < LIMBS ==> #[trigger] res[d] == r0[d],
        {
            let mut channel = res[c];
            assert(self.ch[c as int].wf());
            ntt(&self.ch[c], &mut channel);
            res[c] = channel;
        }
    }

    pub fn inverse(&self, res: &mut Residues<N, LIMBS>)
        requires
            self.channels_wf(),
            is_power_of_two(N as nat),
            self.residues_canonical(*old(res)),
        ensures
            forall|c: int|
                0 <= c < LIMBS ==> ints32((#[trigger] final(res)[c])@) == self.ch[c].inverse_spec(
                    ints32(old(res)[c]@),
                ),
            self.residues_canonical(*final(res)),
    {
        let ghost r0 = *res;
        for c in 0..LIMBS
            invariant
                self.channels_wf(),
                is_power_of_two(N as nat),
                self.residues_canonical(r0),
                forall|d: int|
                    0 <= d < c ==> ints32((#[trigger] res[d])@) == self.ch[d].inverse_spec(
                        ints32(r0[d]@),
                    ) && canonical(ints32(res[d]@), self.ch[d].q as int),
                forall|d: int| c <= d < LIMBS ==> #[trigger] res[d] == r0[d],
        {
            let mut channel = res[c];
            assert(self.ch[c as int].wf());
            inv_ntt(&self.ch[c], &mut channel);
            res[c] = channel;
        }
    }

    pub fn add_assign(&self, lhs: &mut Residues<N, LIMBS>, rhs: &Residues<N, LIMBS>)
        requires
            self.channels_wf(),
            self.residues_canonical(*old(lhs)),
            self.residues_canonical(*rhs),
        ensures
            forall|c: int, i: int|
                0 <= c < LIMBS && 0 <= i < N ==> #[trigger] final(lhs)[c][i] == (old(lhs)[c][i]
                    + rhs[c][i]) % (self.ch[c].q as int),
    {
        let ghost l0 = *lhs;
        for c in 0..LIMBS
            invariant
                self.channels_wf(),
                self.residues_canonical(l0),
                self.residues_canonical(*rhs),
                forall|d: int, i: int|
                    0 <= d < c && 0 <= i < N ==> #[trigger] lhs[d][i] == (l0[d][i] + rhs[d][i]) % (
                    self.ch[d].q as int),
                forall|d: int| c <= d < LIMBS ==> #[trigger] lhs[d] == l0[d],
        {
            let mut channel = lhs[c];
            assert(self.ch[c as int].wf());
            add_assign(&self.ch[c], &mut channel, &rhs[c]);
            lhs[c] = channel;
        }
    }

    pub fn sub_assign(&self, lhs: &mut Residues<N, LIMBS>, rhs: &Residues<N, LIMBS>)
        requires
            self.channels_wf(),
            self.residues_canonical(*old(lhs)),
            self.residues_canonical(*rhs),
        ensures
            forall|c: int, i: int|
                0 <= c < LIMBS && 0 <= i < N ==> #[trigger] final(lhs)[c][i] == (old(lhs)[c][i]
                    - rhs[c][i]) % (self.ch[c].q as int),
    {
        let ghost l0 = *lhs;
        for c in 0..LIMBS
            invariant
                self.channels_wf(),
                self.residues_canonical(l0),
                self.residues_canonical(*rhs),
                forall|d: int, i: int|
                    0 <= d < c && 0 <= i < N ==> #[trigger] lhs[d][i] == (l0[d][i] - rhs[d][i]) % (
                    self.ch[d].q as int),
                forall|d: int| c <= d < LIMBS ==> #[trigger] lhs[d] == l0[d],
        {
            let mut channel = lhs[c];
            assert(self.ch[c as int].wf());
            sub_assign(&self.ch[c], &mut channel, &rhs[c]);
            lhs[c] = channel;
        }
    }

    pub fn pointwise_mul(&self, lhs: &Residues<N, LIMBS>, rhs: &Residues<N, LIMBS>) -> (out:
        Residues<N, LIMBS>)
        requires
            self.channels_wf(),
            self.residues_canonical(*lhs),
            self.residues_canonical(*rhs),
        ensures
            forall|c: int|
                0 <= c < LIMBS ==> ints32((#[trigger] out[c])@) == pointwise_spec(
                    ints32(lhs[c]@),
                    ints32(rhs[c]@),
                    self.ch[c].q as int,
                ),
    {
        let mut out = [[0u32; N]; LIMBS];
        for c in 0..LIMBS
            invariant
                self.channels_wf(),
                self.residues_canonical(*lhs),
                self.residues_canonical(*rhs),
                forall|d: int|
                    0 <= d < c ==> ints32((#[trigger] out[d])@) == pointwise_spec(
                        ints32(lhs[d]@),
                        ints32(rhs[d]@),
                        self.ch[d].q as int,
                    ),
        {
            assert(self.ch[c as int].wf());
            out[c] = pointwise_mul(&self.ch[c], &lhs[c], &rhs[c]);
        }
        out
    }

    /// `acc[c][i] += Σ_k a[k][c][i]·b[k][c][i] (mod q_c)` in every channel.
    pub fn pointwise_mac(
        &self,
        acc: &mut Residues<N, LIMBS>,
        a: &[&Residues<N, LIMBS>],
        b: &[&Residues<N, LIMBS>],
    )
        requires
            self.channels_wf(),
            a@.len() == b@.len(),
            self.residues_canonical(*old(acc)),
            forall|c: int| 0 <= c < LIMBS ==> operands_canonical(a@, c, (#[trigger] self.ch[c]).q as int),
            forall|c: int| 0 <= c < LIMBS ==> operands_canonical(b@, c, (#[trigger] self.ch[c]).q as int),
        ensures
            forall|c: int, i: int|
                0 <= c < LIMBS && 0 <= i < N ==> #[trigger] final(acc)[c][i] == (old(acc)[c][i]
                    + mac_sum(a@, b@, c, i, a@.len())) % (self.ch[c].q as int),
    {
        let ghost a0 = *acc;
        for c in 0..LIMBS
            invariant
                self.channels_wf(),
                a@.len() == b@.len(),
                self.residues_canonical(a0),
                forall|c: int| 0 <= c < LIMBS ==> operands_canonical(a@, c, (#[trigger] self.ch[c]).q as int),
                forall|c: int| 0 <= c < LIMBS ==> operands_canonical(b@, c, (#[trigger] self.ch[c]).q as int),
                forall|d: int, i: int|
                    0 <= d < c && 0 <= i < N ==> #[trigger] acc[d][i] == (a0[d][i] + mac_sum(
                        a@,
                        b@,
                        d,
                        i,
                        a@.len(),
                    )) % (self.ch[d].q as int),
                forall|d: int| c <= d < LIMBS ==> #[trigger] acc[d] == a0[d],
        {
            let mut channel = acc[c];
            assert(self.ch[c as int].wf());
            pointwise_mac(&self.ch[c], &mut channel, a, b, c);
            acc[c] = channel;
        }
    }

    /// One step of uniform sampling in channel `c`: a random word below the
    /// channel's threshold yields the residue `v mod q`, any other word is
    /// rejected and must be redrawn.
    pub fn sample_residue(&self, c: usize, v: u32) -> (r: Option<u32>)
        requires
            c < LIMBS,
            self.ch[c as int].q > 0,
        ensures
            r == (if v < self.sample_threshold[c as int] {
                Some((v % self.ch[c as int].q) as u32)
            } else {
                None::<u32>
            }),
    {
        if v >= self.sample_threshold[c] {
            None
        } else {
            Some(v % self.ch[c].q)
        }
    }
}

fn lift_centered_i64_rns2_scalar<const N: usize>(
    ring: &Rns<N, 2>,
    input: &Residues<N, 2>,
    output: &mut [i64; N],
)
    requires
        ring.wf(),
        ring.channels_wf(),
        ring.product <= i64::MAX,
        ring.residues_canonical(*input),
    ensures
        forall|i: int|
            0 <= i < N ==> ring.product / 2 - ring.product < #[trigger] final(output)@[i]
                <= ring.product / 2,
        forall|i: int|
            0 <= i < N ==> (#[trigger] final(output)@[i] as int) % (ring.ch[0].q as int) == input[0][i]
                && (final(output)@[i] as int) % (ring.ch[1].q as int) == input[1][i],
{
    let q0 = ring.ch[0].q;
    let q1 = ring.ch[1].q;
    proof {
        let qs = ring.moduli();
        assert(qs[0] == q0 && qs[1] == q1);
        assert(moduli_product(qs, 0) == 1);
        assert(moduli_product(qs, 1) == q0);
        assert(moduli_product(qs, 2) == q0 * q1);
        assert(ring.prefix_products[1] == q0);
        assert(ring.ch[1].wf());
        assert(q0 * q1 <= 0xffff_ffff * 0xffff_ffff) by (nonlinear_arith)
            requires
                q0 <= 0xffff_ffff,
                q1 <= 0xffff_ffff,
        ;
    }
    let product = q0 as u64 * q1 as u64;
    let inv = ring.prefix_inverses[1];
    for i in 0..N
        invariant
            ring.wf(),
            ring.channels_wf(),
            ring.product <= i64::MAX,
            ring.residues_canonical(*input),
            q0 == ring.ch[0].q,
            q1 == ring.ch[1].q,
            inv == ring.prefix_inverses[1],
            inv < q1,
            (q0 * inv) % (q1 as int) == 1,
            product == ring.product,
            product == q0 * q1,
            forall|j: int|
                0 <= j < i ==> ring.product / 2 - ring.product < #[trigger] output@[j]
                    <= ring.product / 2,
            forall|j: int|
                0 <= j < i ==> (#[trigger] output@[j] as int) % (ring.ch[0].q as int)
                    == input[0][j] && (output@[j] as int) % (ring.ch[1].q as int) == input[1][j],
    {
        let r0 = input[0][i];
        let r1 = input[1][i];
        proof {
            assert(ints32(input[0]@)[i as int] == r0);
            assert(ints32(input[1]@)[i as int] == r1);
            assert(ring.ch[1].wf());
            lemma_mod_bound(r0 as int, q1 as int);
        }
        let r0_mod_q1 = r0 % q1;
        let delta = sub_mod(r1, r0_mod_q1, q1);
        proof {
            lemma_mod_bound(r1 - r0_mod_q1, q1 as int);
        }
        let digit = mul_mod(delta, inv, &ring.ch[1]);
        proof {
            lemma_garner2(r0 as int, r1 as int, q0 as int, q1 as int, inv as int, delta as int, digit as int);
        }
        let value = r0 as u64 + q0 as u64 * digit as u64;
        let out: i64 = if value > product / 2 {
            proof {
                assert forall|c: int| 0 <= c < 2 implies ((value - product) as int) % (
                #[trigger] ring.ch[c].q as int) == input[c][i as int] by {
                    if c == 0 {
                        lemma_mod_multiples_vanish(-(q1 as int), value as int, q0 as int);
                        assert(q0 * (-(q1 as int)) + value == value - product) by (nonlinear_arith)
                            requires
                                product == q0 * q1,
                        ;
                    } else {
                        lemma_mod_multiples_vanish(-(q0 as int), value as int, q1 as int);
                        assert(q1 * (-(q0 as int)) + value == value - product) by (nonlinear_arith)
                            requires
                                product == q0 * q1,
                        ;
                    }
                }
            }
            value as i64 - product as i64
        } else {
            value as i64
        };
        output[i] = out;
    }
}

fn lift_centered_i64_rns2<const N: usize>(
    ring: &Rns<N, 2>,
    input: &Residues<N, 2>,
    output: &mut [i64; N],
)
    requires
        ring.wf(),
        ring.channels_wf(),
        ring.product <= i64::MAX,
        ring.residues_canonical(*input),
    ensures
        forall|i: int|
            0 <= i < N ==> ring.product / 2 - ring.product < #[trigger] final(output)@[i]
                <= ring.product / 2,
        forall|i: int|
            0 <= i < N ==> (#[trigger] final(output)@[i] as int) % (ring.ch[0].q as int) == input[0][i]
                && (final(output)@[i] as int) % (ring.ch[1].q as int) == input[1][i],
{
    lift_centered_i64_rns2_scalar(ring, input, output);
}

impl<const N: usize, const LIMBS: usize> Rns<N, LIMBS> {
    /// `inverse` undoes `forward` in every channel whose tables are valid.
    pub proof fn lemma_rns_roundtrip(&self, r: Residues<N, LIMBS>)
        requires
            self.channels_wf(),
            forall|c: int| 0 <= c < LIMBS ==> (#[trigger] self.ch[c]).inverse_valid(),
            self.residues_canonical(r),
        ensures
            forall|c: int|
                0 <= c < LIMBS ==> (#[trigger] self.ch[c]).inverse_spec(
                    self.ch[c].forward_spec(ints32(r[c]@)),
                ) == ints32(r[c]@),
    {
        assert forall|c: int| 0 <= c < LIMBS implies (#[trigger] self.ch[c]).inverse_spec(
            self.ch[c].forward_spec(ints32(r[c]@)),
        ) == ints32(r[c]@) by {
            assert(self.ch[c].wf());
            lemma_ntt_roundtrip(&self.ch[c], ints32(r[c]@));
        }
    }

    /// In every channel, `inverse(pointwise_mul(forward(a), forward(b)))` is
    /// the negacyclic product of `a` and `b` modulo that channel's modulus.
    pub proof fn lemma_rns_convolution(&self, a: Residues<N, LIMBS>, b: Residues<N, LIMBS>)
        requires
            self.channels_wf(),
            forall|c: int|
                0 <= c < LIMBS ==> (#[trigger] self.ch[c]).inverse_valid()
                    && self.ch[c].roots_valid(),
            self.residues_canonical(a),
            self.residues_canonical(b),
        ensures
            forall|c: int|
                0 <= c < LIMBS ==> (#[trigger] self.ch[c]).inverse_spec(
                    pointwise_spec(
                        self.ch[c].forward_spec(ints32(a[c]@)),
                        self.ch[c].forward_spec(ints32(b[c]@)),
                        self.ch[c].q as int,
                    ),
                ) == negacyclic_mul(ints32(a[c]@), ints32(b[c]@), self.ch[c].q as int),
    {
        assert forall|c: int| 0 <= c < LIMBS implies (#[trigger] self.ch[c]).inverse_spec(
            pointwise_spec(
                self.ch[c].forward_spec(ints32(a[c]@)),
                self.ch[c].forward_spec(ints32(b[c]@)),
                self.ch[c].q as int,
            ),
        ) == negacyclic_mul(ints32(a[c]@), ints32(b[c]@), self.ch[c].q as int) by {
            assert(self.ch[c].wf());
            lemma_ntt_convolution(&self.ch[c], ints32(a[c]@), ints32(b[c]@));
        }
    }

    /// Multiply-accumulating one pair into a zero accumulator gives the
    /// pointwise product.
    pub proof fn lemma_mac_one_pair(&self, a: Residues<N, LIMBS>, b: Residues<N, LIMBS>)
        requires
            self.channels_wf(),
        ensures
            forall|c: int, i: int|
                0 <= c < LIMBS && 0 <= i < N ==> (0 + #[trigger] mac_sum(seq![&a], seq![&b], c, i, 1))
                    % (self.ch[c].q as int) == pointwise_spec(
                    ints32(a[c]@),
                    ints32(b[c]@),
                    self.ch[c].q as int,
                )[i],
    {
        assert forall|c: int, i: int| 0 <= c < LIMBS && 0 <= i < N implies (0 + #[trigger] mac_sum(
            seq![&a],
            seq![&b],
            c,
            i,
            1,
        )) % (self.ch[c].q as int) == pointwise_spec(
            ints32(a[c]@),
            ints32(b[c]@),
            self.ch[c].q as int,
        )[i] by {
            assert(mac_sum(seq![&a], seq![&b], c, i, 0) == 0);
        }
    }
}

impl<const N: usize> Rns<N, 2> {
    /// The two-limb `i64` reconstruction agrees with the generic centered
    /// Garner lift: both give the value in `(product/2 − product, product/2]`
    /// with the given residues.
    pub proof fn lemma_two_limb_lifts_agree(&self, r: [u32; 2], x: int, y: int)
        requires
            self.wf(),
            self.product / 2 - self.product < x <= self.product / 2,
            x % (self.ch[0].q as int) == r[0] && x % (self.ch[1].q as int) == r[1],
            self.product / 2 - self.product < y <= self.product / 2,
            forall|i: int| 0 <= i < 2 ==> y % (#[trigger] self.ch[i].q as int) == r[i],
        ensures
            x == y,
    {
        assert forall|j: int| 0 <= j < 2 implies x % (#[trigger] self.ch[j].q as int) == y % (
        self.ch[j].q as int) by {}
        self.lemma_residues_determine(self.product / 2 - self.product + 1, x, y);
    }

    /// Reconstructs canonical two-limb residues into centered `i64` values:
    /// each output is the unique value in `(product/2 − product, product/2]`
    /// with the given residues.
    pub fn lift_centered_i64_into(&self, input: &Residues<N, 2>, output: &mut [i64; N])
        requires
            self.wf(),
            self.channels_wf(),
            self.product <= i64::MAX,
            self.residues_canonical(*input),
        ensures
            forall|i: int|
                0 <= i < N ==> self.product / 2 - self.product < #[trigger] final(output)@[i]
                    <= self.product / 2,
            forall|i: int|
                0 <= i < N ==> (#[trigger] final(output)@[i] as int) % (self.ch[0].q as int)
                    == input[0][i] && (final(output)@[i] as int) % (self.ch[1].q as int)
                    == input[1][i],
    {
        lift_centered_i64_rns2(self, input, output);
    }
}

} // verus!
