//! The negacyclic number-theoretic transform as a mathematical object: the
//! butterfly layers over integer sequences modulo `q`, shared by the 32- and
//! 64-bit rings, and the laws that make it useful.
use vstd::arithmetic::div_mod::*;
use vstd::arithmetic::mul::*;
use super::evaluation::{lemma_peval_linear, lemma_peval_mod, lemma_peval_negacyclic, lemma_peval_single, lemma_peval_split, negacyclic_mul, peval};
use vstd::arithmetic::power::*;
use vstd::arithmetic::power2::*;
use vstd::prelude::*;

verus! {

/// `floor(log2(n))`, with `log2(0) == log2(1) == 0`.
pub open spec fn log2(n: nat) -> nat
    decreases n,
{
    if n <= 1 {
        0
    } else {
        1 + log2(n / 2)
    }
}

pub open spec fn is_power_of_two(n: nat) -> bool {
    n >= 1 && pow2(log2(n)) == n
}

/// The integer values of a sequence of 32-bit words.
pub open spec fn ints32(s: Seq<u32>) -> Seq<int> {
    Seq::new(s.len(), |j: int| s[j] as int)
}

/// The integer values of a sequence of 64-bit words.
pub open spec fn ints64(s: Seq<u64>) -> Seq<int> {
    Seq::new(s.len(), |j: int| s[j] as int)
}

/// Every entry lies in `[0, q)`.
pub open spec fn canonical(s: Seq<int>, q: int) -> bool {
    forall|j: int| 0 <= j < s.len() ==> 0 <= #[trigger] s[j] < q
}

/// Forward layer `l`: the sequence splits into `2^l` blocks of size `t`; in
/// block `i`, with twiddle `w = table[2^l + i]`, each pair `(u, v)` at offsets
/// `o` and `o + t/2` becomes `(u + w·v, u − w·v) mod q`.
pub open spec fn fwd_layer(p: Seq<int>, table: Seq<int>, q: int, l: nat) -> Seq<int> {
    let m = pow2(l) as int;
    let t = p.len() as int / m;
    let h = t / 2;
    Seq::new(
        p.len(),
        |j: int|
            {
                let w = table[m + j / t];
                if j % t < h {
                    (p[j] + w * p[j + h]) % q
                } else {
                    (p[j - h] - w * p[j]) % q
                }
            },
    )
}

/// Forward layers `0 .. k`, in order.
pub open spec fn fwd_layers(p: Seq<int>, table: Seq<int>, q: int, k: nat) -> Seq<int>
    decreases k,
{
    if k == 0 {
        p
    } else {
        fwd_layer(fwd_layers(p, table, q, (k - 1) as nat), table, q, (k - 1) as nat)
    }
}

/// Inverse layer `l`, the Gentleman–Sande butterfly on the blocks of forward
/// layer `l`: `(u, v)` becomes `(u + v, (u − v)·w') mod q` with
/// `w' = itable[2^l + i]`.
pub open spec fn inv_layer(p: Seq<int>, itable: Seq<int>, q: int, l: nat) -> Seq<int> {
    let m = pow2(l) as int;
    let t = p.len() as int / m;
    let h = t / 2;
    Seq::new(
        p.len(),
        |j: int|
            {
                let w = itable[m + j / t];
                if j % t < h {
                    (p[j] + p[j + h]) % q
                } else {
                    ((p[j - h] - p[j]) * w) % q
                }
            },
    )
}

/// Inverse layers `top − 1` down to `top − k`.
pub open spec fn inv_layers(p: Seq<int>, itable: Seq<int>, q: int, top: nat, k: nat) -> Seq<int>
    decreases k,
{
    if k == 0 {
        p
    } else {
        inv_layer(
            inv_layers(p, itable, q, top, (k - 1) as nat),
            itable,
            q,
            (top - k) as nat,
        )
    }
}

/// Every entry multiplied by `c`, modulo `q`.
pub open spec fn scale(p: Seq<int>, c: int, q: int) -> Seq<int> {
    Seq::new(p.len(), |j: int| (c * p[j]) % q)
}

/// The forward negacyclic NTT: all `log2(n)` forward layers.
pub open spec fn ntt_spec(p: Seq<int>, table: Seq<int>, q: int) -> Seq<int> {
    fwd_layers(p, table, q, log2(p.len()))
}

/// The inverse negacyclic NTT: all inverse layers, then scaling by `N^-1`.
pub open spec fn intt_spec(p: Seq<int>, itable: Seq<int>, n_inv: int, q: int) -> Seq<int> {
    scale(inv_layers(p, itable, q, log2(p.len()), log2(p.len())), n_inv, q)
}

/// The coefficient-wise product modulo `q`.
pub open spec fn pointwise_spec(a: Seq<int>, b: Seq<int>, q: int) -> Seq<int> {
    Seq::new(a.len(), |j: int| (a[j] * b[j]) % q)
}

/// A forward layer's entries are reduced modulo `q`.
pub proof fn lemma_fwd_layer_canonical(p: Seq<int>, table: Seq<int>, q: int, l: nat)
    requires
        q > 0,
    ensures
        canonical(fwd_layer(p, table, q, l), q),
{
    let r = fwd_layer(p, table, q, l);
    assert forall|j: int| 0 <= j < r.len() implies 0 <= #[trigger] r[j] < q by {
        let m = pow2(l) as int;
        let t = p.len() as int / m;
        let h = t / 2;
        let w = table[m + j / t];
        lemma_mod_bound(p[j] + w * p[j + h], q);
        lemma_mod_bound(p[j - h] - w * p[j], q);
    }
}

/// An inverse layer's entries are reduced modulo `q`.
pub proof fn lemma_inv_layer_canonical(p: Seq<int>, itable: Seq<int>, q: int, l: nat)
    requires
        q > 0,
    ensures
        canonical(inv_layer(p, itable, q, l), q),
{
    let r = inv_layer(p, itable, q, l);
    assert forall|j: int| 0 <= j < r.len() implies 0 <= #[trigger] r[j] < q by {
        let m = pow2(l) as int;
        let t = p.len() as int / m;
        let h = t / 2;
        let w = itable[m + j / t];
        lemma_mod_bound(p[j] + p[j + h], q);
        lemma_mod_bound((p[j - h] - p[j]) * w, q);
    }
}

/// Twiddle tables that undo each other: `table[k]·itable[k] ≡ 1 (mod q)`
/// for every twiddle index `1 <= k < n`.
pub open spec fn tables_inverse(table: Seq<int>, itable: Seq<int>, q: int, n: nat) -> bool {
    forall|k: int| 1 <= k < n ==> (#[trigger] table[k] * itable[k]) % q == 1
}

pub proof fn lemma_fwd_layers_len(p: Seq<int>, table: Seq<int>, q: int, k: nat)
    ensures
        fwd_layers(p, table, q, k).len() == p.len(),
    decreases k,
{
    if k > 0 {
        lemma_fwd_layers_len(p, table, q, (k - 1) as nat);
    }
}

pub proof fn lemma_fwd_layers_canonical(p: Seq<int>, table: Seq<int>, q: int, k: nat)
    requires
        q > 0,
        canonical(p, q),
    ensures
        canonical(fwd_layers(p, table, q, k), q),
    decreases k,
{
    if k > 0 {
        lemma_fwd_layer_canonical(fwd_layers(p, table, q, (k - 1) as nat), table, q, (k - 1) as nat);
    }
}

/// Within a block of size `t = 2h`, the partner `j + h` of a first-half
/// position `j` sits in the same block, at offset `j % t + h`.
pub proof fn lemma_partner(j: int, t: int, h: int)
    requires
        t > 0,
        t == 2 * h,
        j >= 0,
        j % t < h,
    ensures
        (j + h) / t == j / t,
        (j + h) % t == j % t + h,
{
    lemma_fundamental_div_mod(j, t);
    lemma_mod_bound(j, t);
    let i = j / t;
    assert(i * t <= j + h < i * t + t) by (nonlinear_arith)
        requires
            j == t * i + j % t,
            0 <= j % t < h,
            t == 2 * h,
    ;
    lemma_block_index(j + h, i, t);
    assert(j + h - i * t == j % t + h) by (nonlinear_arith)
        requires
            j == t * i + j % t,
    ;
}

/// The block of a position `j` in a layer of `m` blocks of size `t`.
pub proof fn lemma_in_block(j: int, m: int, t: int, n: int)
    requires
        t > 0,
        m * t == n,
        0 <= j < n,
    ensures
        0 <= j / t < m,
        (j / t) * t <= j < (j / t) * t + t,
        j % t == j - (j / t) * t,
        (j / t) * t + t <= n,
{
    lemma_fundamental_div_mod(j, t);
    lemma_mod_bound(j, t);
    lemma_div_pos_is_pos(j, t);
    let i = j / t;
    assert(j == i * t + j % t) by (nonlinear_arith)
        requires
            j == t * i + j % t,
    ;
    assert(i < m) by (nonlinear_arith)
        requires
            j == i * t + j % t,
            0 <= j % t,
            j < n,
            m * t == n,
            t > 0,
    ;
    assert(i * t + t <= n) by (nonlinear_arith)
        requires
            i < m,
            m * t == n,
            t > 0,
    ;
}

/// An inverse layer undoes the forward layer at the same level, up to a
/// factor of two: `(u + wv) + (u − wv) = 2u` and `((u + wv) − (u − wv))·w' = 2v`.
pub proof fn lemma_layer_roundtrip(p: Seq<int>, table: Seq<int>, itable: Seq<int>, q: int, l: nat)
    requires
        q > 1,
        is_power_of_two(p.len()),
        l < log2(p.len()),
        canonical(p, q),
        tables_inverse(table, itable, q, p.len()),
    ensures
        inv_layer(fwd_layer(p, table, q, l), itable, q, l) == scale(p, 2, q),
{
    let n = p.len();
    let x = fwd_layer(p, table, q, l);
    let y = inv_layer(x, itable, q, l);
    let m = pow2(l) as int;
    let t = n as int / m;
    let h = t / 2;
    lemma_layer_shape(n, l);
    assert forall|j: int| 0 <= j < n implies #[trigger] y[j] == scale(p, 2, q)[j] by {
        lemma_in_block(j, m, t, n as int);
        let i = j / t;
        let w = table[m + i];
        let wi = itable[m + i];
        assert(1 <= m + i < n);
        if j % t < h {
            lemma_partner(j, t, h);
            assert(j + h < n);
            let u = p[j];
            let v = p[j + h];
            assert(x[j] == (u + w * v) % q);
            assert(x[j + h] == (u - w * v) % q);
            lemma_add_mod_noop(u + w * v, u - w * v, q);
            assert(y[j] == (2 * u) % q);
        } else {
            let jj = j - h;
            assert(jj % t < h && jj / t == i && jj >= 0) by {
                assert(i * t <= jj);
                lemma_block_index(jj, i, t);
            }
            lemma_partner(jj, t, h);
            let u = p[jj];
            let v = p[j];
            assert(x[jj] == (u + w * v) % q);
            assert(x[j] == (u - w * v) % q);
            lemma_sub_mod_noop(u + w * v, u - w * v, q);
            assert((table[m + i] * itable[m + i]) % q == 1);
            assert((w * wi) % q == 1);
            lemma_mul_mod_noop_left(x[jj] - x[j], wi, q);
            lemma_mul_mod_noop_left((u + w * v) - (u - w * v), wi, q);
            assert(y[j] == ((x[jj] - x[j]) * wi) % q);
            assert(((u + w * v) - (u - w * v)) * wi == (2 * v) * (w * wi)) by (nonlinear_arith);
            lemma_mul_mod_noop_right(2 * v, w * wi, q);
            assert((2 * v) * 1 == 2 * v);
            assert(y[j] == (2 * v) % q);
        }
    }
    assert(y =~= scale(p, 2, q));
}

/// Inverse layers commute with scaling by a constant.
pub proof fn lemma_inv_layer_scale(x: Seq<int>, itable: Seq<int>, q: int, l: nat, c: int)
    requires
        q > 0,
        is_power_of_two(x.len()),
        l < log2(x.len()),
    ensures
        inv_layer(scale(x, c, q), itable, q, l) == scale(inv_layer(x, itable, q, l), c, q),
{
    let n = x.len();
    let sx = scale(x, c, q);
    let lhs = inv_layer(sx, itable, q, l);
    let rhs = scale(inv_layer(x, itable, q, l), c, q);
    let m = pow2(l) as int;
    let t = n as int / m;
    let h = t / 2;
    lemma_layer_shape(n, l);
    assert forall|j: int| 0 <= j < n implies #[trigger] lhs[j] == rhs[j] by {
        lemma_in_block(j, m, t, n as int);
        let w = itable[m + j / t];
        if j % t < h {
            let a = x[j];
            let b = x[j + h];
            lemma_add_mod_noop(c * a, c * b, q);
            assert(c * a + c * b == c * (a + b)) by (nonlinear_arith);
            lemma_mul_mod_noop_right(c, a + b, q);
        } else {
            let a = x[j - h];
            let b = x[j];
            lemma_sub_mod_noop(c * a, c * b, q);
            lemma_mul_mod_noop_left((c * a) % q - (c * b) % q, w, q);
            lemma_mul_mod_noop_left(c * a - c * b, w, q);
            assert((c * a - c * b) * w == c * ((a - b) * w)) by (nonlinear_arith);
            lemma_mul_mod_noop_right(c, (a - b) * w, q);
        }
    }
    assert(lhs =~= rhs);
}

/// Scaling twice is scaling by the product.
pub proof fn lemma_scale_scale(x: Seq<int>, a: int, b: int, q: int)
    requires
        q > 0,
    ensures
        scale(scale(x, a, q), b, q) == scale(x, b * a, q),
{
    let lhs = scale(scale(x, a, q), b, q);
    let rhs = scale(x, b * a, q);
    assert forall|j: int| 0 <= j < x.len() implies #[trigger] lhs[j] == rhs[j] by {
        lemma_mul_mod_noop_right(b, a * x[j], q);
        assert(b * (a * x[j]) == (b * a) * x[j]) by (nonlinear_arith);
    }
    assert(lhs =~= rhs);
}

/// Scaling by a unit (`c ≡ 1`) fixes canonical sequences.
pub proof fn lemma_scale_unit(x: Seq<int>, c: int, q: int)
    requires
        q > 1,
        c % q == 1,
        canonical(x, q),
    ensures
        scale(x, c, q) == x,
{
    let r = scale(x, c, q);
    assert forall|j: int| 0 <= j < x.len() implies #[trigger] r[j] == x[j] by {
        lemma_mul_mod_noop_left(c, x[j], q);
        lemma_small_mod(x[j] as nat, q as nat);
    }
    assert(r =~= x);
}

/// Running the inverse layers from the top over the fully transformed
/// sequence unwinds the forward layers `k .. L`, leaving `2^(L−k)` times
/// the partial transform after `k` layers.
pub proof fn lemma_unwind(p: Seq<int>, table: Seq<int>, itable: Seq<int>, q: int, k: nat)
    requires
        q > 1,
        is_power_of_two(p.len()),
        k <= log2(p.len()),
        canonical(p, q),
        tables_inverse(table, itable, q, p.len()),
    ensures
        inv_layers(
            ntt_spec(p, table, q),
            itable,
            q,
            log2(p.len()),
            (log2(p.len()) - k) as nat,
        ) == scale(fwd_layers(p, table, q, k), pow2((log2(p.len()) - k) as nat) as int, q),
    decreases log2(p.len()) - k,
{
    let big_l = log2(p.len());
    let fk = fwd_layers(p, table, q, k);
    lemma_fwd_layers_len(p, table, q, k);
    lemma_fwd_layers_canonical(p, table, q, k);
    if k == big_l {
        lemma2_to64();
        lemma_small_mod(1, q as nat);
        lemma_scale_unit(fk, 1, q);
    } else {
        lemma_unwind(p, table, itable, q, k + 1);
        let c = pow2((big_l - k - 1) as nat) as int;
        let inner = inv_layers(ntt_spec(p, table, q), itable, q, big_l, (big_l - k - 1) as nat);
        assert((big_l - (big_l - k)) as nat == k);
        assert(inv_layers(ntt_spec(p, table, q), itable, q, big_l, (big_l - k) as nat) == inv_layer(
            inner,
            itable,
            q,
            k,
        ));
        assert(fwd_layers(p, table, q, k + 1) == fwd_layer(fk, table, q, k));
        lemma_inv_layer_scale(fwd_layer(fk, table, q, k), itable, q, k, c);
        lemma_layer_roundtrip(fk, table, itable, q, k);
        lemma_scale_scale(fk, 2, c, q);
        lemma_pow2_unfold((big_l - k) as nat);
        assert(c * 2 == pow2((big_l - k) as nat));
    }
}

/// The inverse transform undoes the forward transform on canonical input.
pub proof fn lemma_roundtrip(p: Seq<int>, table: Seq<int>, itable: Seq<int>, n_inv: int, q: int)
    requires
        q > 1,
        is_power_of_two(p.len()),
        canonical(p, q),
        tables_inverse(table, itable, q, p.len()),
        (n_inv * p.len()) % q == 1,
    ensures
        intt_spec(ntt_spec(p, table, q), itable, n_inv, q) == p,
{
    let big_l = log2(p.len());
    lemma_unwind(p, table, itable, q, 0);
    lemma_fwd_layers_len(p, table, q, big_l);
    assert(fwd_layers(p, table, q, 0) == p);
    lemma_scale_scale(p, pow2(big_l) as int, n_inv, q);
    assert(n_inv * pow2(big_l) as int == n_inv * p.len());
    lemma_scale_unit(p, n_inv * pow2(big_l) as int, q);
}

/// Twiddles forming a chain of square roots of `−1`: `table[1]^2 ≡ −1` and,
/// for every `k >= 1` with `2k + 1 < n`, `table[2k]^2 ≡ table[k]` and
/// `table[2k + 1]^2 ≡ −table[k]` (mod `q`). Powers of a primitive `2n`-th
/// root of unity in bit-reversed order have this shape.
pub open spec fn negacyclic_roots(table: Seq<int>, q: int, n: nat) -> bool {
    &&& (n >= 2 ==> (table[1] * table[1] + 1) % q == 0)
    &&& forall|k: int|
        1 <= k && 2 * k + 1 < n ==> (#[trigger] table[2 * k] * table[2 * k] - table[k]) % q == 0
            && (table[2 * k + 1] * table[2 * k + 1] + table[k]) % q == 0
}

/// The point block `i` stands for after `k` forward layers: block `i` of
/// layer `k` holds the input reduced modulo `x^t − block_root(k, i)`.
pub open spec fn block_root(table: Seq<int>, k: nat, i: int) -> int {
    if k == 0 {
        -1
    } else {
        let w = table[pow2((k - 1) as nat) + i / 2];
        if i % 2 == 0 {
            w
        } else {
            -w
        }
    }
}

/// Block `i` of size `t`.
pub open spec fn block(s: Seq<int>, t: int, i: int) -> Seq<int> {
    s.subrange(i * t, i * t + t)
}

/// Congruent values have congruent squares.
pub proof fn lemma_square_congruent(a: int, b: int, q: int)
    requires
        q > 0,
        (a - b) % q == 0,
    ensures
        (a * a - b * b) % q == 0,
{
    assert(a * a - b * b == (a - b) * (a + b)) by (nonlinear_arith);
    lemma_mul_mod_noop_left(a - b, a + b, q);
    assert(0 * (a + b) == 0);
    lemma_small_mod(0, q as nat);
}

/// The twiddle of block `i` of layer `k − 1` squares to that block's point.
proof fn lemma_twiddle_square(table: Seq<int>, q: int, n: nat, k: nat, i: int)
    requires
        q > 0,
        is_power_of_two(n),
        1 <= k <= log2(n),
        0 <= i < pow2(k),
        negacyclic_roots(table, q, n),
    ensures
        ({
            let w = table[pow2((k - 1) as nat) + i / 2];
            (w * w - block_root(table, (k - 1) as nat, i / 2)) % q == 0
        }),
{
    let k1 = (k - 1) as nat;
    let w = table[pow2(k1) + i / 2];
    lemma_pow2_unfold(k);
    lemma_layer_shape(n, k1);
    assert(pow2(k1) + i / 2 < n);
    if k1 == 0 {
        lemma2_to64();
        assert(i / 2 == 0);
        assert(pow2(k1) + i / 2 == 1);
    } else {
        let i2 = i / 2;
        let kk = pow2((k1 - 1) as nat) + i2 / 2;
        lemma_pow2_unfold(k1);
        assert(pow2(k1) + i2 == 2 * kk + i2 % 2);
        assert(1 <= kk);
        assert(2 * kk + 1 < n);
        let r = table[kk];
        assert((table[2 * kk] * table[2 * kk] - table[kk]) % q == 0);
        if i2 % 2 == 0 {
            assert(block_root(table, k1, i2) == r);
        } else {
            assert(block_root(table, k1, i2) == -r);
            assert(table[2 * kk + 1] * table[2 * kk + 1] - (-r) == table[2 * kk + 1] * table[2
                * kk + 1] + r);
        }
    }
}

/// After `k` forward layers, block `i` (size `t = n/2^k`) agrees with the
/// input at every point `y` with `y^t ≡ block_root(k, i)`, and every such
/// point satisfies `y^n ≡ −1` (mod `q`).
pub proof fn lemma_block_eval(p: Seq<int>, table: Seq<int>, q: int, k: nat, i: int, y: int)
    requires
        q > 1,
        is_power_of_two(p.len()),
        k <= log2(p.len()),
        0 <= i < pow2(k),
        negacyclic_roots(table, q, p.len()),
        (pow(y, p.len() / pow2(k)) - block_root(table, k, i)) % q == 0,
    ensures
        (peval(block(fwd_layers(p, table, q, k), (p.len() / pow2(k)) as int, i), y) - peval(p, y))
            % q == 0,
        (pow(y, p.len()) + 1) % q == 0,
    decreases k,
{
    let n = p.len();
    lemma_pow2_pos(k);
    if k == 0 {
        lemma2_to64();
        lemma_div_basics(n as int);
        assert(n / pow2(0) == n);
        assert(block(fwd_layers(p, table, q, 0), n as int, 0) =~= p);
        assert(pow(y, n) - (-1) == pow(y, n) + 1);
        lemma_small_mod(0, q as nat);
    } else {
        let k1 = (k - 1) as nat;
        let t = (n / pow2(k)) as int;
        let tt = (n / pow2(k1)) as int;
        let i2 = i / 2;
        lemma_layer_shape(n, k1);
        lemma_pow2_unfold(k);
        assert(tt == 2 * t) by {
            vstd::arithmetic::div_mod::lemma_div_denominator(n as int, pow2(k1) as int, 2);
        }
        assert(0 <= i2 < pow2(k1));
        let w = table[pow2(k1) + i2];
        let root = block_root(table, k, i);
        assert(root == w || root == -w);
        // y^T = (y^t)^2 ≡ root^2 = w^2 ≡ block_root(k − 1, i/2)
        lemma_pow_adds(y, t as nat, t as nat);
        assert(pow(y, tt as nat) == pow(y, t as nat) * pow(y, t as nat));
        lemma_square_congruent(pow(y, t as nat), root, q);
        assert(root * root == w * w) by (nonlinear_arith)
            requires
                root == w || root == -w,
        ;
        lemma_twiddle_square(table, q, n, k, i);
        let parent_root = block_root(table, k1, i2);
        lemma_mod_equivalence(pow(y, tt as nat), w * w, q);
        lemma_mod_equivalence(w * w, parent_root, q);
        lemma_mod_equivalence(pow(y, tt as nat), parent_root, q);
        lemma_block_eval(p, table, q, k1, i2, y);
        // the child block against its parent
        let par = block(fwd_layers(p, table, q, k1), tt, i2);
        let child = block(fwd_layers(p, table, q, k), t, i);
        let hi = par.subrange(t, tt);
        lemma_child_block(p, table, q, k, i, y);
        let pc = peval(child, y);
        let pp = peval(par, y);
        let ph = peval(hi, y);
        let yt = pow(y, t as nat);
        assert((root - yt) % q == 0) by {
            lemma_mod_equivalence(yt, root, q);
            lemma_mod_equivalence(root, yt, q);
        }
        lemma_mul_mod_noop_left(root - yt, ph, q);
        assert(0 * ph == 0);
        lemma_small_mod(0, q as nat);
        lemma_add_mod_noop(pp, (root - yt) * ph, q);
        lemma_mod_twice(pp, q);
        lemma_mod_equivalence(pp, peval(p, y), q);
        lemma_mod_equivalence(pc, peval(p, y), q);
    }
}

/// Block `i` of layer `k` against its parent block `i/2` of layer `k − 1`:
/// with `par = lo ++ hi`, `child(y) ≡ par(y) + (root − y^t)·hi(y) (mod q)`.
proof fn lemma_child_block(p: Seq<int>, table: Seq<int>, q: int, k: nat, i: int, y: int)
    requires
        q > 1,
        is_power_of_two(p.len()),
        1 <= k <= log2(p.len()),
        0 <= i < pow2(k),
    ensures
        ({
            let t = (p.len() / pow2(k)) as int;
            let tt = (p.len() / pow2((k - 1) as nat)) as int;
            let par = block(fwd_layers(p, table, q, (k - 1) as nat), tt, i / 2);
            let child = block(fwd_layers(p, table, q, k), t, i);
            let hi = par.subrange(t, tt);
            peval(child, y) % q == (peval(par, y) + (block_root(table, k, i) - pow(y, t as nat))
                * peval(hi, y)) % q
        }),
{
    let n = p.len();
    let k1 = (k - 1) as nat;
    let t = (n / pow2(k)) as int;
    let tt = (n / pow2(k1)) as int;
    let i2 = i / 2;
    lemma_pow2_pos(k);
    lemma_layer_shape(n, k1);
    lemma_pow2_unfold(k);
    assert(tt == 2 * t) by {
        vstd::arithmetic::div_mod::lemma_div_denominator(n as int, pow2(k1) as int, 2);
    }
    let w = table[pow2(k1) + i2];
    let root = block_root(table, k, i);
    let f0 = fwd_layers(p, table, q, k1);
    let f1 = fwd_layers(p, table, q, k);
    lemma_fwd_layers_len(p, table, q, k1);
    let par = block(f0, tt, i2);
    let child = block(f1, t, i);
    let lo = par.subrange(0, t);
    let hi = par.subrange(t, tt);
    assert(i2 * tt + tt <= n) by (nonlinear_arith)
        requires
            i2 < pow2(k1),
            pow2(k1) * tt == n,
            tt > 0,
            i2 >= 0,
    ;
    assert(i * t == i2 * tt + (i % 2) * t) by (nonlinear_arith)
        requires
            i == 2 * i2 + i % 2,
            tt == 2 * t,
    ;
    let lin = Seq::new(t as nat, |o: int| lo[o] + root * hi[o]);
    assert forall|o: int| 0 <= o < t implies #[trigger] child[o] % q == lin[o] % q by {
        let j = i2 * tt + o;
        lemma_block_index(j, i2, tt);
        lemma_block_index(j + t, i2, tt);
        assert(lo[o] == par[o]);
        assert(hi[o] == par[o + t]);
        lemma_mod_twice(par[o] + w * par[o + t], q);
        lemma_mod_twice(par[o] - w * par[o + t], q);
        if i % 2 == 0 {
            assert(root == w);
            assert(child[o] == f1[j]);
            assert(f1[j] == (f0[j] + w * f0[j + t]) % q);
        } else {
            assert(root == -w);
            assert(child[o] == f1[j + t]);
            assert(f1[j + t] == (f0[j] - w * f0[j + t]) % q);
            assert((-w) * par[o + t] == -(w * par[o + t])) by (nonlinear_arith);
        }
    }
    lemma_peval_mod(child, lin, y, q);
    lemma_peval_linear(lo, hi, lin, 1, root, y);
    assert(par =~= lo + hi);
    lemma_peval_split(lo, hi, y);
    let yt = pow(y, t as nat);
    assert(peval(lin, y) == peval(par, y) + (root - yt) * peval(hi, y)) by (nonlinear_arith)
        requires
            peval(lin, y) == 1 * peval(lo, y) + root * peval(hi, y),
            peval(par, y) == peval(lo, y) + yt * peval(hi, y),
    ;
}

/// Entry `i` of the forward transform is the input evaluated, modulo `q`,
/// at the point `block_root(L, i)`, a root of `x^n + 1`.
pub proof fn lemma_ntt_evaluates(p: Seq<int>, table: Seq<int>, q: int, i: int)
    requires
        q > 1,
        is_power_of_two(p.len()),
        negacyclic_roots(table, q, p.len()),
        0 <= i < p.len(),
    ensures
        ntt_spec(p, table, q)[i] % q == peval(p, block_root(table, log2(p.len()), i)) % q,
        (pow(block_root(table, log2(p.len()), i), p.len()) + 1) % q == 0,
{
    let n = p.len();
    let big_l = log2(n);
    let y = block_root(table, big_l, i);
    lemma_pow2_pos(big_l);
    assert(n / pow2(big_l) == 1) by {
        lemma_div_by_self(n as int);
    }
    lemma_pow1(y);
    lemma_small_mod(0, q as nat);
    lemma_block_eval(p, table, q, big_l, i, y);
    let f = ntt_spec(p, table, q);
    lemma_fwd_layers_len(p, table, q, big_l);
    let blk = block(f, 1, i);
    assert(blk.len() == 1);
    assert(blk[0] == f[i]);
    lemma_peval_single(blk, y);
    lemma_mod_equivalence(f[i], peval(p, y), q);
}

/// The convolution property: transforming, multiplying pointwise and
/// transforming back computes the negacyclic product in `Z_q[x]/(x^n + 1)`.
pub proof fn lemma_convolution(
    a: Seq<int>,
    b: Seq<int>,
    table: Seq<int>,
    itable: Seq<int>,
    n_inv: int,
    q: int,
)
    requires
        q > 1,
        is_power_of_two(a.len()),
        a.len() == b.len(),
        canonical(a, q),
        canonical(b, q),
        tables_inverse(table, itable, q, a.len()),
        negacyclic_roots(table, q, a.len()),
        (n_inv * a.len()) % q == 1,
    ensures
        intt_spec(pointwise_spec(ntt_spec(a, table, q), ntt_spec(b, table, q), q), itable, n_inv, q)
            == negacyclic_mul(a, b, q),
{
    let n = a.len();
    let h = negacyclic_mul(a, b, q);
    let fa = ntt_spec(a, table, q);
    let fb = ntt_spec(b, table, q);
    let fh = ntt_spec(h, table, q);
    let pw = pointwise_spec(fa, fb, q);
    lemma_fwd_layers_len(a, table, q, log2(n));
    lemma_fwd_layers_len(b, table, q, log2(n));
    lemma_fwd_layers_len(h, table, q, log2(n));
    assert(canonical(h, q)) by {
        assert forall|j: int| 0 <= j < n implies 0 <= #[trigger] h[j] < q by {
            lemma_mod_bound(super::evaluation::negacyclic_sum(a, b, j, n), q);
        }
    }
    lemma_fwd_layers_canonical(h, table, q, log2(n));
    assert forall|i: int| 0 <= i < n implies #[trigger] pw[i] == fh[i] by {
        let y = block_root(table, log2(n), i);
        lemma_ntt_evaluates(a, table, q, i);
        lemma_ntt_evaluates(b, table, q, i);
        lemma_ntt_evaluates(h, table, q, i);
        lemma_peval_negacyclic(a, b, y, q);
        lemma_mul_mod_noop(fa[i], fb[i], q);
        lemma_mul_mod_noop(peval(a, y), peval(b, y), q);
        lemma_small_mod(fh[i] as nat, q as nat);
    }
    assert(pw =~= fh);
    lemma_roundtrip(h, table, itable, n_inv, q);
}

/// `log2(n)` for a power of two `n`, computed by halving.
pub fn log2_usize(n: usize) -> (r: usize)
    requires
        is_power_of_two(n as nat),
    ensures
        r == log2(n as nat),
        r < usize::BITS,
{
    let mut v = n;
    let mut r: usize = 0;
    proof {
        lemma_log2_bound(n as nat);
    }
    while v > 1
        invariant
            1 <= v <= n,
            r + log2(v as nat) == log2(n as nat),
            log2(n as nat) < usize::BITS,
        decreases v,
    {
        v = v / 2;
        r = r + 1;
    }
    r
}

/// `2^log2(n) <= n`, so `log2(n)` of a machine word is below its bit width.
pub proof fn lemma_log2_bound(n: nat)
    requires
        n >= 1,
        n <= usize::MAX,
    ensures
        pow2(log2(n)) <= n,
        log2(n) < usize::BITS,
    decreases n,
{
    if n <= 1 {
        lemma2_to64();
    } else {
        lemma_log2_bound(n / 2);
        lemma_pow2_unfold(log2(n));
        assert(pow2(log2(n)) <= n);
        if log2(n) >= usize::BITS {
            lemma2_to64();
            lemma2_to64_rest();
            if log2(n) > usize::BITS {
                lemma_pow2_strictly_increases(usize::BITS as nat, log2(n));
            }
            assert(pow2(usize::BITS as nat) > usize::MAX);
            assert(false);
        }
    }
}

/// Position `k` of the `i`-th block of size `t`.
pub proof fn lemma_block_index(k: int, i: int, t: int)
    requires
        t > 0,
        i * t <= k < i * t + t,
    ensures
        k / t == i,
        k % t == k - i * t,
{
    lemma_fundamental_div_mod_converse(k, t, i, k - i * t);
    assert(k == t * i + (k - i * t)) by (nonlinear_arith)
        requires
            true,
    ;
}

/// With `n = 2^L` and `l < L`, the blocks of layer `l` have even size
/// `t = n / 2^l` and `2^l · t == n`.
pub proof fn lemma_layer_shape(n: nat, l: nat)
    requires
        is_power_of_two(n),
        l < log2(n),
    ensures
        pow2(l) * (n / pow2(l)) == n,
        (n / pow2(l)) % 2 == 0,
        (n / pow2(l)) >= 2,
        n / pow2(l) == pow2((log2(n) - l) as nat),
        pow2(l) * 2 <= n,
{
    let big_l = log2(n);
    let d = (big_l - l) as nat;
    lemma_pow2_adds(l, d);
    assert(l + d == big_l);
    lemma_pow2_pos(l);
    lemma_pow2_pos(d);
    lemma_div_multiples_vanish(pow2(d) as int, pow2(l) as int);
    assert(pow2(l) * pow2(d) == n);
    assert(n / pow2(l) == pow2(d));
    lemma_pow2_unfold(d);
    lemma_pow2_pos((d - 1) as nat);
    assert(pow2(d) == 2 * pow2((d - 1) as nat));
    assert(pow2(d) % 2 == 0) by {
        lemma_mod_multiples_basic(pow2((d - 1) as nat) as int, 2);
    }
    assert(pow2(l) * 2 <= pow2(l) * pow2(d)) by (nonlinear_arith)
        requires
            pow2(d) >= 2,
            pow2(l) > 0,
    ;
}

/// Entry-wise congruence modulo `q`.
pub open spec fn congruent(x: Seq<int>, y: Seq<int>, q: int) -> bool {
    x.len() == y.len() && forall|k: int| 0 <= k < x.len() ==> #[trigger] x[k] % q == y[k] % q
}

/// A forward layer sees its input only modulo `q`.
pub proof fn lemma_fwd_layer_congruent(x: Seq<int>, y: Seq<int>, table: Seq<int>, q: int, l: nat)
    requires
        q > 0,
        x.len() > 0,
        congruent(x, y, q),
        pow2(l) * (x.len() / pow2(l)) == x.len(),
        (x.len() / pow2(l)) % 2 == 0,
    ensures
        fwd_layer(x, table, q, l) == fwd_layer(y, table, q, l),
{
    let n = x.len() as int;
    let m = pow2(l) as int;
    let t = n / m;
    let h = t / 2;
    lemma_pow2_pos(l);
    assert(t > 0) by {
        if t <= 0 {
            assert(m * t <= 0) by (nonlinear_arith)
                requires
                    m > 0,
                    t <= 0,
            ;
        }
    }
    let a = fwd_layer(x, table, q, l);
    let b = fwd_layer(y, table, q, l);
    assert forall|j: int| 0 <= j < n implies #[trigger] a[j] == b[j] by {
        lemma_in_block(j, m, t, n);
        let w = table[m + j / t];
        if j % t < h {
            lemma_partner(j, t, h);
            lemma_mul_mod_noop_right(w, x[j + h], q);
            lemma_mul_mod_noop_right(w, y[j + h], q);
            lemma_add_mod_noop(x[j], w * x[j + h], q);
            lemma_add_mod_noop(y[j], w * y[j + h], q);
        } else {
            assert(j - h >= 0);
            lemma_mul_mod_noop_right(w, x[j], q);
            lemma_mul_mod_noop_right(w, y[j], q);
            lemma_sub_mod_noop(x[j - h], w * x[j], q);
            lemma_sub_mod_noop(y[j - h], w * y[j], q);
        }
    }
    assert(a =~= b);
}

/// An inverse layer sees its input only modulo `q`.
pub proof fn lemma_inv_layer_congruent(x: Seq<int>, y: Seq<int>, itable: Seq<int>, q: int, l: nat)
    requires
        q > 0,
        is_power_of_two(x.len()),
        l < log2(x.len()),
        congruent(x, y, q),
    ensures
        inv_layer(x, itable, q, l) == inv_layer(y, itable, q, l),
{
    let n = x.len() as int;
    let m = pow2(l) as int;
    let t = n / m;
    let h = t / 2;
    lemma_layer_shape(x.len(), l);
    let a = inv_layer(x, itable, q, l);
    let b = inv_layer(y, itable, q, l);
    assert forall|j: int| 0 <= j < n implies #[trigger] a[j] == b[j] by {
        lemma_in_block(j, m, t, n);
        let w = itable[m + j / t];
        if j % t < h {
            lemma_partner(j, t, h);
            lemma_add_mod_noop(x[j], x[j + h], q);
            lemma_add_mod_noop(y[j], y[j + h], q);
        } else {
            assert(j - h >= 0);
            lemma_sub_mod_noop(x[j - h], x[j], q);
            lemma_sub_mod_noop(y[j - h], y[j], q);
            lemma_mul_mod_noop_left(x[j - h] - x[j], w, q);
            lemma_mul_mod_noop_left(y[j - h] - y[j], w, q);
        }
    }
    assert(a =~= b);
}

pub proof fn lemma_inv_layers_len(p: Seq<int>, itable: Seq<int>, q: int, top: nat, k: nat)
    ensures
        inv_layers(p, itable, q, top, k).len() == p.len(),
    decreases k,
{
    if k > 0 {
        lemma_inv_layers_len(p, itable, q, top, (k - 1) as nat);
    }
}

/// Forward layers see their input only modulo `q`; after the first layer the
/// results coincide.
pub proof fn lemma_fwd_layers_congruent(x: Seq<int>, y: Seq<int>, table: Seq<int>, q: int, k: nat)
    requires
        q > 0,
        is_power_of_two(x.len()),
        k <= log2(x.len()),
        congruent(x, y, q),
    ensures
        congruent(fwd_layers(x, table, q, k), fwd_layers(y, table, q, k), q),
        k > 0 ==> fwd_layers(x, table, q, k) == fwd_layers(y, table, q, k),
    decreases k,
{
    if k > 0 {
        let k1 = (k - 1) as nat;
        lemma_fwd_layers_congruent(x, y, table, q, k1);
        lemma_fwd_layers_len(x, table, q, k1);
        lemma_fwd_layers_len(y, table, q, k1);
        lemma_layer_shape(x.len(), k1);
        lemma_fwd_layer_congruent(
            fwd_layers(x, table, q, k1),
            fwd_layers(y, table, q, k1),
            table,
            q,
            k1,
        );
    }
}

/// Inverse layers see their input only modulo `q`.
pub proof fn lemma_inv_layers_congruent(
    x: Seq<int>,
    y: Seq<int>,
    itable: Seq<int>,
    q: int,
    top: nat,
    k: nat,
)
    requires
        q > 0,
        is_power_of_two(x.len()),
        top == log2(x.len()),
        k <= top,
        congruent(x, y, q),
    ensures
        congruent(inv_layers(x, itable, q, top, k), inv_layers(y, itable, q, top, k), q),
    decreases k,
{
    if k > 0 {
        let k1 = (k - 1) as nat;
        lemma_inv_layers_congruent(x, y, itable, q, top, k1);
        lemma_inv_layers_len(x, itable, q, top, k1);
        lemma_inv_layers_len(y, itable, q, top, k1);
        lemma_inv_layer_congruent(
            inv_layers(x, itable, q, top, k1),
            inv_layers(y, itable, q, top, k1),
            itable,
            q,
            (top - k) as nat,
        );
        lemma_inv_layers_len(x, itable, q, top, k);
        assert forall|j: int| 0 <= j < x.len() implies #[trigger] inv_layers(x, itable, q, top, k)[j] % q
            == inv_layers(y, itable, q, top, k)[j] % q by {}
    }
}

/// The inverse transform sees its input only modulo `q`.
pub proof fn lemma_intt_congruent(x: Seq<int>, y: Seq<int>, itable: Seq<int>, n_inv: int, q: int)
    requires
        q > 0,
        is_power_of_two(x.len()),
        congruent(x, y, q),
    ensures
        intt_spec(x, itable, n_inv, q) == intt_spec(y, itable, n_inv, q),
{
    let top = log2(x.len());
    lemma_inv_layers_congruent(x, y, itable, q, top, top);
    let a = inv_layers(x, itable, q, top, top);
    let b = inv_layers(y, itable, q, top, top);
    lemma_inv_layers_len(x, itable, q, top, top);
    lemma_inv_layers_len(y, itable, q, top, top);
    assert forall|j: int| 0 <= j < a.len() implies #[trigger] scale(a, n_inv, q)[j] == scale(b, n_inv, q)[j] by {
        lemma_mul_mod_noop_right(n_inv, a[j], q);
        lemma_mul_mod_noop_right(n_inv, b[j], q);
    }
    assert(scale(a, n_inv, q) =~= scale(b, n_inv, q));
}

/// Forward layers `k0 .. k1`, in order.
pub open spec fn fwd_layers_between(p: Seq<int>, table: Seq<int>, q: int, k0: nat, k1: nat) -> Seq<
    int,
>
    decreases k1,
{
    if k1 <= k0 {
        p
    } else {
        fwd_layer(
            fwd_layers_between(p, table, q, k0, (k1 - 1) as nat),
            table,
            q,
            (k1 - 1) as nat,
        )
    }
}

/// The forward layers `0 .. k` are the layers between `0` and `k`.
pub proof fn lemma_fwd_layers_from_zero(p: Seq<int>, table: Seq<int>, q: int, k: nat)
    ensures
        fwd_layers_between(p, table, q, 0, k) == fwd_layers(p, table, q, k),
    decreases k,
{
    if k > 0 {
        lemma_fwd_layers_from_zero(p, table, q, (k - 1) as nat);
    }
}

/// Inverse butterfly iterations `k0 .. k1`: iteration `k` (counted from one)
/// applies inverse layer `top − k`.
pub open spec fn inv_layers_between(
    p: Seq<int>,
    itable: Seq<int>,
    q: int,
    top: nat,
    k0: nat,
    k1: nat,
) -> Seq<int>
    decreases k1,
{
    if k1 <= k0 {
        p
    } else {
        inv_layer(
            inv_layers_between(p, itable, q, top, k0, (k1 - 1) as nat),
            itable,
            q,
            (top - k1) as nat,
        )
    }
}

/// The inverse iterations `0 .. k` are the iterations between `0` and `k`.
pub proof fn lemma_inv_layers_from_zero(p: Seq<int>, itable: Seq<int>, q: int, top: nat, k: nat)
    ensures
        inv_layers_between(p, itable, q, top, 0, k) == inv_layers(p, itable, q, top, k),
    decreases k,
{
    if k > 0 {
        lemma_inv_layers_from_zero(p, itable, q, top, (k - 1) as nat);
    }
}

/// Where a run of `iters` inverse iterations that starts after `k0` of them
/// stops: after `iters` more, or once all `top` are done.
pub open spec fn stages_end(k0: nat, iters: nat, top: nat) -> nat {
    if k0 + iters <= top {
        k0 + iters
    } else {
        top
    }
}

/// Powers of two multiply by adding exponents, and only so.
pub proof fn lemma_pow2_product(a: nat, b: nat, c: nat)
    requires
        pow2(a) * pow2(b) == pow2(c),
    ensures
        a + b == c,
{
    lemma_pow2_adds(a, b);
    if a + b < c {
        lemma_pow2_strictly_increases(a + b, c);
    } else if a + b > c {
        lemma_pow2_strictly_increases(c, a + b);
    }
}

/// Resuming forward layers where an earlier run stopped is one run:
/// layers `k0 .. k1` then `k1 .. k2` are layers `k0 .. k2`.
pub proof fn lemma_fwd_layers_resume(
    p: Seq<int>,
    table: Seq<int>,
    q: int,
    k0: nat,
    k1: nat,
    k2: nat,
)
    requires
        k0 <= k1 <= k2,
    ensures
        fwd_layers_between(fwd_layers_between(p, table, q, k0, k1), table, q, k1, k2)
            == fwd_layers_between(p, table, q, k0, k2),
    decreases k2,
{
    if k2 > k1 {
        lemma_fwd_layers_resume(p, table, q, k0, k1, (k2 - 1) as nat);
    }
}

/// Resuming inverse iterations where an earlier run stopped is one run:
/// iterations `k0 .. k1` then `k1 .. k2` are iterations `k0 .. k2`.
pub proof fn lemma_inv_layers_resume(
    p: Seq<int>,
    itable: Seq<int>,
    q: int,
    top: nat,
    k0: nat,
    k1: nat,
    k2: nat,
)
    requires
        k0 <= k1 <= k2,
    ensures
        inv_layers_between(inv_layers_between(p, itable, q, top, k0, k1), itable, q, top, k1, k2)
            == inv_layers_between(p, itable, q, top, k0, k2),
    decreases k2,
{
    if k2 > k1 {
        lemma_inv_layers_resume(p, itable, q, top, k0, k1, (k2 - 1) as nat);
    }
}

} // verus!
