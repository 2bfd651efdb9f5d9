//! Coefficient-wise arithmetic on signed `i32` polynomials modulo a positive
//! modulus, a reference negacyclic product and transform, and sampling.
use super::evaluation::{negacyclic_mul, negacyclic_sum, negacyclic_term};
use super::modular::{lemma_trem, trem};
use super::transform::{
    canonical, congruent, fwd_layer, fwd_layers, intt_spec, inv_layer, inv_layers,
    is_power_of_two, lemma_block_index, lemma_fwd_layer_canonical, lemma_fwd_layer_congruent,
    lemma_fwd_layers_congruent, lemma_intt_congruent, lemma_inv_layer_canonical,
    lemma_inv_layer_congruent, lemma_layer_shape, lemma_roundtrip, log2, ntt_spec, scale,
    tables_inverse,
};
use rand::RngCore;
use rand_chacha::ChaCha20Rng;
use sha2::{Digest, Sha256};
use vstd::arithmetic::div_mod::*;
use vstd::arithmetic::mul::*;
use vstd::arithmetic::power2::*;
use vstd::prelude::*;

verus! {

/// `lift_i32` does not overflow: the truncated remainder plus the modulus
/// fits in an `i32`.
pub open spec fn lift_fits(a: int, m: int) -> bool {
    trem(a, m) + m <= i32::MAX
}

/// The representative of `a` modulo `m` in `[−⌊m/2⌋, ⌊m/2⌋]`. For even `m`
/// the residue `m/2` has two such representatives, `±m/2`; the one with the
/// sign of `a` is taken.
pub open spec fn centered(a: int, m: int) -> int {
    let r = a % m;
    if r > m / 2 || (r == m / 2 && m % 2 == 0 && a < 0) {
        r - m
    } else {
        r
    }
}

/// `a mod m` in `[0, m)`.
#[inline]
pub fn lift_i32(a: i32, modulus: i32) -> (r: i32)
    requires
        modulus > 0,
        lift_fits(a as int, modulus as int),
    ensures
        r == (a as int) % (modulus as int),
{
    let ghost m = modulus as int;
    proof {
        lemma_trem(a as int, m);
    }
    let t = a % modulus;
    assert(t == trem(a as int, m));
    let s = t + modulus;
    proof {
        lemma_trem(s as int, m);
        lemma_mod_add_multiples_vanish(t as int, m);
    }
    let r = s % modulus;
    assert(r == trem(s as int, m));
    r
}

/// The centered representative of `a` modulo `m`: see [`centered`].
#[inline]
pub fn normalize_i32(a: i32, modulus: i32) -> (r: i32)
    requires
        modulus > 0,
    ensures
        r == centered(a as int, modulus as int),
{
    let ghost m = modulus as int;
    proof {
        lemma_trem(a as int, m);
        lemma_mod_bound(a as int, m);
    }
    let mut a = a % modulus;
    let ghost t = a as int;
    proof {
        // `t` is the representative of the residue in `(−m, m)` with the sign of the input
        if t < 0 {
            lemma_mod_add_multiples_vanish(t, m);
            lemma_small_mod((t + m) as nat, m as nat);
        } else {
            lemma_small_mod(t as nat, m as nat);
        }
    }
    if a > modulus / 2 {
        a -= modulus;
    }
    if a < -modulus / 2 {
        a += modulus;
    }
    a
}

/// `eq_i32` does not overflow: every coefficient it lifts, those up to and
/// including the first pair that differs modulo `m`, lifts without overflow.
pub open spec fn eq_fits<const N: usize>(a: [i32; N], b: [i32; N], m: int) -> bool {
    forall|i: int|
        0 <= i < N && (forall|j: int| 0 <= j < i ==> (#[trigger] a[j] as int) % m == (b[j] as int)
            % m) ==> lift_fits(#[trigger] a[i] as int, m) && lift_fits(b[i] as int, m)
}

/// Whether `a` and `b` agree coefficient-wise modulo `m`.
#[inline]
pub fn eq_i32<const N: usize>(a: &[i32; N], b: &[i32; N], modulus: i32) -> (r: bool)
    requires
        modulus > 0,
        eq_fits(*a, *b, modulus as int),
    ensures
        r == forall|i: int| 0 <= i < N ==> (#[trigger] a[i] as int) % (modulus as int) == (
        b[i] as int) % (modulus as int),
{
    let ghost m = modulus as int;
    for i in 0..N
        invariant
            modulus > 0,
            m == modulus,
            eq_fits(*a, *b, m),
            forall|j: int| 0 <= j < i ==> (#[trigger] a[j] as int) % m == (b[j] as int) % m,
    {
        assert(lift_fits(a[i as int] as int, m));
        if lift_i32(a[i], modulus) != lift_i32(b[i], modulus) {
            return false;
        }
    }
    true
}

/// `lhs[i] = (lhs[i] + rhs[i]) % modulus` with Rust's truncated remainder.
#[inline]
pub fn add_assign_i32<const N: usize>(lhs: &mut [i32; N], rhs: &[i32; N], modulus: i32)
    requires
        modulus > 0,
    ensures
        forall|i: int|
            0 <= i < N ==> #[trigger] final(lhs)[i] == trem(
                old(lhs)[i] + rhs[i],
                modulus as int,
            ),
{
    for i in 0..N
        invariant
            modulus > 0,
            forall|j: int|
                0 <= j < i ==> #[trigger] lhs[j] == trem(old(lhs)[j] + rhs[j], modulus as int),
            forall|j: int| i <= j < N ==> #[trigger] lhs[j] == old(lhs)[j],
    {
        let ghost s = lhs[i as int] + rhs[i as int];
        proof {
            lemma_trem(s, modulus as int);
        }
        let x = (lhs[i] as i64 + rhs[i] as i64) % (modulus as i64);
        assert(x == trem(s, modulus as int));
        lhs[i] = x as i32;
    }
}

/// `lhs[i] = (lhs[i] − rhs[i]) % modulus` with Rust's truncated remainder.
#[inline]
pub fn sub_assign_i32<const N: usize>(lhs: &mut [i32; N], rhs: &[i32; N], modulus: i32)
    requires
        modulus > 0,
    ensures
        forall|i: int|
            0 <= i < N ==> #[trigger] final(lhs)[i] == trem(
                old(lhs)[i] - rhs[i],
                modulus as int,
            ),
{
    for i in 0..N
        invariant
            modulus > 0,
            forall|j: int|
                0 <= j < i ==> #[trigger] lhs[j] == trem(old(lhs)[j] - rhs[j], modulus as int),
            forall|j: int| i <= j < N ==> #[trigger] lhs[j] == old(lhs)[j],
    {
        let ghost s = lhs[i as int] - rhs[i as int];
        proof {
            lemma_trem(s, modulus as int);
        }
        let x = (lhs[i] as i64 - rhs[i] as i64) % (modulus as i64);
        assert(x == trem(s, modulus as int));
        lhs[i] = x as i32;
    }
}

/// `|x|` as an unsigned word.
fn unsigned_abs(x: i32) -> (r: u32)
    ensures
        r == abs(x as int),
{
    if x < 0 {
        let r = 0u32.wrapping_sub(x as u32);
        assert(r == -(x as int)) by (bit_vector)
            requires
                x < 0,
                r == (if (x as u32) == 0 { 0u32 } else { (0x1_0000_0000 - (x as u32)) as u32 }),
        ;
        r
    } else {
        x as u32
    }
}

/// `|x|`.
pub open spec fn abs(x: int) -> int {
    if x < 0 {
        -x
    } else {
        x
    }
}

/// The largest magnitude of any coefficient, `0` for the empty polynomial.
pub fn infinity_norm_i32<const N: usize>(coeffs: &[i32; N]) -> (r: u32)
    ensures
        forall|i: int| 0 <= i < N ==> abs(#[trigger] coeffs[i] as int) <= r,
        N == 0 ==> r == 0,
        N > 0 ==> exists|i: int| 0 <= i < N && r == abs(#[trigger] coeffs[i] as int),
{
    let mut r = 0u32;
    for i in 0..N
        invariant
            forall|j: int| 0 <= j < i ==> abs(#[trigger] coeffs[j] as int) <= r,
            i == 0 ==> r == 0,
            i > 0 ==> exists|j: int| 0 <= j < i && r == abs(#[trigger] coeffs[j] as int),
    {
        let x = unsigned_abs(coeffs[i]);
        if i == 0 || x > r {
            r = x;
        }
    }
    r
}

/// Whether every coefficient is `−1`, `0` or `1`.
pub fn is_ternary_i32<const N: usize>(coeffs: &[i32; N]) -> (r: bool)
    ensures
        r == forall|i: int| 0 <= i < N ==> -1 <= #[trigger] coeffs[i] <= 1,
{
    for i in 0..N
        invariant
            forall|j: int| 0 <= j < i ==> -1 <= #[trigger] coeffs[j] <= 1,
    {
        if !(-1 <= coeffs[i] && coeffs[i] <= 1) {
            return false;
        }
    }
    true
}

/// Lifts every coefficient into `[0, modulus)`.
pub fn lift_assign_i32<const N: usize>(coeffs: &mut [i32; N], modulus: i32)
    requires
        modulus > 0,
        forall|i: int| 0 <= i < N ==> lift_fits(#[trigger] old(coeffs)[i] as int, modulus as int),
    ensures
        forall|i: int|
            0 <= i < N ==> #[trigger] final(coeffs)[i] == (old(coeffs)[i] as int) % (
            modulus as int),
{
    for i in 0..N
        invariant
            modulus > 0,
            forall|j: int| 0 <= j < N ==> lift_fits(#[trigger] old(coeffs)[j] as int, modulus as int),
            forall|j: int|
                0 <= j < i ==> #[trigger] coeffs[j] == (old(coeffs)[j] as int) % (modulus as int),
            forall|j: int| i <= j < N ==> #[trigger] coeffs[j] == old(coeffs)[j],
    {
        coeffs[i] = lift_i32(coeffs[i], modulus);
    }
}

/// Replaces every coefficient by its centered representative.
pub fn normalize_assign_i32<const N: usize>(coeffs: &mut [i32; N], modulus: i32)
    requires
        modulus > 0,
    ensures
        forall|i: int|
            0 <= i < N ==> #[trigger] final(coeffs)[i] == centered(
                old(coeffs)[i] as int,
                modulus as int,
            ),
{
    for i in 0..N
        invariant
            modulus > 0,
            forall|j: int|
                0 <= j < i ==> #[trigger] coeffs[j] == centered(
                    old(coeffs)[j] as int,
                    modulus as int,
                ),
            forall|j: int| i <= j < N ==> #[trigger] coeffs[j] == old(coeffs)[j],
    {
        coeffs[i] = normalize_i32(coeffs[i], modulus);
    }
}

/// The integer values of a sequence of signed words.
pub open spec fn signed(s: Seq<i32>) -> Seq<int> {
    Seq::new(s.len(), |j: int| s[j] as int)
}

/// `Σ a[i]·b[k − i]` over `i < m` with `0 <= k − i < |b|`: what the first `m`
/// coefficients of `a` contribute to coefficient `k` of the plain product.
pub open spec fn product_sum(a: Seq<int>, b: Seq<int>, k: int, m: nat) -> int
    decreases m,
{
    if m == 0 {
        0
    } else {
        product_sum(a, b, k, (m - 1) as nat) + (if 0 <= k - (m - 1) < b.len() {
            a[m - 1] * b[k - (m - 1)]
        } else {
            0
        })
    }
}

/// Folding the upper half of the plain product back with a minus sign gives
/// the negacyclic product: coefficient `k` minus coefficient `k + n`.
proof fn lemma_fold_product(a: Seq<int>, b: Seq<int>, k: int, m: nat)
    requires
        a.len() == b.len(),
        0 <= k < b.len(),
        m <= a.len(),
    ensures
        product_sum(a, b, k, m) - product_sum(a, b, k + b.len(), m) == negacyclic_sum(a, b, k, m),
    decreases m,
{
    if m > 0 {
        lemma_fold_product(a, b, k, (m - 1) as nat);
        let i = m - 1;
        if i <= k {
            assert(negacyclic_term(b, k, i) == b[k - i]);
        } else {
            assert(negacyclic_term(b, k, i) == -b[b.len() + k - i]);
            assert(a[i] * (-b[b.len() + k - i]) == -(a[i] * b[b.len() + k - i])) by (nonlinear_arith);
        }
    }
}

/// What the schoolbook product accumulates for coefficient `k` of the plain
/// product over the first `m` coefficients of `a`, each step reduced with
/// Rust's truncated remainder.
pub open spec fn row_acc(a: Seq<int>, b: Seq<int>, k: int, q: int, m: nat) -> int
    decreases m,
{
    if m == 0 {
        0
    } else {
        let prev = row_acc(a, b, k, q, (m - 1) as nat);
        if 0 <= k - (m - 1) < b.len() {
            trem(prev + trem(a[m - 1] * b[k - (m - 1)], q), q)
        } else {
            prev
        }
    }
}

/// `schoolbook_i32` does not overflow: folding each coefficient and lifting
/// it stays within `i32`.
pub open spec fn schoolbook_fits(a: Seq<int>, b: Seq<int>, q: int) -> bool {
    forall|k: int|
        0 <= k < a.len() ==> lift_fits(
            trem(#[trigger] row_acc(a, b, k, q, a.len()) - row_acc(a, b, k + a.len(), q, a.len()), q),
            q,
        )
}

/// The accumulation lies strictly between `−q` and `q` and is congruent to
/// the exact partial sum.
proof fn lemma_row_acc(a: Seq<int>, b: Seq<int>, k: int, q: int, m: nat)
    requires
        q > 0,
        m <= a.len(),
    ensures
        -q < row_acc(a, b, k, q, m) < q,
        row_acc(a, b, k, q, m) % q == product_sum(a, b, k, m) % q,
    decreases m,
{
    if m == 0 {
        lemma_small_mod(0, q as nat);
    } else {
        let m1 = (m - 1) as nat;
        lemma_row_acc(a, b, k, q, m1);
        let prev = row_acc(a, b, k, q, m1);
        let base = product_sum(a, b, k, m1);
        if 0 <= k - m1 < b.len() {
            let prod = a[m1 as int] * b[k - m1];
            lemma_trem(prod, q);
            lemma_trem(prev + trem(prod, q), q);
            lemma_add_mod_noop(prev, trem(prod, q), q);
            lemma_add_mod_noop(prev, prod, q);
            lemma_add_mod_noop(base, prod, q);
        }
    }
}

/// Moduli up to `2^30` never overflow the schoolbook product.
pub proof fn lemma_schoolbook_fits(a: Seq<int>, b: Seq<int>, q: int)
    requires
        0 < q <= 0x4000_0000,
        a.len() == b.len(),
    ensures
        schoolbook_fits(a, b, q),
{
    assert forall|k: int| 0 <= k < a.len() implies lift_fits(
        trem(#[trigger] row_acc(a, b, k, q, a.len()) - row_acc(a, b, k + a.len(), q, a.len()), q),
        q,
    ) by {
        let d = row_acc(a, b, k, q, a.len()) - row_acc(a, b, k + a.len(), q, a.len());
        lemma_trem(d, q);
        lemma_trem(trem(d, q), q);
    }
}

/// The negacyclic product `a·b mod (x^N + 1, modulus)` by the schoolbook
/// method, coefficients in `[0, modulus)`.
pub fn schoolbook_i32<const N: usize>(a: &[i32; N], b: &[i32; N], modulus: i32) -> (out: [i32; N])
    requires
        modulus > 0,
        N * 2 <= usize::MAX,
        schoolbook_fits(signed(a@), signed(b@), modulus as int),
    ensures
        signed(out@) == negacyclic_mul(signed(a@), signed(b@), modulus as int),
{
    let ghost aa = signed(a@);
    let ghost bb = signed(b@);
    let ghost m = modulus as int;
    let n2 = N * 2;
    let mut buf = vec![0i64; n2];
    let q = modulus as i64;
    proof {
        assert forall|k: int| 0 <= k < n2 implies #[trigger] buf@[k] == row_acc(aa, bb, k, m, 0) by {
            assert(cloned(0i64, buf@[k]));
        }
    }
    for i in 0..N
        invariant
            modulus > 0,
            m == modulus,
            q == modulus,
            n2 == N * 2,
            aa == signed(a@),
            bb == signed(b@),
            buf@.len() == n2,
            forall|k: int| 0 <= k < n2 ==> #[trigger] buf@[k] == row_acc(aa, bb, k, m, i as nat),
    {
        for j in 0..N
            invariant
                modulus > 0,
                m == modulus,
                q == modulus,
                n2 == N * 2,
                i < N,
                aa == signed(a@),
                bb == signed(b@),
                buf@.len() == n2,
                forall|k: int|
                    0 <= k < n2 ==> #[trigger] buf@[k] == (if i <= k < i + j {
                        row_acc(aa, bb, k, m, (i + 1) as nat)
                    } else {
                        row_acc(aa, bb, k, m, i as nat)
                    }),
        {
            let ghost k = i + j;
            let ghost prod = a[i as int] * b[j as int];
            proof {
                assert(-0x4000_0000_0000_0000 <= prod <= 0x4000_0000_0000_0000) by (nonlinear_arith)
                    requires
                        prod == a[i as int] * b[j as int],
                        -0x8000_0000 <= a[i as int] < 0x8000_0000,
                        -0x8000_0000 <= b[j as int] < 0x8000_0000,
                ;
                lemma_trem(prod, m);
                lemma_row_acc(aa, bb, k, m, i as nat);
                assert(aa[i as int] == a[i as int] && bb[k - i] == b[j as int]);
            }
            let p = a[i] as i64 * b[j] as i64 % q;
            assert(p == trem(prod, m));
            let sum = buf[i + j] + p;
            proof {
                lemma_trem(sum as int, m);
            }
            let r = sum % q;
            assert(r == trem(sum as int, m));
            buf.set(i + j, r);
        }
        proof {
            assert forall|k: int| 0 <= k < n2 implies #[trigger] buf@[k] == row_acc(
                aa,
                bb,
                k,
                m,
                (i + 1) as nat,
            ) by {
                if !(i <= k < i + N) {
                    assert(row_acc(aa, bb, k, m, (i + 1) as nat) == row_acc(aa, bb, k, m, i as nat));
                }
            }
        }
    }
    let mut out = [0i32; N];
    for k in 0..N
        invariant
            modulus > 0,
            m == modulus,
            q == modulus,
            n2 == N * 2,
            aa == signed(a@),
            bb == signed(b@),
            aa.len() == N,
            bb.len() == N,
            buf@.len() == n2,
            schoolbook_fits(aa, bb, m),
            forall|k: int| 0 <= k < n2 ==> #[trigger] buf@[k] == row_acc(aa, bb, k, m, N as nat),
            forall|j: int|
                0 <= j < k ==> #[trigger] out@[j] == negacyclic_sum(aa, bb, j, N as nat) % m,
    {
        let ghost lo = row_acc(aa, bb, k as int, m, N as nat);
        let ghost hi = row_acc(aa, bb, k + N, m, N as nat);
        proof {
            lemma_row_acc(aa, bb, k as int, m, N as nat);
            lemma_row_acc(aa, bb, k + N, m, N as nat);
        }
        let d = buf[k] - buf[k + N];
        proof {
            lemma_trem(d as int, m);
        }
        let x = (d % q) as i32;
        assert(x == trem(d as int, m));
        proof {
            assert(lift_fits(trem(lo - hi, m), m));
        }
        let v = lift_i32(x, modulus);
        proof {
            lemma_fold_product(aa, bb, k as int, N as nat);
            lemma_sub_mod_noop(lo, hi, m);
            lemma_sub_mod_noop(
                product_sum(aa, bb, k as int, N as nat),
                product_sum(aa, bb, k + N, N as nat),
                m,
            );
        }
        out[k] = v;
    }
    proof {
        assert(signed(out@) =~= negacyclic_mul(aa, bb, m));
    }
    out
}

/// The number of trailing zero bits of `n`, `0` for odd `n` and for `0`.
pub open spec fn tz(n: nat) -> nat
    decreases n,
{
    if n == 0 || n % 2 == 1 {
        0
    } else {
        1 + tz(n / 2)
    }
}

/// Below the trailing-zero count, `n` splits into `2^l` blocks of even size.
proof fn lemma_tz_shape(n: nat, l: nat)
    requires
        n > 0,
        l < tz(n),
    ensures
        pow2(l) * (n / pow2(l)) == n,
        (n / pow2(l)) % 2 == 0,
        pow2(l) * 2 <= n,
    decreases l,
{
    lemma2_to64();
    if l == 0 {
        assert(n % 2 == 0);
    } else {
        let n2 = n / 2;
        assert(n % 2 == 0 && n2 > 0 && tz(n) == 1 + tz(n2));
        lemma_tz_shape(n2, (l - 1) as nat);
        lemma_pow2_unfold(l);
        lemma_pow2_pos((l - 1) as nat);
        lemma_div_denominator(n as int, 2, pow2((l - 1) as nat) as int);
        assert(2 * pow2((l - 1) as nat) == pow2(l));
        assert(n / pow2(l) == n2 / pow2((l - 1) as nat));
        let c = n2 / pow2((l - 1) as nat);
        assert(pow2(l) * c == 2 * (pow2((l - 1) as nat) * c)) by (nonlinear_arith)
            requires
                pow2(l) == 2 * pow2((l - 1) as nat),
        ;
    }
}

/// An exponent whose power of two fits in a machine word is below its width.
proof fn lemma_word_exponent(l: nat)
    requires
        pow2(l) <= usize::MAX,
    ensures
        l < usize::BITS,
{
    lemma2_to64();
    lemma2_to64_rest();
    if l >= usize::BITS {
        if l > usize::BITS {
            lemma_pow2_strictly_increases(usize::BITS as nat, l);
        }
    }
}

/// `n.trailing_zeros()` for `n > 0`.
fn trailing_zeros(n: usize) -> (r: usize)
    requires
        n > 0,
    ensures
        r == tz(n as nat),
{
    let mut x = n;
    let mut k: usize = 0;
    proof {
        lemma2_to64();
    }
    while x % 2 == 0
        invariant
            0 < x <= n,
            k + tz(x as nat) == tz(n as nat),
            pow2(k as nat) * x == n,
            k + 1 <= pow2(k as nat),
        decreases x,
    {
        proof {
            lemma_pow2_unfold((k + 1) as nat);
            lemma_pow2_pos(k as nat);
            assert(pow2((k + 1) as nat) * (x / 2) == n) by (nonlinear_arith)
                requires
                    pow2((k + 1) as nat) == 2 * pow2(k as nat),
                    pow2(k as nat) * x == n,
                    x % 2 == 0,
            ;
            assert(pow2(k as nat) <= n) by (nonlinear_arith)
                requires
                    pow2(k as nat) * x == n,
                    x >= 1,
                    pow2(k as nat) > 0,
            ;
        }
        x = x / 2;
        k = k + 1;
    }
    k
}

/// Entries of `s` lie strictly between `−q` and `q`.
pub open spec fn in_window(s: Seq<i32>, q: int) -> bool {
    forall|k: int| 0 <= k < s.len() ==> -q < #[trigger] s[k] < q
}

/// Entries of `s` are non-negative.
pub open spec fn nonneg(s: Seq<i32>) -> bool {
    forall|k: int| 0 <= k < s.len() ==> 0 <= #[trigger] s[k]
}

/// Forward layer `l` as the `i32` transform computes it, with Rust's
/// truncated remainders: in block `i` with twiddle `w = table[2^l + i]`, the
/// pair `(u, v)` becomes `((u + (v·w rem q)) rem q, (u + q − (v·w rem q)) rem q)`.
pub open spec fn fwd_layer_rem(p: Seq<int>, table: Seq<int>, q: int, l: nat) -> Seq<int> {
    let m = pow2(l) as int;
    let t = p.len() as int / m;
    let h = t / 2;
    Seq::new(
        p.len(),
        |j: int|
            {
                let w = table[m + j / t];
                if j % t < h {
                    trem(p[j] + trem(p[j + h] * w, q), q)
                } else {
                    trem(p[j - h] + q - trem(p[j] * w, q), q)
                }
            },
    )
}

/// Forward layers `0 .. k` with truncated remainders, in order.
pub open spec fn fwd_layers_rem(p: Seq<int>, table: Seq<int>, q: int, k: nat) -> Seq<int>
    decreases k,
{
    if k == 0 {
        p
    } else {
        fwd_layer_rem(fwd_layers_rem(p, table, q, (k - 1) as nat), table, q, (k - 1) as nat)
    }
}

/// Inverse layer `l` as the `i32` transform computes it, with Rust's
/// truncated remainders: `(u, v)` becomes `((u + v) rem q, ((u + q − v)·w') rem q)`
/// with `w' = itable[2^l + i]`.
pub open spec fn inv_layer_rem(p: Seq<int>, itable: Seq<int>, q: int, l: nat) -> Seq<int> {
    let m = pow2(l) as int;
    let t = p.len() as int / m;
    let h = t / 2;
    Seq::new(
        p.len(),
        |j: int|
            {
                let w = itable[m + j / t];
                if j % t < h {
                    trem(p[j] + p[j + h], q)
                } else {
                    trem((p[j - h] + q - p[j]) * w, q)
                }
            },
    )
}

/// Inverse layers `top − 1` down to `top − k` with truncated remainders.
pub open spec fn inv_layers_rem(p: Seq<int>, itable: Seq<int>, q: int, top: nat, k: nat) -> Seq<
    int,
>
    decreases k,
{
    if k == 0 {
        p
    } else {
        inv_layer_rem(
            inv_layers_rem(p, itable, q, top, (k - 1) as nat),
            itable,
            q,
            (top - k) as nat,
        )
    }
}

proof fn lemma_inv_layers_rem_len(p: Seq<int>, itable: Seq<int>, q: int, top: nat, k: nat)
    ensures
        inv_layers_rem(p, itable, q, top, k).len() == p.len(),
    decreases k,
{
    if k > 0 {
        lemma_inv_layers_rem_len(p, itable, q, top, (k - 1) as nat);
    }
}

/// The inverse `i32` transform: all inverse layers, then every entry times
/// `n_inv`, each with truncated remainders.
pub open spec fn intt_rem(p: Seq<int>, itable: Seq<int>, n_inv: int, q: int) -> Seq<int> {
    let top = log2(p.len());
    let x = inv_layers_rem(p, itable, q, top, top);
    Seq::new(x.len(), |j: int| trem(x[j] * n_inv, q))
}

/// One forward butterfly layer `l` of block size `t`, in place, with Rust's
/// truncated remainders.
fn forward_layer_i32<const N: usize>(p: &mut [i32; N], modulus: i32, table: &[i32; N], l: usize, t: usize)
    requires
        modulus > 0,
        N > 0,
        l < tz(N as nat),
        t == N as int / (pow2(l as nat) as int),
    ensures
        signed(final(p)@) == fwd_layer_rem(signed(old(p)@), signed(table@), modulus as int, l as nat),
        in_window(final(p)@, modulus as int),
        congruent(
            signed(final(p)@),
            fwd_layer(signed(old(p)@), signed(table@), modulus as int, l as nat),
            modulus as int,
        ),
        nonneg(old(p)@) && nonneg(table@) ==> nonneg(final(p)@),
{
    let ghost qq = modulus as int;
    let ghost p0 = signed(p@);
    let ghost p1 = fwd_layer(p0, signed(table@), qq, l as nat);
    let ghost p1r = fwd_layer_rem(p0, signed(table@), qq, l as nat);
    let ghost pos = nonneg(p@) && nonneg(table@);
    proof {
        lemma_tz_shape(N as nat, l as nat);
        lemma_word_exponent(l as nat);
        vstd::bits::lemma_usize_shl_is_mul(1, l);
    }
    let q = modulus as i64;
    let m = 1usize << l;
    assert(t >> 1 == t / 2) by (bit_vector);
    let half_t = t >> 1;
    proof {
        assert(0 * t == 0);
        assert forall|k: int| 0 <= k < N implies p@[k] == #[trigger] p0[k] by {}
    }
    for i in 0..m
        invariant
            modulus > 0,
            qq == modulus,
            q == modulus,
            m == pow2(l as nat),
            m * t == N,
            t % 2 == 0,
            half_t == t / 2,
            m * 2 <= N,
            p0.len() == N,
            p0.len() as int / (pow2(l as nat) as int) == t as int,
            p1 == fwd_layer(p0, signed(table@), qq, l as nat),
            p1r == fwd_layer_rem(p0, signed(table@), qq, l as nat),
            pos == (nonneg(old(p)@) && nonneg(table@)),
            p0 == signed(old(p)@),
            forall|k: int|
                0 <= k < N ==> (if k < i * t {
                    -qq < #[trigger] p@[k] < qq && (p@[k] as int) % qq == p1[k] % qq && p@[k] == p1r[k] && (pos
                        ==> p@[k] >= 0)
                } else {
                    p@[k] == p0[k]
                }),
    {
        proof {
            lemma_mul_is_distributive_add_other_way(t as int, i as int, 1);
            lemma_mul_inequality(i as int + 1, m as int, t as int);
        }
        let twiddle = table[m + i] as i64;
        let start = i * t;
        for j in start..start + half_t
            invariant
                modulus > 0,
                qq == modulus,
                q == modulus,
                m == pow2(l as nat),
                m * t == N,
                t % 2 == 0,
                half_t == t / 2,
                i < m,
                m * 2 <= N,
                start == i * t,
                start + t <= N,
                twiddle == table[m + i],
                p0.len() == N,
                p0.len() as int / (pow2(l as nat) as int) == t as int,
                p1 == fwd_layer(p0, signed(table@), qq, l as nat),
                p1r == fwd_layer_rem(p0, signed(table@), qq, l as nat),
            p1r == fwd_layer_rem(p0, signed(table@), qq, l as nat),
                pos == (nonneg(old(p)@) && nonneg(table@)),
                p0 == signed(old(p)@),
                forall|k: int|
                    0 <= k < N ==> (if k < start || (start <= k < j) || (start + half_t <= k < j
                        + half_t) {
                        -qq < #[trigger] p@[k] < qq && (p@[k] as int) % qq == p1[k] % qq && p@[k] == p1r[k] && (pos
                            ==> p@[k] >= 0)
                    } else {
                        p@[k] == p0[k]
                    }),
        {
            let ghost before = p@;
            assert(before[j as int] == p0[j as int]);
            assert(before[j + half_t] == p0[j + half_t]);
            let u = p[j] as i64;
            let ghost prod = p0[j + half_t] * twiddle;
            proof {
                assert(-0x4000_0000_0000_0000 <= prod <= 0x4000_0000_0000_0000) by (nonlinear_arith)
                    requires
                        prod == p0[j + half_t] * twiddle,
                        -0x8000_0000 <= p0[j + half_t] < 0x8000_0000,
                        -0x8000_0000 <= twiddle < 0x8000_0000,
                ;
                lemma_trem(prod, qq);
            }
            let v = p[j + half_t] as i64 * twiddle % q;
            assert(v == trem(prod, qq));
            proof {
                lemma_trem(u + v, qq);
                lemma_trem(u + q - v, qq);
            }
            let a = (u + v) % q;
            let b = (u + q - v) % q;
            assert(a == trem(u + v, qq));
            assert(b == trem(u + q - v, qq));
            p[j] = a as i32;
            p[j + half_t] = b as i32;
            proof {
                let w = signed(table@)[m + i];
                assert(w == twiddle);
                lemma_block_index(j as int, i as int, t as int);
                lemma_block_index(j + half_t, i as int, t as int);
                assert(prod == w * p0[j + half_t]) by (nonlinear_arith)
                    requires
                        prod == p0[j + half_t] * twiddle,
                        w == twiddle,
                ;
                assert(p1[j as int] == (p0[j as int] + w * p0[j + half_t]) % qq);
                assert(p1r[j as int] == trem(p0[j as int] + trem(p0[j + half_t] * w, qq), qq));
                assert(p1r[j + half_t] == trem(p0[j as int] + qq - trem(p0[j + half_t] * w, qq), qq));
                assert(p1[j + half_t] == (p0[j as int] - w * p0[j + half_t]) % qq);
                lemma_add_mod_noop(u as int, v as int, qq);
                lemma_add_mod_noop(u as int, prod, qq);
                lemma_mod_twice(u + prod, qq);
                lemma_mod_add_multiples_vanish(u - v, qq);
                lemma_sub_mod_noop(u as int, v as int, qq);
                lemma_sub_mod_noop(u as int, prod, qq);
                lemma_mod_twice(u - prod, qq);
                if pos {
                    assert(p0[j + half_t] >= 0);
                    assert(table@[m + i] >= 0);
                    assert(prod >= 0) by (nonlinear_arith)
                        requires
                            prod == p0[j + half_t] * twiddle,
                            p0[j + half_t] >= 0,
                            twiddle >= 0,
                    ;
                }
                assert forall|k: int|
                    0 <= k < N implies (if k < start || (start <= k < j + 1) || (start + half_t
                    <= k < j + 1 + half_t) {
                    -qq < #[trigger] p@[k] < qq && (p@[k] as int) % qq == p1[k] % qq && p@[k] == p1r[k] && (pos
                        ==> p@[k] >= 0)
                } else {
                    p@[k] == p0[k]
                }) by {
                    if k != j && k != j + half_t {
                        assert(p@[k] == before[k]);
                    }
                }
            }
        }
        proof {
            assert forall|k: int|
                0 <= k < N implies (if k < (i + 1) * t {
                -qq < #[trigger] p@[k] < qq && (p@[k] as int) % qq == p1[k] % qq && p@[k] == p1r[k] && (pos ==> p@[k]
                    >= 0)
            } else {
                p@[k] == p0[k]
            }) by {
                if start <= k < start + t {
                    if k >= start + half_t {
                        assert(start + half_t <= k < start + half_t + half_t);
                    }
                }
            }
        }
    }
    proof {
        lemma_fwd_layer_canonical(p0, signed(table@), qq, l as nat);
        assert forall|k: int| 0 <= k < N implies #[trigger] signed(p@)[k] % qq == p1[k] % qq by {
            assert(k < m * t);
        }
        assert(signed(p@) =~= p1r) by {
            assert forall|k: int| 0 <= k < N implies #[trigger] signed(p@)[k] == p1r[k] by {
                assert(k < m * t);
            }
        }
    }
}

/// The forward negacyclic NTT over `i32` coefficients with Rust's truncated
/// remainders: `tz(N)` butterfly layers, so all `log2(N)` of them when `N`
/// is a power of two. The outputs agree modulo `q` with the transform of the
/// inputs, lie strictly between `−q` and `q`, and are the canonical transform
/// itself for non-negative inputs and twiddles.
#[inline]
pub fn forward_ntt_i32<const N: usize>(p: &mut [i32; N], modulus: i32, table: &[i32; N])
    requires
        modulus > 0,
        N > 0,
    ensures
        signed(final(p)@) == fwd_layers_rem(
            signed(old(p)@),
            signed(table@),
            modulus as int,
            tz(N as nat),
        ),
        tz(N as nat) > 0 ==> in_window(final(p)@, modulus as int),
        congruent(
            signed(final(p)@),
            fwd_layers(signed(old(p)@), signed(table@), modulus as int, tz(N as nat)),
            modulus as int,
        ),
        nonneg(old(p)@) && nonneg(table@) ==> nonneg(final(p)@),
{
    let ghost qq = modulus as int;
    let ghost p0 = signed(p@);
    let ghost tb = signed(table@);
    let levels = trailing_zeros(N);
    let mut t = N;
    proof {
        lemma2_to64();
        assert(N as int / (pow2(0) as int) == N);
    }
    for l in 0..levels
        invariant
            modulus > 0,
            qq == modulus,
            N > 0,
            levels == tz(N as nat),
            p0 == signed(old(p)@),
            tb == signed(table@),
            t == N as int / (pow2(l as nat) as int),
            l > 0 ==> in_window(p@, qq),
            signed(p@) == fwd_layers_rem(p0, tb, qq, l as nat),
            congruent(signed(p@), fwd_layers(p0, tb, qq, l as nat), qq),
            nonneg(old(p)@) && nonneg(table@) ==> nonneg(p@),
    {
        let ghost before = signed(p@);
        proof {
            lemma_tz_shape(N as nat, l as nat);
            super::transform::lemma_fwd_layers_len(p0, tb, qq, l as nat);
            lemma_fwd_layer_congruent(before, fwd_layers(p0, tb, qq, l as nat), tb, qq, l as nat);
        }
        forward_layer_i32(p, modulus, table, l, t);
        proof {
            assert(t >> 1 == t / 2) by (bit_vector);
            lemma_pow2_unfold((l + 1) as nat);
            lemma_pow2_pos(l as nat);
            lemma_div_denominator(N as int, pow2(l as nat) as int, 2);
            assert(pow2(l as nat) * 2 == pow2((l + 1) as nat));
        }
        t = t >> 1;
    }
}

/// Entries of `s` lie in `[0, q)`.
pub open spec fn reduced(s: Seq<i32>, q: int) -> bool {
    forall|k: int| 0 <= k < s.len() ==> 0 <= #[trigger] s[k] < q
}

/// The inverse butterflies cannot overflow for any input: for any `i32`
/// pair `(u, v)`, `|u + q − v| < 2^32 + q`, and every twiddle keeps that
/// times itself within an `i64`. (Canonical inputs and twiddles never
/// overflow either, since `2q^2 < 2^63`.)
pub open spec fn inverse_fits(itable: Seq<i32>, q: int) -> bool {
    forall|k: int|
        1 <= k < itable.len() ==> (q + 0x1_0000_0000) * abs(#[trigger] itable[k] as int)
            <= i64::MAX
}

/// One inverse butterfly layer `l` (`half_m == 2^l` blocks, half-block size
/// `t`), in place, with Rust's truncated remainders.
fn inverse_layer_i32<const N: usize>(
    p: &mut [i32; N],
    modulus: i32,
    inverse_table: &[i32; N],
    half_m: usize,
    t: usize,
    Ghost(l): Ghost<nat>,
)
    requires
        modulus > 0,
        is_power_of_two(N as nat),
        l < log2(N as nat),
        half_m == pow2(l),
        t * 2 == N as int / (pow2(l) as int),
        inverse_fits(inverse_table@, modulus as int) || (reduced(old(p)@, modulus as int)
            && reduced(inverse_table@, modulus as int)),
    ensures
        signed(final(p)@) == inv_layer_rem(signed(old(p)@), signed(inverse_table@), modulus as int, l),
        in_window(final(p)@, modulus as int),
        congruent(
            signed(final(p)@),
            inv_layer(signed(old(p)@), signed(inverse_table@), modulus as int, l),
            modulus as int,
        ),
        reduced(old(p)@, modulus as int) && nonneg(inverse_table@) ==> reduced(
            final(p)@,
            modulus as int,
        ),
{
    let ghost qq = modulus as int;
    let ghost p0 = signed(p@);
    let ghost p1 = inv_layer(p0, signed(inverse_table@), qq, l);
    let ghost p1r = inv_layer_rem(p0, signed(inverse_table@), qq, l);
    let ghost pos = reduced(p@, qq) && nonneg(inverse_table@);
    let q = modulus as i64;
    proof {
        lemma_layer_shape(N as nat, l);
    }
    let double_t = t * 2;
    proof {
        assert(0 * double_t == 0);
        assert forall|k: int| 0 <= k < N implies p@[k] == #[trigger] p0[k] by {}
    }
    for i in 0..half_m
        invariant
            modulus > 0,
            qq == modulus,
            q == modulus,
            half_m == pow2(l),
            half_m * double_t == N,
            double_t == 2 * t,
            half_m * 2 <= N,
            p0.len() == N,
            p0.len() as int / (pow2(l) as int) == double_t as int,
            p1 == inv_layer(p0, signed(inverse_table@), qq, l),
            p1r == inv_layer_rem(p0, signed(inverse_table@), qq, l),
            pos == (reduced(old(p)@, qq) && nonneg(inverse_table@)),
            p0 == signed(old(p)@),
            inverse_fits(inverse_table@, qq) || (reduced(old(p)@, qq) && reduced(
                inverse_table@,
                qq,
            )),
            forall|k: int|
                0 <= k < N ==> (if k < i * double_t {
                    -qq < #[trigger] p@[k] < qq && (p@[k] as int) % qq == p1[k] % qq && p@[k] == p1r[k] && (pos
                        ==> p@[k] >= 0)
                } else {
                    p@[k] == p0[k]
                }),
    {
        proof {
            lemma_mul_is_distributive_add_other_way(double_t as int, i as int, 1);
            lemma_mul_inequality(i as int + 1, half_m as int, double_t as int);
        }
        let twiddle = inverse_table[half_m + i] as i64;
        let start = i * double_t;
        for j in start..start + t
            invariant
                modulus > 0,
                qq == modulus,
                q == modulus,
                half_m == pow2(l),
                half_m * double_t == N,
                double_t == 2 * t,
                i < half_m,
                half_m * 2 <= N,
                start == i * double_t,
                start + double_t <= N,
                twiddle == inverse_table[half_m + i],
                1 <= half_m + i < N,
                p0.len() == N,
                p0.len() as int / (pow2(l) as int) == double_t as int,
                p1 == inv_layer(p0, signed(inverse_table@), qq, l),
                p1r == inv_layer_rem(p0, signed(inverse_table@), qq, l),
            p1r == inv_layer_rem(p0, signed(inverse_table@), qq, l),
                pos == (reduced(old(p)@, qq) && nonneg(inverse_table@)),
                p0 == signed(old(p)@),
                inverse_fits(inverse_table@, qq) || (reduced(old(p)@, qq) && reduced(
                    inverse_table@,
                    qq,
                )),
                forall|k: int|
                    0 <= k < N ==> (if k < start || (start <= k < j) || (start + t <= k < j + t) {
                        -qq < #[trigger] p@[k] < qq && (p@[k] as int) % qq == p1[k] % qq && p@[k] == p1r[k] && (pos
                            ==> p@[k] >= 0)
                    } else {
                        p@[k] == p0[k]
                    }),
        {
            let ghost before = p@;
            assert(before[j as int] == p0[j as int]);
            assert(before[j + t] == p0[j + t]);
            let u = p[j] as i64;
            let v = p[j + t] as i64;
            let ghost diff = u + q - v;
            proof {
                if inverse_fits(inverse_table@, qq) {
                    assert(abs(twiddle as int) * (qq + 0x1_0000_0000) <= i64::MAX) by {
                        assert((qq + 0x1_0000_0000) * abs(inverse_table@[half_m + i] as int)
                            <= i64::MAX);
                    }
                    assert(-i64::MAX <= diff * twiddle <= i64::MAX) by (nonlinear_arith)
                        requires
                            diff == u + qq - v,
                            -0x8000_0000 <= u < 0x8000_0000,
                            -0x8000_0000 <= v < 0x8000_0000,
                            0 < qq < 0x8000_0000,
                            abs(twiddle as int) * (qq + 0x1_0000_0000) <= i64::MAX,
                            abs(twiddle as int) == (if twiddle < 0 {
                                -twiddle
                            } else {
                                twiddle as int
                            }),
                    ;
                } else {
                    assert(old(p)@[j as int] == u && old(p)@[j + t] == v);
                    assert(0 <= inverse_table@[half_m + i] < qq);
                    assert(0 <= diff * twiddle <= i64::MAX) by (nonlinear_arith)
                        requires
                            diff == u + qq - v,
                            0 <= u < qq,
                            0 <= v < qq,
                            0 < qq < 0x8000_0000,
                            0 <= twiddle < qq,
                    ;
                }
                lemma_trem(u + v, qq);
                lemma_trem(diff * twiddle, qq);
            }
            let a = (u + v) % q;
            let b = (u + q - v) * twiddle % q;
            assert(a == trem(u + v, qq));
            assert(b == trem(diff * twiddle, qq));
            p[j] = a as i32;
            p[j + t] = b as i32;
            proof {
                let w = signed(inverse_table@)[half_m + i];
                assert(w == twiddle);
                lemma_block_index(j as int, i as int, double_t as int);
                lemma_block_index(j + t, i as int, double_t as int);
                assert(p1[j as int] == (p0[j as int] + p0[j + t]) % qq);
                assert(p1[j + t] == ((p0[j as int] - p0[j + t]) * w) % qq);
                assert(p1r[j as int] == trem(p0[j as int] + p0[j + t], qq));
                assert(p1r[j + t] == trem((p0[j as int] + qq - p0[j + t]) * w, qq));
                lemma_mod_add_multiples_vanish(u - v, qq);
                lemma_mul_mod_noop_left(diff, w, qq);
                lemma_mul_mod_noop_left(u - v, w, qq);
                lemma_mod_twice(u + v, qq);
                lemma_mod_twice((u - v) * w, qq);
                if pos {
                    assert(old(p)@[j as int] == u && old(p)@[j + t] == v);
                    assert(0 <= u < qq && 0 <= v < qq);
                    assert(inverse_table@[half_m + i] >= 0);
                    assert(diff * twiddle >= 0) by (nonlinear_arith)
                        requires
                            diff == u + qq - v,
                            v < qq,
                            u >= 0,
                            twiddle >= 0,
                    ;
                }
                assert forall|k: int|
                    0 <= k < N implies (if k < start || (start <= k < j + 1) || (start + t <= k
                    < j + 1 + t) {
                    -qq < #[trigger] p@[k] < qq && (p@[k] as int) % qq == p1[k] % qq && p@[k] == p1r[k] && (pos
                        ==> p@[k] >= 0)
                } else {
                    p@[k] == p0[k]
                }) by {
                    if k != j && k != j + t {
                        assert(p@[k] == before[k]);
                    }
                }
            }
        }
        proof {
            assert forall|k: int|
                0 <= k < N implies (if k < (i + 1) * double_t {
                -qq < #[trigger] p@[k] < qq && (p@[k] as int) % qq == p1[k] % qq && p@[k] == p1r[k] && (pos ==> p@[k]
                    >= 0)
            } else {
                p@[k] == p0[k]
            }) by {
                if start <= k < start + double_t {
                    if k >= start + t {
                        assert(start + t <= k < start + t + t);
                    }
                }
            }
        }
    }
    proof {
        lemma_inv_layer_canonical(p0, signed(inverse_table@), qq, l);
        assert forall|k: int| 0 <= k < N implies #[trigger] signed(p@)[k] % qq == p1[k] % qq by {
            assert(k < half_m * double_t);
        }
        assert(signed(p@) =~= p1r) by {
            assert forall|k: int| 0 <= k < N implies #[trigger] signed(p@)[k] == p1r[k] by {
                assert(k < half_m * double_t);
            }
        }
    }
}

/// The inverse negacyclic NTT over `i32` coefficients with Rust's truncated
/// remainders, including the final scaling by `inverse_n`. The outputs agree
/// modulo `q` with the inverse transform of the inputs, lie strictly between
/// `−q` and `q`, and are the canonical inverse transform itself for inputs
/// in `[0, q)` with non-negative twiddles and `inverse_n`.
#[inline]
pub fn inverse_ntt_i32<const N: usize>(
    p: &mut [i32; N],
    modulus: i32,
    inverse_table: &[i32; N],
    inverse_n: i32,
)
    requires
        modulus > 0,
        is_power_of_two(N as nat),
        inverse_fits(inverse_table@, modulus as int) || (reduced(old(p)@, modulus as int)
            && reduced(inverse_table@, modulus as int)),
    ensures
        signed(final(p)@) == intt_rem(
            signed(old(p)@),
            signed(inverse_table@),
            inverse_n as int,
            modulus as int,
        ),
        in_window(final(p)@, modulus as int),
        congruent(
            signed(final(p)@),
            intt_spec(signed(old(p)@), signed(inverse_table@), inverse_n as int, modulus as int),
            modulus as int,
        ),
        reduced(old(p)@, modulus as int) && nonneg(inverse_table@) && inverse_n >= 0 ==> nonneg(
            final(p)@,
        ),
{
    let ghost qq = modulus as int;
    let ghost p0 = signed(p@);
    let ghost it = signed(inverse_table@);
    let ghost big_l = log2(N as nat);
    let ghost pos = reduced(p@, qq) && nonneg(inverse_table@);
    let q = modulus as i64;
    let mut t: usize = 1;
    let mut m = N;
    let ghost mut k: nat = 0;
    proof {
        lemma2_to64();
        super::transform::lemma_log2_bound(N as nat);
        assert forall|j: int| 0 <= j < N implies #[trigger] signed(p@)[j] % qq == p0[j] % qq by {}
    }
    while m > 1
        invariant
            modulus > 0,
            qq == modulus,
            q == modulus,
            is_power_of_two(N as nat),
            big_l == log2(N as nat),
            inverse_fits(inverse_table@, qq) || (reduced(old(p)@, qq) && reduced(
                inverse_table@,
                qq,
            )),
            p0 == signed(old(p)@),
            it == signed(inverse_table@),
            pos == (reduced(old(p)@, qq) && nonneg(inverse_table@)),
            k <= big_l,
            t == pow2(k),
            m == pow2((big_l - k) as nat),
            k > 0 ==> in_window(p@, qq),
            signed(p@) == inv_layers_rem(p0, it, qq, big_l, k),
            congruent(signed(p@), inv_layers(p0, it, qq, big_l, k), qq),
            pos ==> reduced(p@, qq),
        decreases m,
    {
        let ghost l = (big_l - k - 1) as nat;
        let ghost before = signed(p@);
        proof {
            assert(k < big_l) by {
                if k == big_l {
                    lemma2_to64();
                    assert(m == 1);
                }
            }
            lemma_layer_shape(N as nat, l);
            lemma_pow2_unfold((big_l - k) as nat);
            lemma_pow2_unfold((k + 1) as nat);
            assert(t * 2 == N as int / (pow2(l) as int));
            super::transform::lemma_inv_layers_len(p0, it, qq, big_l, k);
            lemma_inv_layer_congruent(before, inv_layers(p0, it, qq, big_l, k), it, qq, l);
        }
        assert(m >> 1 == m / 2) by (bit_vector);
        let half_m = m >> 1;
        inverse_layer_i32(p, modulus, inverse_table, half_m, t, Ghost(l));
        proof {
            assert(inv_layers_rem(p0, it, qq, big_l, (k + 1) as nat) == inv_layer_rem(
                inv_layers_rem(p0, it, qq, big_l, k),
                it,
                qq,
                l,
            ));
            assert(inv_layers(p0, it, qq, big_l, (k + 1) as nat) == inv_layer(
                inv_layers(p0, it, qq, big_l, k),
                it,
                qq,
                l,
            ));
        }
        t = t * 2;
        m = half_m;
        proof {
            k = k + 1;
        }
    }
    proof {
        assert(k == big_l) by {
            if k < big_l {
                lemma_pow2_unfold((big_l - k) as nat);
                lemma_pow2_pos((big_l - k - 1) as nat);
            }
        }
        assert(big_l == log2(p0.len()));
    }
    let ghost lay = inv_layers(p0, it, qq, big_l, big_l);
    let ghost lay_r = inv_layers_rem(p0, it, qq, big_l, big_l);
    proof {
        super::transform::lemma_inv_layers_len(p0, it, qq, big_l, big_l);
        super::transform::lemma_inv_layers_len(p0, it, qq, big_l, big_l);
        lemma_inv_layers_rem_len(p0, it, qq, big_l, big_l);
        assert forall|i: int| 0 <= i < N implies (#[trigger] p@[i] as int) % qq == lay[i] % qq
            && p@[i] == lay_r[i] && (pos ==> 0 <= p@[i] < qq) by {
            assert(signed(p@)[i] == p@[i]);
        }
    }
    for j in 0..N
        invariant
            modulus > 0,
            qq == modulus,
            q == modulus,
            p0 == signed(old(p)@),
            it == signed(inverse_table@),
            pos == (reduced(old(p)@, qq) && nonneg(inverse_table@)),
            lay == inv_layers(p0, it, qq, big_l, big_l),
            lay.len() == N,
            lay_r == inv_layers_rem(p0, it, qq, big_l, big_l),
            lay_r.len() == N,
            forall|i: int|
                0 <= i < N ==> (if i < j {
                    -qq < #[trigger] p@[i] < qq && (p@[i] as int) % qq == (inverse_n * lay[i])
                        % qq && p@[i] == trem(lay_r[i] * inverse_n, qq) && (pos && inverse_n >= 0
                        ==> p@[i] >= 0)
                } else {
                    (p@[i] as int) % qq == lay[i] % qq && p@[i] == lay_r[i] && (pos ==> 0 <= p@[i]
                        < qq)
                }),
    {
        let x = p[j] as i64;
        let ghost prod = x * inverse_n;
        proof {
            assert(-0x4000_0000_0000_0000 <= prod <= 0x4000_0000_0000_0000) by (nonlinear_arith)
                requires
                    prod == x * inverse_n,
                    -0x8000_0000 <= x < 0x8000_0000,
                    -0x8000_0000 <= inverse_n < 0x8000_0000,
            ;
            lemma_trem(prod, qq);
            lemma_mul_mod_noop_left(x as int, inverse_n as int, qq);
            lemma_mul_mod_noop_left(lay[j as int], inverse_n as int, qq);
            assert(x * inverse_n == inverse_n * x) by (nonlinear_arith);
            assert(lay[j as int] * inverse_n == inverse_n * lay[j as int]) by (nonlinear_arith);
            if pos && inverse_n >= 0 {
                assert(prod >= 0) by (nonlinear_arith)
                    requires
                        prod == x * inverse_n,
                        x >= 0,
                        inverse_n >= 0,
                ;
            }
        }
        let r = x * inverse_n as i64 % q;
        assert(r == trem(prod, qq));
        let ghost before = p@;
        p[j] = r as i32;
        proof {
            assert forall|i: int|
                0 <= i < N implies (if i < j + 1 {
                -qq < #[trigger] p@[i] < qq && (p@[i] as int) % qq == (inverse_n * lay[i]) % qq
                    && p@[i] == trem(lay_r[i] * inverse_n, qq) && (pos && inverse_n >= 0 ==> p@[i]
                    >= 0)
            } else {
                (p@[i] as int) % qq == lay[i] % qq && p@[i] == lay_r[i] && (pos ==> 0 <= p@[i] < qq)
            }) by {
                if i != j {
                    assert(p@[i] == before[i]);
                }
            }
        }
    }
    proof {
        assert(signed(p@) =~= intt_rem(p0, it, inverse_n as int, qq));
        let sc = scale(lay, inverse_n as int, qq);
        assert(intt_spec(p0, it, inverse_n as int, qq) == sc);
        assert forall|i: int| 0 <= i < N implies #[trigger] signed(p@)[i] % qq == sc[i] % qq by {
            lemma_mod_twice(inverse_n * lay[i], qq);
        }
    }
}

/// For a power of two, the trailing-zero count is the logarithm.
pub proof fn lemma_tz_log2(n: nat)
    requires
        is_power_of_two(n),
    ensures
        tz(n) == log2(n),
    decreases n,
{
    lemma2_to64();
    if n > 1 {
        let k = log2(n);
        assert(k == 1 + log2(n / 2));
        lemma_pow2_unfold(k);
        assert(n == 2 * pow2(log2(n / 2)));
        assert(n % 2 == 0 && n / 2 == pow2(log2(n / 2)));
        lemma_tz_log2(n / 2);
    }
}

/// The two `i32` transforms undo each other modulo `q`: for `N` a power of
/// two, inverse tables and `inverse_n·N ≡ 1 (mod q)`, the inverse transform
/// of the forward transform of `p` agrees with `p` modulo `q`.
pub proof fn lemma_ntt_i32_roundtrip(
    p: Seq<i32>,
    forward: Seq<i32>,
    back: Seq<i32>,
    table: Seq<i32>,
    inverse_table: Seq<i32>,
    inverse_n: int,
    q: int,
)
    requires
        q > 1,
        is_power_of_two(p.len()),
        table.len() == p.len(),
        inverse_table.len() == p.len(),
        tables_inverse(signed(table), signed(inverse_table), q, p.len()),
        (inverse_n * p.len()) % q == 1,
        congruent(signed(forward), fwd_layers(signed(p), signed(table), q, tz(p.len())), q),
        congruent(signed(back), intt_spec(signed(forward), signed(inverse_table), inverse_n, q), q),
    ensures
        congruent(signed(back), signed(p), q),
{
    let n = p.len();
    let pp = signed(p);
    let pr = Seq::new(n, |k: int| pp[k] % q);
    let tb = signed(table);
    let it = signed(inverse_table);
    lemma_tz_log2(n);
    assert forall|k: int| 0 <= k < n implies 0 <= #[trigger] pr[k] < q by {
        lemma_mod_bound(pp[k], q);
    }
    assert(congruent(pp, pr, q)) by {
        assert forall|k: int| 0 <= k < n implies #[trigger] pp[k] % q == pr[k] % q by {
            lemma_mod_twice(pp[k], q);
        }
    }
    // the forward output is congruent to the transform of the reduced input
    lemma_fwd_layers_congruent(pp, pr, tb, q, log2(n));
    let x = ntt_spec(pr, tb, q);
    super::transform::lemma_fwd_layers_len(pr, tb, q, log2(n));
    super::transform::lemma_fwd_layers_len(pp, tb, q, log2(n));
    assert(congruent(signed(forward), x, q)) by {
        assert forall|k: int| 0 <= k < n implies #[trigger] signed(forward)[k] % q == x[k] % q by {
            assert(signed(forward)[k] % q == fwd_layers(pp, tb, q, log2(n))[k] % q);
            assert(fwd_layers(pp, tb, q, log2(n))[k] % q == fwd_layers(pr, tb, q, log2(n))[k] % q);
        }
    }
    lemma_intt_congruent(signed(forward), x, it, inverse_n, q);
    lemma_roundtrip(pr, tb, it, inverse_n, q);
    assert forall|k: int| 0 <= k < n implies #[trigger] signed(back)[k] % q == signed(p)[k] % q by {
        lemma_mod_twice(pp[k], q);
        lemma_small_mod(pr[k] as nat, q as nat);
    }
}

#[verifier::external_type_specification]
#[verifier::external_body]
pub struct ExChaCha20Rng(ChaCha20Rng);

/// The next 32-bit word of the generator (`RngCore::next_u32` of
/// `rand_chacha::ChaCha20Rng`). Nothing is stated of the word: it depends on
/// the generator's state.
#[verifier::external_body]
fn next_word(rng: &mut ChaCha20Rng) -> u32 {
    rng.next_u32()
}

/// The SHA-256 digest of a byte string.
pub uninterp spec fn sha256_spec(bytes: Seq<u8>) -> Seq<u8>;

/// SHA-256 of `bytes` (`sha2::Sha256::digest`, the one-shot form of
/// `new`, `update` and `finalize`): the digest function applied to the bytes.
#[verifier::external_body]
fn sha256(bytes: &[u8]) -> (r: [u8; 32])
    ensures
        r@ == sha256_spec(bytes@),
{
    Sha256::digest(bytes).into()
}

/// Bit `b` of the word `w`.
pub open spec fn word_bit(w: u32, b: nat) -> int {
    ((w as int) / (pow2(b) as int)) % 2
}

/// The binary polynomial whose coefficient `32·c + b` is bit `b` of word `c`,
/// for every whole chunk of 32 coefficients; the rest stay zero.
pub fn binary_from_words<const N: usize>(words: &[u32]) -> (coeffs: [i32; N])
    requires
        words@.len() == N / 32,
    ensures
        forall|k: int|
            0 <= k < N ==> #[trigger] coeffs[k] == (if k < 32 * (N / 32) {
                word_bit(words@[k / 32], (k % 32) as nat)
            } else {
                0
            }),
{
    let mut coeffs = [0i32; N];
    for c in 0..N / 32
        invariant
            words@.len() == N / 32,
            forall|k: int|
                0 <= k < N ==> #[trigger] coeffs[k] == (if k < 32 * c {
                    word_bit(words@[k / 32], (k % 32) as nat)
                } else {
                    0
                }),
    {
        let w = words[c];
        let mut value = w;
        assert(w >> 0u32 == w) by (bit_vector);
        for b in 0..32usize
            invariant
                c < N / 32,
                w == words@[c as int],
                words@.len() == N / 32,
                b < 32 ==> value == w >> (b as u32),
                forall|k: int|
                    0 <= k < N ==> #[trigger] coeffs[k] == (if k < 32 * c + b {
                        word_bit(words@[k / 32], (k % 32) as nat)
                    } else {
                        0
                    }),
        {
            let ghost bb = b as u32;
            proof {
                vstd::bits::lemma_u32_shr_is_div(w, bb);
                assert((value & 1) == value % 2) by (bit_vector);
                assert(bb < 31 ==> (w >> bb) >> 1u32 == w >> ((bb + 1) as u32)) by (bit_vector)
                    requires
                        bb < 32,
                ;
                let k = 32 * c + b;
                assert(k / 32 == c && k % 32 == b);
            }
            coeffs[c * 32 + b] = (value & 1) as i32;
            value >>= 1;
        }
    }
    coeffs
}

/// A uniformly random binary polynomial: each whole chunk of 32 coefficients
/// takes the bits of one fresh word; the coefficients past the last whole
/// chunk stay zero.
pub fn rand_binary_i32<const N: usize>(rng: &mut ChaCha20Rng) -> (coeffs: [i32; N])
    ensures
        forall|k: int| 0 <= k < N ==> #[trigger] coeffs[k] == 0 || coeffs[k] == 1,
        forall|k: int| 32 * (N / 32) <= k < N ==> #[trigger] coeffs[k] == 0,
{
    let mut words: Vec<u32> = Vec::new();
    for c in 0..N / 32
        invariant
            words@.len() == c,
    {
        words.push(next_word(rng));
    }
    let coeffs = binary_from_words(words.as_slice());
    proof {
        assert forall|k: int| 0 <= k < N implies #[trigger] coeffs[k] == 0 || coeffs[k] == 1 by {
            if k < 32 * (N / 32) {
                lemma_mod_bound(words@[k / 32] as int / (pow2((k % 32) as nat) as int), 2);
            }
        }
    }
    coeffs
}

/// The bytes hashed for a polynomial: the low two bytes of each coefficient
/// in two's complement, least significant first.
pub open spec fn coeff_bytes(s: Seq<i32>) -> Seq<u8> {
    Seq::new(
        2 * s.len(),
        |j: int|
            if j % 2 == 0 {
                (s[j / 2] & 0xff) as u8
            } else {
                ((s[j / 2] >> 8i32) & 0xff) as u8
            },
    )
}

/// SHA-256 of the low two bytes of every coefficient.
pub fn digest_i32<const N: usize>(coeffs: &[i32; N]) -> (r: [u8; 32])
    requires
        2 * N <= usize::MAX,
    ensures
        r@ == sha256_spec(coeff_bytes(coeffs@)),
{
    let mut bytes: Vec<u8> = Vec::new();
    for i in 0..N
        invariant
            bytes@ == coeff_bytes(coeffs@.subrange(0, i as int)),
    {
        let coefficient = coeffs[i];
        bytes.push((coefficient & 0xff) as u8);
        bytes.push(((coefficient >> 8) & 0xff) as u8);
        proof {
            let s = coeffs@.subrange(0, i + 1);
            assert(s.subrange(0, i as int) =~= coeffs@.subrange(0, i as int));
            assert forall|j: int| 0 <= j < 2 * i implies #[trigger] coeff_bytes(s)[j] == coeff_bytes(
                coeffs@.subrange(0, i as int),
            )[j] by {
                assert(j / 2 < i);
            }
            assert(bytes@ =~= coeff_bytes(s));
        }
    }
    proof {
        assert(coeffs@.subrange(0, N as int) =~= coeffs@);
    }
    sha256(bytes.as_slice())
}

/// The seed a message is hashed to: its SHA-256 digest.
pub fn hash_message_seed(msg: &[u8]) -> (seed: [u8; 32])
    ensures
        seed@ == sha256_spec(msg@),
{
    sha256(msg)
}

/// A word read as a two's-complement `i32`.
pub open spec fn as_signed(x: int) -> int {
    if x < 0x8000_0000 {
        x
    } else {
        x - 0x1_0000_0000
    }
}

/// An `i32` read as an unsigned word.
pub open spec fn as_unsigned(x: int) -> int {
    if x < 0 {
        x + 0x1_0000_0000
    } else {
        x
    }
}

/// One draw of uniform coefficient sampling: a word below `threshold` gives
/// the coefficient `(value mod modulus) − modulus_over_two`, the modulus
/// and the remainder read as words the way `as` casts them; any other word
/// is rejected and must be redrawn. The coefficient is returned exactly,
/// before it is narrowed to `i32`.
pub fn poly_sample(value: u32, modulus: i32, modulus_over_two: i32, threshold: u32) -> (r: Option<
    i64,
>)
    requires
        value < threshold ==> modulus != 0,
    ensures
        r == (if value < threshold {
            Some(
                (as_signed((value as int) % as_unsigned(modulus as int)) - modulus_over_two) as i64,
            )
        } else {
            None::<i64>
        }),
{
    if value >= threshold {
        None
    } else {
        let m = modulus as u32;
        assert(m == as_unsigned(modulus as int)) by (bit_vector)
            requires
                m == modulus as u32,
        ;
        let rem = value % m;
        let a = rem as i32;
        assert(a == as_signed(rem as int)) by (bit_vector)
            requires
                a == rem as i32,
        ;
        Some(a as i64 - modulus_over_two as i64)
    }
}

/// The centered modulus `2p + 1` with the rejection threshold, the largest
/// multiple of it not above `2^32`; `None` where `2p + 1` exceeds `u32`.
pub fn mod_p_params(p: u32) -> (r: Option<(u32, u64)>)
    ensures
        r == (if 2 * p + 1 <= u32::MAX {
            Some(
                (
                    (2 * p + 1) as u32,
                    ((0x1_0000_0000int / (2 * p + 1)) * (2 * p + 1)) as u64,
                ),
            )
        } else {
            None::<(u32, u64)>
        }),
{
    let modulus = match p.checked_mul(2) {
        Some(v) => v.checked_add(1),
        None => None,
    };
    match modulus {
        Some(m) => {
            proof {
                lemma_div_is_ordered_by_denominator(0x1_0000_0000, 1, m as int);
                lemma_fundamental_div_mod(0x1_0000_0000, m as int);
                lemma_mod_bound(0x1_0000_0000, m as int);
                assert((0x1_0000_0000int / (m as int)) * m <= 0x1_0000_0000) by (nonlinear_arith)
                    requires
                        m * (0x1_0000_0000int / (m as int)) <= 0x1_0000_0000,
                ;
            }
            assert(1u64 << 32 == 0x1_0000_0000) by (bit_vector);
            let threshold = ((1u64 << 32) / m as u64) * m as u64;
            Some((m, threshold))
        },
        None => None,
    }
}

/// One draw of centered sampling modulo `2p + 1`: a word below `threshold`
/// gives `(value mod modulus) − p`, both read as `i32` the way `as` casts
/// them; any other word is rejected and must be redrawn. The coefficient is
/// returned exactly, before it is narrowed to `i32`.
pub fn mod_p_sample(value: u32, p: u32, modulus: u32, threshold: u64) -> (r: Option<i64>)
    requires
        modulus == 2 * p + 1,
    ensures
        r == (if (value as int) < threshold {
            Some((as_signed((value as int) % (modulus as int)) - as_signed(p as int)) as i64)
        } else {
            None::<i64>
        }),
{
    if value as u64 >= threshold {
        None
    } else {
        let rem = value % modulus;
        let a = rem as i32;
        let b = p as i32;
        assert(a == as_signed(rem as int)) by (bit_vector)
            requires
                a == rem as i32,
        ;
        assert(b == as_signed(p as int)) by (bit_vector)
            requires
                b == p as i32,
        ;
        Some(a as i64 - b as i64)
    }
}

/// The number of non-zero coefficients.
pub open spec fn nonzeros(s: Seq<i32>) -> nat
    decreases s.len(),
{
    if s.len() == 0 {
        0
    } else {
        nonzeros(s.drop_last()) + (if s.last() != 0 {
            1nat
        } else {
            0nat
        })
    }
}

/// Filling an empty slot with a non-zero value adds one non-zero coefficient.
pub proof fn lemma_nonzeros_fill(s: Seq<i32>, i: int, v: i32)
    requires
        0 <= i < s.len(),
        s[i] == 0,
        v != 0,
    ensures
        nonzeros(s.update(i, v)) == nonzeros(s) + 1,
    decreases s.len(),
{
    let t = s.update(i, v);
    if i == s.len() - 1 {
        assert(t.drop_last() =~= s.drop_last());
    } else {
        lemma_nonzeros_fill(s.drop_last(), i, v);
        assert(t.drop_last() =~= s.drop_last().update(i, v));
    }
}

/// One draw of sparse ternary sampling: the word picks the slot
/// `value mod N` and, by its bit `log2(N)`, the sign. An empty slot takes
/// `+1` or `−1` and the draw counts; a filled one is left as it is.
pub fn ternary_place<const N: usize>(coeffs: &mut [i32; N], value: u32, log_n: usize) -> (placed:
    bool)
    requires
        is_power_of_two(N as nat),
        log_n == log2(N as nat),
    ensures
        placed == (old(coeffs)[(value as int) % (N as int)] == 0),
        final(coeffs)@ == (if placed {
            old(coeffs)@.update(
                (value as int) % (N as int),
                if word_bit(value, log_n as nat) == 1 {
                    1i32
                } else {
                    -1i32
                },
            )
        } else {
            old(coeffs)@
        }),
        nonzeros(final(coeffs)@) == nonzeros(old(coeffs)@) + (if placed {
            1nat
        } else {
            0nat
        }),
{
    let value = value as usize;
    let index = value % N;
    if coeffs[index] == 0 {
        proof {
            super::transform::lemma_log2_bound(N as nat);
            vstd::bits::lemma_usize_shr_is_div(value, log_n);
            let x = value >> log_n;
            assert((x & 1) == x % 2) by (bit_vector);
        }
        let ghost before = coeffs@;
        coeffs[index] = if (value >> log_n) & 1 == 1 {
            1
        } else {
            -1
        };
        proof {
            lemma_nonzeros_fill(before, index as int, coeffs@[index as int]);
        }
        true
    } else {
        false
    }
}

/// One draw of balanced ternary sampling from a stream of words, `log2(N)`
/// bits at a time: the low bits of `value` pick a slot, which takes `sign`
/// if empty. Returns whether it was placed, the remaining bits, the count of
/// chunks taken from the current word, and whether that word is used up
/// (after `32 / log2(N)` chunks) so that a fresh one must replace it.
pub fn balanced_ternary_step<const N: usize>(
    coeffs: &mut [i32; N],
    value: u32,
    chunks: usize,
    sign: i32,
    log_n: usize,
) -> (r: (bool, u32, usize, bool))
    requires
        is_power_of_two(N as nat),
        2 <= N <= u32::MAX,
        log_n == log2(N as nat),
        chunks < 32usize / log_n,
    ensures
        r.0 == (old(coeffs)[(value as int) % (N as int)] == 0),
        final(coeffs)@ == (if r.0 {
            old(coeffs)@.update((value as int) % (N as int), sign)
        } else {
            old(coeffs)@
        }),
        r.1 == (value as int) / (pow2(log_n as nat) as int),
        r.3 == (chunks + 1 == 32usize / log_n),
        r.2 == (if r.3 { 0 } else { chunks + 1 }),
        sign != 0 ==> nonzeros(final(coeffs)@) == nonzeros(old(coeffs)@) + (if r.0 {
            1nat
        } else {
            0nat
        }),
{
    proof {
        super::transform::lemma_log2_bound(N as nat);
        assert(log_n >= 1) by {
            lemma2_to64();
            if log_n == 0 {
                assert(N == 1);
            }
        }
        assert(log_n < 32) by {
            if log_n >= 32 {
                lemma2_to64();
                lemma2_to64_rest();
                if log_n > 32 {
                    lemma_pow2_strictly_increases(32, log_n as nat);
                }
            }
        }
        vstd::bits::lemma_u32_shr_is_div(value, log_n as u32);
    }
    let mask = N as u32 - 1;
    let index = (value & mask) as usize;
    proof {
        let nn = N as u32;
        assert(nn == pow2(log_n as nat));
        vstd::bits::lemma_u32_low_bits_mask_is_mod(value, log_n as nat);
        assert(vstd::bits::low_bits_mask(log_n as nat) == nn - 1);
    }
    let next = value >> log_n;
    let mut taken = chunks + 1;
    let refill = taken == 32 / log_n;
    if refill {
        taken = 0;
    }
    let placed = coeffs[index] == 0;
    if placed {
        let ghost before = coeffs@;
        coeffs[index] = sign;
        proof {
            if sign != 0 {
                lemma_nonzeros_fill(before, index as int, sign);
            }
        }
    }
    (placed, next, taken, refill)
}

} // verus!
