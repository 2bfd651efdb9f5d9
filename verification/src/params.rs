//! Finding negacyclic roots of unity and building the twiddle tables of the
//! 32- and 64-bit rings.
use crate::poly::modular::{is_prime, lemma_fermat, lemma_wrapping_sub_is_mod};
use crate::ntt32::Ring32;
use crate::ntt64::Ring64;
use crate::poly::transform::{
    canonical, ints32, ints64, is_power_of_two, lemma_log2_bound, log2, log2_usize, negacyclic_roots,
    tables_inverse,
};
use vstd::arithmetic::div_mod::*;
use vstd::arithmetic::mul::*;
use vstd::arithmetic::power::*;
use vstd::arithmetic::power2::*;
use vstd::prelude::*;

verus! {

/// `base^exponent mod modulus` by square-and-multiply; `1` for a zero exponent.
fn pow_mod(base: u128, exponent: u128, modulus: u128) -> (r: u128)
    requires
        base < 0x1_0000_0000_0000_0000,
        modulus <= 0x1_0000_0000_0000_0000,
        exponent > 0 ==> modulus > 0,
    ensures
        exponent == 0 ==> r == 1,
        exponent > 0 ==> r == pow(base as int, exponent as nat) % (modulus as int),
{
    let ghost b0 = base as int;
    let ghost e0 = exponent as nat;
    let ghost m = modulus as int;
    let mut base = base;
    let mut exponent = exponent;
    let mut result = 1u128;
    proof {
        lemma_pow0(b0);
    }
    while exponent != 0
        invariant
            e0 > 0 ==> m > 0,
            m == modulus,
            m <= 0x1_0000_0000_0000_0000,
            base < 0x1_0000_0000_0000_0000,
            exponent <= e0,
            exponent < e0 ==> base < m,
            result < m || (result == 1 && (exponent > 0 || e0 == 0)),
            exponent == e0 ==> result == 1 && base == b0,
            e0 > 0 ==> (result * pow(base as int, exponent as nat)) % m == pow(b0, e0) % m,
        decreases exponent,
    {
        proof {
            lemma_mul_upper_bound(base as int, 0xffff_ffff_ffff_ffff, base as int, 0xffff_ffff_ffff_ffff);
            if result < m {
                lemma_mul_upper_bound(result as int, 0xffff_ffff_ffff_ffff, base as int, 0xffff_ffff_ffff_ffff);
            }
        }
        let ghost r0 = result as int;
        let ghost bb = base as int;
        let ghost e = exponent as nat;
        assert((exponent & 1 != 0) == (exponent % 2 == 1)) by (bit_vector);
        assert(exponent >> 1 == exponent / 2) by (bit_vector);
        if exponent & 1 != 0 {
            result = result * base % modulus;
        }
        base = base * base % modulus;
        exponent >>= 1;
        proof {
            let k = (e / 2) as nat;
            lemma_pow_multiplies(bb, 2, k);
            lemma_square_is_pow2(bb);
            lemma_pow_mod_noop(bb * bb, k, m);
            assert(pow(bb, 2) == bb * bb) by {
                reveal(pow);
            }
            if e % 2 == 1 {
                // bb^e = bb·(bb²)^(e/2)
                lemma_pow_adds(bb, 1, 2 * k);
                lemma_pow1(bb);
                assert(e == 1 + 2 * k);
                lemma_mul_mod_noop(r0 * bb, pow(bb * bb, k), m);
                lemma_mul_mod_noop_left(r0 * bb, pow(bb * bb, k), m);
                lemma_mul_mod_noop_right(result as int, pow(bb * bb, k), m);
                lemma_mul_mod_noop_right(result as int, pow(base as int, k), m);
                assert(pow(base as int, k) % m == pow(bb * bb, k) % m);
                assert(r0 * pow(bb, e) == (r0 * bb) * pow(bb * bb, k)) by (nonlinear_arith)
                    requires
                        pow(bb, e) == pow(bb, 1) * pow(bb, 2 * k),
                        pow(bb, 1) == bb,
                        pow(bb, 2 * k) == pow(bb * bb, k),
                ;
                lemma_mod_bound(r0 * bb, m);
            } else {
                assert(e == 2 * k);
                lemma_mul_mod_noop_right(r0, pow(bb * bb, k), m);
                lemma_mul_mod_noop_right(r0, pow(base as int, k), m);
                assert(pow(base as int, k) % m == pow(bb * bb, k) % m);
            }
            lemma_mod_bound(bb * bb, m);
        }
    }
    proof {
        lemma_pow0(base as int);
        if e0 > 0 {
            lemma_small_mod(result as nat, m as nat);
        }
    }
    result
}

/// The low `bits` bits of `v`, read backwards.
pub open spec fn brv(v: nat, bits: nat) -> nat
    decreases bits,
{
    if bits == 0 {
        0
    } else {
        (v % 2) * pow2((bits - 1) as nat) + brv(v / 2, (bits - 1) as nat)
    }
}

/// `value` with its low `bits` bits in reverse order.
fn reverse_bits(value: usize, bits: u32) -> (r: usize)
    requires
        0 < bits <= usize::BITS,
    ensures
        r == brv(value as nat, bits as nat),
{
    let mut r: usize = 0;
    let mut v = value;
    let mut k: u32 = 0;
    proof {
        lemma2_to64();
    }
    while k < bits
        invariant
            k <= bits <= usize::BITS,
            r < pow2(k as nat),
            r * pow2((bits - k) as nat) + brv(v as nat, (bits - k) as nat) == brv(
                value as nat,
                bits as nat,
            ),
        decreases bits - k,
    {
        proof {
            lemma_pow2_unfold((k + 1) as nat);
            lemma_pow2_unfold((bits - k) as nat);
            vstd::bits::lemma_usize_pow2_no_overflow(k as nat);
            if k + 1 < usize::BITS {
                vstd::bits::lemma_usize_pow2_no_overflow((k + 1) as nat);
            } else {
                lemma2_to64();
                lemma2_to64_rest();
            }
            let rest = (bits - k - 1) as nat;
            assert(r * pow2((bits - k) as nat) + brv(v as nat, (bits - k) as nat) == (2 * r + v
                % 2) * pow2(rest) + brv((v / 2) as nat, rest)) by (nonlinear_arith)
                requires
                    pow2((bits - k) as nat) == 2 * pow2(rest),
                    brv(v as nat, (bits - k) as nat) == (v % 2) * pow2(rest) + brv(
                        (v / 2) as nat,
                        rest,
                    ),
            ;
        }
        r = 2 * r + v % 2;
        v = v / 2;
        k = k + 1;
    }
    proof {
        lemma2_to64();
        assert(r * pow2(0) == r);
        assert(brv(v as nat, 0) == 0);
    }
    r
}

pub proof fn lemma_brv_zero(b: nat)
    ensures
        brv(0, b) == 0,
    decreases b,
{
    if b > 0 {
        lemma_brv_zero((b - 1) as nat);
        assert(brv(0, b) == (0nat % 2) * pow2((b - 1) as nat) + brv(0nat / 2, (b - 1) as nat));
        assert(0nat % 2 == 0 && 0nat / 2 == 0);
        assert(0 * pow2((b - 1) as nat) == 0);
    }
}

pub proof fn lemma_brv_bound(v: nat, b: nat)
    ensures
        brv(v, b) < pow2(b),
    decreases b,
{
    if b == 0 {
        lemma2_to64();
    } else {
        lemma_brv_bound(v / 2, (b - 1) as nat);
        lemma_pow2_unfold(b);
        assert((v % 2) * pow2((b - 1) as nat) <= pow2((b - 1) as nat)) by (nonlinear_arith)
            requires
                v % 2 <= 1,
        ;
    }
}

/// Reversing one more bit of a value that fits doubles the result.
pub proof fn lemma_brv_double(v: nat, b: nat)
    requires
        v < pow2(b),
    ensures
        brv(v, b + 1) == 2 * brv(v, b),
    decreases b,
{
    if b == 0 {
        lemma2_to64();
        assert(v == 0);
        lemma_brv_zero(1);
    } else {
        lemma_pow2_unfold(b);
        lemma_brv_double(v / 2, (b - 1) as nat);
        assert(brv(v, b + 1) == (v % 2) * pow2(b) + brv(v / 2, b));
        assert((v % 2) * pow2(b) == 2 * ((v % 2) * pow2((b - 1) as nat))) by (nonlinear_arith)
            requires
                pow2(b) == 2 * pow2((b - 1) as nat),
        ;
    }
}

/// `psi^brv(i)` for every index `i`: the powers of `psi` in bit-reversed order.
pub open spec fn root_table(psi: int, q: int, n: nat) -> Seq<int> {
    Seq::new(n, |i: int| pow(psi, brv(i as nat, log2(n))) % q)
}

/// `(x mod q)^2 ≡ x^2`, with the square written as a power.
proof fn lemma_square_mod(psi: int, a: nat, q: int)
    requires
        q > 0,
    ensures
        ((pow(psi, a) % q) * (pow(psi, a) % q)) % q == pow(psi, 2 * a) % q,
{
    lemma_mul_mod_noop(pow(psi, a), pow(psi, a), q);
    lemma_pow_adds(psi, a, a);
}

/// Bit-reversed powers of a negacyclic root form a chain of square roots.
pub proof fn lemma_root_table_roots(psi: int, q: int, n: nat)
    requires
        q > 1,
        is_power_of_two(n),
        n >= 2,
        pow(psi, n) % q == q - 1,
    ensures
        crate::poly::transform::negacyclic_roots(root_table(psi, q, n), q, n),
{
    let t = root_table(psi, q, n);
    let big_l = log2(n);
    let l1 = (big_l - 1) as nat;
    assert(big_l >= 1) by {
        if big_l == 0 {
            lemma2_to64();
        }
    }
    lemma_pow2_unfold(big_l);
    let half = pow2(l1);
    assert(n == 2 * half);
    // table[1]^2 = psi^n ≡ −1
    assert(brv(1, big_l) == half) by {
        lemma_brv_zero(l1);
        assert(brv(1, big_l) == (1nat % 2) * pow2(l1) + brv(1nat / 2, l1));
        assert(1nat % 2 == 1 && 1nat / 2 == 0);
    }
    lemma_square_mod(psi, half, q);
    assert(2 * half == n);
    assert((t[1] * t[1]) % q == q - 1);
    lemma_add_mod_noop(t[1] * t[1], 1, q);
    lemma_small_mod(1, q as nat);
    lemma_mod_self_0(q);
    assert forall|k: int| 1 <= k && 2 * k + 1 < n implies (#[trigger] t[2 * k] * t[2 * k] - t[k])
        % q == 0 && (t[2 * k + 1] * t[2 * k + 1] + t[k]) % q == 0 by {
        let kk = k as nat;
        let a = brv(kk, l1);
        assert(kk < half);
        lemma_brv_double(kk, l1);
        assert(brv(kk, big_l) == 2 * a);
        assert(brv((2 * k) as nat, big_l) == a) by {
            let v = (2 * k) as nat;
            assert(v % 2 == 0);
            assert(v / 2 == kk);
            assert(brv(v, big_l) == (v % 2) * pow2(l1) + brv(v / 2, l1));
            assert(0 * pow2(l1) == 0);
        }
        assert(brv((2 * k + 1) as nat, big_l) == half + a) by {
            let v = (2 * k + 1) as nat;
            assert(v % 2 == 1);
            assert(v / 2 == kk);
            assert(brv(v, big_l) == (v % 2) * pow2(l1) + brv(v / 2, l1));
        }
        lemma_square_mod(psi, a, q);
        lemma_mod_equivalence(t[2 * k] * t[2 * k], t[k], q);
        lemma_mod_twice(pow(psi, 2 * a), q);
        assert((t[2 * k] * t[2 * k]) % q == t[k] % q);
        // t[2k+1]^2 ≡ psi^(n + 2a) = psi^n·psi^(2a) ≡ −t[k]
        lemma_square_mod(psi, half + a, q);
        lemma_pow_adds(psi, n, 2 * a);
        assert(2 * (half + a) == n + 2 * a);
        lemma_mul_mod_noop(pow(psi, n), pow(psi, 2 * a), q);
        let tk = t[k];
        assert(((q - 1) * tk + tk) % q == 0) by {
            assert((q - 1) * tk + tk == q * tk) by (nonlinear_arith);
            lemma_mod_multiples_basic(tk, q);
            assert(q * tk == tk * q) by (nonlinear_arith);
        }
        lemma_add_mod_noop(t[2 * k + 1] * t[2 * k + 1], tk, q);
        lemma_add_mod_noop((q - 1) * tk, tk, q);
        lemma_mod_twice(tk, q);
        assert((t[2 * k + 1] * t[2 * k + 1]) % q == ((q - 1) * tk) % q);
    }
}

/// Bit-reversed powers of `psi` and of `psi^(q−2)` multiply to one, when
/// `psi^(2n) ≡ 1` and `2n` divides `q − 1`.
pub proof fn lemma_root_table_inverse(psi: int, q: int, n: nat)
    requires
        q > 2,
        n >= 1,
        (q - 1) % (2 * n as int) == 0,
        pow(psi, 2 * n) % q == 1,
    ensures
        crate::poly::transform::tables_inverse(
            root_table(psi, q, n),
            root_table(pow(psi, (q - 2) as nat) % q, q, n),
            q,
            n,
        ),
{
    let psi_inv = pow(psi, (q - 2) as nat) % q;
    let t = root_table(psi, q, n);
    let ti = root_table(psi_inv, q, n);
    let c = ((q - 1) / (2 * n as int)) as nat;
    // psi·psi_inv ≡ psi^(q−1) = (psi^(2n))^c ≡ 1
    lemma_fundamental_div_mod(q - 1, 2 * n as int);
    lemma_div_pos_is_pos(q - 1, 2 * n as int);
    assert(q - 1 == (2 * n) * c);
    lemma_pow_multiplies(psi, 2 * n, c);
    lemma_pow_mod_noop(pow(psi, 2 * n), c, q);
    lemma1_pow(c);
    lemma_small_mod(1, q as nat);
    lemma_pow_adds(psi, 1, (q - 2) as nat);
    lemma_pow1(psi);
    lemma_mul_mod_noop_right(psi, pow(psi, (q - 2) as nat), q);
    assert((psi * psi_inv) % q == 1);
    assert forall|k: int| 1 <= k < n implies (#[trigger] t[k] * ti[k]) % q == 1 by {
        let e = brv(k as nat, log2(n));
        lemma_mul_mod_noop(pow(psi, e), pow(psi_inv, e), q);
        lemma_pow_distributes(psi, psi_inv, e);
        lemma_pow_mod_noop(psi * psi_inv, e, q);
        lemma1_pow(e);
    }
}

/// One Newton step for the inverse of an odd `q` modulo a power of two:
/// if `q·x ≡ 1 (mod d)` then `q·x(2 − q·x) ≡ 1 (mod d^2)`, computed modulo `r`.
proof fn lemma_newton_step(q: int, x: int, y: int, d: int, r: int)
    requires
        r > 0,
        d > 0,
        r % (d * d) == 0,
        (q * x - 1) % d == 0,
        y == (x * ((2 - (q * x) % r) % r)) % r,
    ensures
        (q * y - 1) % (d * d) == 0,
{
    let dd = d * d;
    let e = q * x - 1;
    lemma_fundamental_div_mod(e, d);
    let c = e / d;
    assert(e == d * c);
    // y ≡ x(2 − qx) (mod r)
    lemma_sub_mod_noop_right(2, q * x, r);
    lemma_mul_mod_noop_right(x, 2 - q * x, r);
    lemma_mod_twice(2 - q * x, r);
    assert(y == (x * (2 - q * x)) % r) by {
        lemma_mul_mod_noop_right(x, (2 - (q * x) % r) % r, r);
        lemma_mul_mod_noop_right(x, 2 - (q * x) % r, r);
    }
    // q·y − 1 ≡ q·x(2 − qx) − 1 = −e^2 (mod r), and d^2 | e^2
    lemma_fundamental_div_mod(x * (2 - q * x), r);
    let k = (x * (2 - q * x)) / r;
    assert(y == x * (2 - q * x) - r * k);
    assert(q * y == q * (x * (2 - q * x)) - q * (r * k)) by (nonlinear_arith)
        requires
            y == x * (2 - q * x) - r * k,
    ;
    assert(q * (x * (2 - q * x)) - 1 == -(e * e)) by (nonlinear_arith)
        requires
            e == q * x - 1,
    ;
    lemma_mul_strictly_positive(d, d);
    lemma_fundamental_div_mod(r, dd);
    let rk = r / dd;
    assert(r == dd * rk);
    assert(e * e == dd * (c * c)) by (nonlinear_arith)
        requires
            e == d * c,
            dd == d * d,
    ;
    assert(q * (r * k) == dd * (q * rk * k)) by (nonlinear_arith)
        requires
            r == dd * rk,
    ;
    assert(q * y - 1 == dd * (-(c * c) - q * rk * k)) by (nonlinear_arith)
        requires
            q * y - 1 == -(dd * (c * c)) - dd * (q * rk * k),
    ;
    lemma_mod_multiples_basic(-(c * c) - q * rk * k, dd);
    assert(dd * (-(c * c) - q * rk * k) == (-(c * c) - q * rk * k) * dd) by (nonlinear_arith);
}

/// `base^((q − 1)/(2n)) mod q`, the candidate root that `base` yields.
pub open spec fn psi_candidate(base: int, q: int, n: int) -> int {
    pow(base, ((q - 1) / (2 * n)) as nat) % q
}

/// `psi^n ≡ −1 (mod q)`: `psi` is a primitive `2n`-th root of unity when `n`
/// is a power of two.
pub open spec fn is_negacyclic_root(psi: int, q: int, n: int) -> bool {
    pow(psi, n as nat) % q == q - 1
}

/// Some base in `[2, q)` yields a negacyclic root.
pub open spec fn has_negacyclic_root(q: int, n: int) -> bool {
    exists|b: int| 2 <= b < q && #[trigger] is_negacyclic_root(psi_candidate(b, q, n), q, n)
}

/// `psi` is the root that the search finds: the candidate of the smallest
/// base in `[2, q)` whose candidate is a negacyclic root.
pub open spec fn is_first_root(psi: int, q: int, n: int) -> bool {
    exists|b: int|
        2 <= b < q && psi == psi_candidate(b, q, n) && is_negacyclic_root(psi, q, n) && forall|
            c: int,
        |
            2 <= c < b ==> !#[trigger] is_negacyclic_root(psi_candidate(c, q, n), q, n)
}

/// A base's candidate is a negacyclic root exactly when the base raised to
/// `(q − 1)/2` is `−1` modulo `q`: `(b^((q−1)/2N))^N = b^((q−1)/2)`.
pub proof fn lemma_candidate_root(b: int, q: int, n: int)
    requires
        q >= 1,
        n >= 1,
        (q - 1) % (2 * n) == 0,
    ensures
        is_negacyclic_root(psi_candidate(b, q, n), q, n) <==> pow(b, ((q - 1) / 2) as nat) % q == q
            - 1,
{
    let e = (q - 1) / (2 * n);
    lemma_fundamental_div_mod(q - 1, 2 * n);
    lemma_div_pos_is_pos(q - 1, 2 * n);
    assert(q - 1 == 2 * (n * e)) by (nonlinear_arith)
        requires
            q - 1 == (2 * n) * e + (q - 1) % (2 * n),
            (q - 1) % (2 * n) == 0,
    ;
    assert((q - 1) / 2 == n * e);
    assert(n * e >= 0) by (nonlinear_arith)
        requires
            n >= 1,
            e >= 0,
    ;
    lemma_pow_mod_noop(pow(b, e as nat), n as nat, q);
    lemma_pow_multiplies(b, e as nat, n as nat);
    assert((e as nat) * (n as nat) == ((q - 1) / 2) as nat) by (nonlinear_arith)
        requires
            (q - 1) / 2 == n * e,
            e >= 0,
            n >= 1,
    ;
}

/// The root the search returns, stated with powers: `psi = b^((q−1)/2N) mod q`
/// for the least base `b` in `[2, q)` with `b^((q−1)/2) ≡ −1 (mod q)`.
pub proof fn lemma_first_root_explicit(psi: int, q: int, n: int)
    requires
        q >= 1,
        n >= 1,
        (q - 1) % (2 * n) == 0,
        is_first_root(psi, q, n),
    ensures
        exists|b: int|
            #![trigger pow(b, ((q - 1) / (2 * n)) as nat)]
            2 <= b < q && psi == pow(b, ((q - 1) / (2 * n)) as nat) % q && pow(
                b,
                ((q - 1) / 2) as nat,
            ) % q == q - 1 && forall|c: int|
                2 <= c < b ==> #[trigger] pow(c, ((q - 1) / 2) as nat) % q != q - 1,
{
    let b = choose|b: int|
        2 <= b < q && psi == psi_candidate(b, q, n) && is_negacyclic_root(psi, q, n) && forall|
            c: int,
        |
            2 <= c < b ==> !#[trigger] is_negacyclic_root(psi_candidate(c, q, n), q, n);
    lemma_candidate_root(b, q, n);
    assert forall|c: int| 2 <= c < b implies #[trigger] pow(c, ((q - 1) / 2) as nat) % q != q - 1 by {
        lemma_candidate_root(c, q, n);
    }
    assert(psi == pow(b, ((q - 1) / (2 * n)) as nat) % q);
}

/// Searches the bases `2, 3, …` for the first whose candidate
/// `base^((q−1)/2N) mod q` is a primitive `2N`-th root of unity.
pub fn find_psi32<const N: usize>(modulus: u32) -> (psi: u32)
    requires
        N >= 1,
        2 * N <= usize::MAX,
        modulus >= 1,
        (modulus - 1) % (2 * N as int) == 0,
        has_negacyclic_root(modulus as int, N as int),
    ensures
        is_first_root(psi as int, modulus as int, N as int),
        exists|b: int|
            #![trigger pow(b, ((modulus - 1) / (2 * N as int)) as nat)]
            2 <= b < modulus && psi == pow(b, ((modulus - 1) / (2 * N as int)) as nat) % (
            modulus as int) && pow(b, ((modulus - 1) / 2) as nat) % (modulus as int) == modulus
                - 1 && forall|c: int|
                2 <= c < b ==> #[trigger] pow(c, ((modulus - 1) / 2) as nat) % (modulus as int)
                    != modulus - 1,
{
    let exponent = (modulus as usize - 1) / (2 * N);
    let ghost q = modulus as int;
    let ghost n = N as int;
    proof {
        assert(exponent == (q - 1) / (2 * n));
    }
    for base in 2..modulus
        invariant
            q == modulus,
            n == N,
            N >= 1,
            (q - 1) % (2 * n) == 0,
            exponent == (q - 1) / (2 * n),
            forall|c: int| 2 <= c < base ==> !#[trigger] is_negacyclic_root(psi_candidate(c, q, n), q, n),
    {
        proof {
            lemma_div_pos_is_pos(q - 1, 2 * n);
            if exponent == 0 {
                // then q − 1 < 2N, so 2N | q − 1 forces q == 1: no base in range
                lemma_fundamental_div_mod(q - 1, 2 * n);
                assert((2 * n) * 0 == 0);
                assert((q - 1) / (2 * n) == 0);
                assert((q - 1) % (2 * n) == 0);
                assert(q - 1 == 0);
            }
        }
        let psi = pow_mod(base as u128, exponent as u128, modulus as u128) as u32;
        proof {
            lemma_mod_bound(pow(base as int, exponent as nat), q);
            assert(psi == psi_candidate(base as int, q, n));
        }
        if pow_mod(psi as u128, N as u128, modulus as u128) == modulus as u128 - 1 {
            proof {
                assert(is_first_root(psi as int, q, n));
                lemma_first_root_explicit(psi as int, q, n);
            }
            return psi;
        }
    }
    proof {
        let b = choose|b: int| 2 <= b < q && #[trigger] is_negacyclic_root(psi_candidate(b, q, n), q, n);
        assert(!is_negacyclic_root(psi_candidate(b, q, n), q, n));
    }
    0
}

/// The 64-bit counterpart of [`find_psi32`].
pub fn find_psi64<const N: usize>(modulus: u64) -> (psi: u64)
    requires
        N >= 1,
        2 * N <= usize::MAX,
        modulus >= 1,
        (modulus - 1) % (2 * N as int) == 0,
        has_negacyclic_root(modulus as int, N as int),
    ensures
        is_first_root(psi as int, modulus as int, N as int),
        exists|b: int|
            #![trigger pow(b, ((modulus - 1) / (2 * N as int)) as nat)]
            2 <= b < modulus && psi == pow(b, ((modulus - 1) / (2 * N as int)) as nat) % (
            modulus as int) && pow(b, ((modulus - 1) / 2) as nat) % (modulus as int) == modulus
                - 1 && forall|c: int|
                2 <= c < b ==> #[trigger] pow(c, ((modulus - 1) / 2) as nat) % (modulus as int)
                    != modulus - 1,
{
    let exponent = (modulus as u128 - 1) / (2 * N) as u128;
    let ghost q = modulus as int;
    let ghost n = N as int;
    proof {
        assert(exponent == (q - 1) / (2 * n));
    }
    for base in 2..modulus
        invariant
            q == modulus,
            n == N,
            N >= 1,
            (q - 1) % (2 * n) == 0,
            exponent == (q - 1) / (2 * n),
            forall|c: int| 2 <= c < base ==> !#[trigger] is_negacyclic_root(psi_candidate(c, q, n), q, n),
    {
        proof {
            lemma_div_pos_is_pos(q - 1, 2 * n);
            if exponent == 0 {
                lemma_fundamental_div_mod(q - 1, 2 * n);
                assert((2 * n) * 0 == 0);
                assert((q - 1) / (2 * n) == 0);
                assert((q - 1) % (2 * n) == 0);
                assert(q - 1 == 0);
            }
        }
        let psi = pow_mod(base as u128, exponent, modulus as u128) as u64;
        proof {
            lemma_mod_bound(pow(base as int, exponent as nat), q);
            assert(psi == psi_candidate(base as int, q, n));
        }
        if pow_mod(psi as u128, N as u128, modulus as u128) == modulus as u128 - 1 {
            proof {
                assert(is_first_root(psi as int, q, n));
                lemma_first_root_explicit(psi as int, q, n);
            }
            return psi;
        }
    }
    proof {
        let b = choose|b: int| 2 <= b < q && #[trigger] is_negacyclic_root(psi_candidate(b, q, n), q, n);
        assert(!is_negacyclic_root(psi_candidate(b, q, n), q, n));
    }
    0
}

/// Consecutive Newton precisions: `2^(2^k)` squared is `2^(2^(k+1))`, which
/// still divides the word modulus `2^(2^top)`.
proof fn lemma_newton_precision(k: nat, top: nat)
    requires
        k < top,
    ensures
        pow2(pow2(k)) * pow2(pow2(k)) == pow2(pow2(k + 1)),
        pow2(pow2(top)) % pow2(pow2(k + 1)) == 0,
        pow2(pow2(k)) > 0,
{
    lemma_pow2_unfold(k + 1);
    lemma_pow2_adds(pow2(k), pow2(k));
    lemma_pow2_pos(pow2(k));
    if k + 1 < top {
        lemma_pow2_strictly_increases(k + 1, top);
    }
    let d = (pow2(top) - pow2(k + 1)) as nat;
    lemma_pow2_adds(pow2(k + 1), d);
    lemma_pow2_pos(pow2(k + 1));
    lemma_mod_multiples_basic(pow2(d) as int, pow2(pow2(k + 1)) as int);
    assert(pow2(pow2(top)) == pow2(d) * pow2(pow2(k + 1))) by (nonlinear_arith)
        requires
            pow2(pow2(top)) == pow2(pow2(k + 1)) * pow2(d),
    ;
}

/// A two's-complement negation turns `q·x ≡ 1` into `q·(−x) ≡ −1`.
proof fn lemma_neg_inverse(q: int, x: int, neg: int, r: int)
    requires
        r > 1,
        0 <= x < r,
        (q * x - 1) % r == 0,
        neg == (if 0 - x < 0 { 0 - x + r } else { 0 - x }),
    ensures
        (q * neg + 1) % r == 0,
{
    if x == 0 {
        assert(q * x - 1 == -1);
        lemma_small_mod((r - 1) as nat, r as nat);
        lemma_mod_add_multiples_vanish(-1, r);
        assert(false);
    }
    assert(q * neg + 1 == q * r - (q * x - 1)) by (nonlinear_arith)
        requires
            neg == r - x,
    ;
    lemma_mod_multiples_vanish(q, -(q * x - 1), r);
    assert(r * q == q * r) by (nonlinear_arith);
    lemma_fundamental_div_mod(q * x - 1, r);
    let c = (q * x - 1) / r;
    lemma_mod_multiples_basic(-c, r);
    assert(-(q * x - 1) == (-c) * r) by (nonlinear_arith)
        requires
            q * x - 1 == r * c,
    ;
}

/// The conditions under which [`generate_ring32`] builds a ring: an odd
/// modulus with `2q < 2^31`, a power-of-two degree `N >= 2` with
/// `q ≡ 1 (mod 2N)`, and `psi^N ≡ −1`, `psi^(2N) ≡ 1 (mod q)`.
pub open spec fn ring32_params(q: int, psi: int, n: nat) -> bool {
    &&& q % 2 == 1
    &&& 2 * q < 0x8000_0000
    &&& is_power_of_two(n)
    &&& n >= 2
    &&& 2 * n <= usize::MAX
    &&& (q - 1) % (2 * n as int) == 0
    &&& pow(psi, n) % q == q - 1
    &&& pow(psi, 2 * n) % q == 1
}

/// The conditions under which [`generate_ring64`] builds a ring, as for
/// [`ring32_params`] with `q < 2^62`.
pub open spec fn ring64_params(q: int, psi: int, n: nat) -> bool {
    &&& q % 2 == 1
    &&& q < 0x4000_0000_0000_0000
    &&& is_power_of_two(n)
    &&& n >= 2
    &&& 2 * n <= usize::MAX
    &&& (q - 1) % (2 * n as int) == 0
    &&& pow(psi, n) % q == q - 1
    &&& pow(psi, 2 * n) % q == 1
}

/// Builds the 32-bit ring for modulus `q` and negacyclic root `psi`: twiddle
/// tables of bit-reversed powers of `psi` and `psi^-1`, their Shoup
/// companions, `N^-1`, and the Montgomery constants.
pub fn generate_ring32<const N: usize>(modulus: u32, psi: u32) -> (ring: Ring32<N>)
    requires
        ring32_params(modulus as int, psi as int, N as nat),
    ensures
        ring.q == modulus,
        ring.wf(),
        ints32(ring.ntt_table@) == root_table(psi as int, modulus as int, N as nat),
        ints32(ring.inv_ntt_table@) == root_table(
            pow(psi as int, (modulus - 2) as nat) % (modulus as int),
            modulus as int,
            N as nat,
        ),
        ring.n_inv == pow(N as int, (modulus - 2) as nat) % (modulus as int),
        ring.roots_valid(),
        tables_inverse(ints32(ring.ntt_table@), ints32(ring.inv_ntt_table@), modulus as int, N as nat),
        pow(N as int, (modulus - 1) as nat) % (modulus as int) == 1 ==> ring.inverse_valid(),
        is_prime(modulus as int) ==> ring.inverse_valid(),
{
    let ghost q = modulus as int;
    let ghost n = N as nat;
    proof {
        if q == 1 {
            assert(pow(psi as int, 2 * n) % 1 == 0);
        }
        lemma_log2_bound(n);
    }
    let bits = log2_usize(N) as u32;
    proof {
        if bits == 0 {
            lemma2_to64();
        }
    }
    let psi_inv = pow_mod(psi as u128, modulus as u128 - 2, modulus as u128) as u32;
    proof {
        lemma_mod_bound(pow(psi as int, (q - 2) as nat), q);
    }
    let ghost t_fwd = root_table(psi as int, q, n);
    let ghost t_inv = root_table(psi_inv as int, q, n);
    let mut ntt_table = [0u32; N];
    let mut inv_ntt_table = [0u32; N];
    for i in 0..N
        invariant
            q == modulus,
            q > 2,
            n == N,
            bits == log2(n),
            0 < bits <= usize::BITS,
            is_power_of_two(n),
            psi_inv < q,
            t_fwd == root_table(psi as int, q, n),
            t_inv == root_table(psi_inv as int, q, n),
            forall|j: int| 0 <= j < i ==> #[trigger] ntt_table@[j] == t_fwd[j],
            forall|j: int| 0 <= j < i ==> #[trigger] inv_ntt_table@[j] == t_inv[j],
    {
        let e = reverse_bits(i, bits);
        proof {
            lemma_brv_bound(i as nat, bits as nat);
            lemma_pow0(psi as int);
            lemma_pow0(psi_inv as int);
            lemma_small_mod(1, q as nat);
            lemma_mod_bound(pow(psi as int, e as nat), q);
            lemma_mod_bound(pow(psi_inv as int, e as nat), q);
        }
        ntt_table[i] = pow_mod(psi as u128, e as u128, modulus as u128) as u32;
        inv_ntt_table[i] = pow_mod(psi_inv as u128, e as u128, modulus as u128) as u32;
    }
    let mut ntt_table_shoup = [0u32; N];
    let mut inv_ntt_table_shoup = [0u32; N];
    for i in 0..N
        invariant
            q == modulus,
            q > 2,
            2 * q < 0x8000_0000,
            n == N,
            t_fwd == root_table(psi as int, q, n),
            t_inv == root_table(psi_inv as int, q, n),
            forall|j: int| 0 <= j < N ==> #[trigger] ntt_table@[j] == t_fwd[j],
            forall|j: int| 0 <= j < N ==> #[trigger] inv_ntt_table@[j] == t_inv[j],
            forall|j: int| 0 <= j < N ==> 0 <= #[trigger] t_fwd[j] < q,
            forall|j: int| 0 <= j < N ==> 0 <= #[trigger] t_inv[j] < q,
            forall|j: int|
                0 <= j < i ==> #[trigger] ntt_table_shoup@[j] == crate::ntt32::shoup32(
                    ntt_table@[j] as int,
                    q,
                ),
            forall|j: int|
                0 <= j < i ==> #[trigger] inv_ntt_table_shoup@[j] == crate::ntt32::shoup32(
                    inv_ntt_table@[j] as int,
                    q,
                ),
    {
        ntt_table_shoup[i] = shoup_companion32(ntt_table[i], modulus);
        inv_ntt_table_shoup[i] = shoup_companion32(inv_ntt_table[i], modulus);
    }
    let n_inv = pow_mod(N as u128, modulus as u128 - 2, modulus as u128) as u32;
    proof {
        lemma_mod_bound(pow(N as int, (q - 2) as nat), q);
    }
    let mut q_inv = 1u32;
    proof {
        lemma2_to64();
        lemma_fundamental_div_mod(q, 2);
        assert((q * 1 - 1) % 2 == 0);
    }
    for k in 0..5
        invariant
            q == modulus,
            q % 2 == 1,
            (q * q_inv - 1) % (pow2(pow2(k as nat)) as int) == 0,
    {
        let ghost x = q_inv as int;
        let qx = modulus.wrapping_mul(q_inv);
        let s = 2u32.wrapping_sub(qx);
        q_inv = q_inv.wrapping_mul(s);
        proof {
            let r: int = 0x1_0000_0000;
            lemma2_to64();
            lemma2_to64_rest();
            lemma_newton_precision(k as nat, 5);
            lemma_mod_bound(q * x, r);
            lemma_wrapping_sub_is_mod(2, qx as int, r, s as int);
            lemma_sub_mod_noop_right(2, q * x, r);
            assert(pow2(pow2(5)) == r);
            lemma_newton_step(q, x, q_inv as int, pow2(pow2(k as nat)) as int, r);
        }
    }
    let q_inv_neg = 0u32.wrapping_sub(q_inv);
    proof {
        lemma2_to64();
        lemma2_to64_rest();
        assert(pow2(pow2(5)) == 0x1_0000_0000);
        lemma_neg_inverse(q, q_inv as int, q_inv_neg as int, 0x1_0000_0000);
    }
    let r2 = pow_mod(2, 64, modulus as u128) as u32;
    proof {
        assert(pow(2, 64) == 0x1_0000_0000_0000_0000int) by {
            lemma2_to64_rest();
            lemma_pow2(64);
        }
        lemma_mod_bound(pow(2, 64), q);
    }
    let n_inv_shoup = shoup_companion32(n_inv, modulus);
    let ring = Ring32 {
        q: modulus,
        q_inv_neg,
        r2,
        ntt_table,
        ntt_table_shoup,
        inv_ntt_table,
        inv_ntt_table_shoup,
        n_inv,
        n_inv_shoup,
    };
    proof {
        assert(ints32(ring.ntt_table@) =~= t_fwd);
        assert(ints32(ring.inv_ntt_table@) =~= t_inv);
        lemma_root_table_roots(psi as int, q, n);
        lemma_root_table_inverse(psi as int, q, n);
        if is_prime(q) {
            lemma_fundamental_div_mod(q - 1, 2 * n as int);
            assert(q - 1 >= 2 * n) by (nonlinear_arith)
                requires
                    q - 1 == (2 * n as int) * ((q - 1) / (2 * n as int)),
                    q - 1 > 0,
                    n >= 2,
            ;
            lemma_small_mod(N as nat, q as nat);
            lemma_fermat(q, N as nat);
        }
        if pow(N as int, (q - 1) as nat) % q == 1 {
            lemma_pow_adds(N as int, 1, (q - 2) as nat);
            lemma_pow1(N as int);
            lemma_mul_mod_noop_left(pow(N as int, (q - 2) as nat), N as int, q);
            assert(pow(N as int, (q - 2) as nat) * (N as int) == N as int * pow(
                N as int,
                (q - 2) as nat,
            )) by (nonlinear_arith);
        }
    }
    ring
}

/// `floor(w·2^32/q)` for a canonical `w`.
fn shoup_companion32(w: u32, q: u32) -> (r: u32)
    requires
        w < q,
    ensures
        r == crate::ntt32::shoup32(w as int, q as int),
{
    let x = (w as u64) << 32;
    assert(x == w * 0x1_0000_0000) by (bit_vector)
        requires
            x == (w as u64) << 32,
    ;
    proof {
        lemma_multiply_divide_lt(x as int, q as int, 0x1_0000_0000);
        lemma_mul_strict_inequality(w as int, q as int, 0x1_0000_0000);
    }
    (x / q as u64) as u32
}

/// Builds the 64-bit ring, as [`generate_ring32`] does the 32-bit one.
pub fn generate_ring64<const N: usize>(modulus: u64, psi: u64) -> (ring: Ring64<N>)
    requires
        ring64_params(modulus as int, psi as int, N as nat),
    ensures
        ring.q == modulus,
        ring.wf(),
        ints64(ring.ntt_table@) == root_table(psi as int, modulus as int, N as nat),
        ints64(ring.inv_ntt_table@) == root_table(
            pow(psi as int, (modulus - 2) as nat) % (modulus as int),
            modulus as int,
            N as nat,
        ),
        ring.n_inv == pow(N as int, (modulus - 2) as nat) % (modulus as int),
        ring.roots_valid(),
        tables_inverse(ints64(ring.ntt_table@), ints64(ring.inv_ntt_table@), modulus as int, N as nat),
        pow(N as int, (modulus - 1) as nat) % (modulus as int) == 1 ==> ring.inverse_valid(),
        is_prime(modulus as int) ==> ring.inverse_valid(),
{
    let ghost q = modulus as int;
    let ghost n = N as nat;
    proof {
        if q == 1 {
            assert(pow(psi as int, 2 * n) % 1 == 0);
        }
        lemma_log2_bound(n);
    }
    let bits = log2_usize(N) as u32;
    proof {
        if bits == 0 {
            lemma2_to64();
        }
    }
    let psi_inv = pow_mod(psi as u128, modulus as u128 - 2, modulus as u128) as u64;
    proof {
        lemma_mod_bound(pow(psi as int, (q - 2) as nat), q);
    }
    let ghost t_fwd = root_table(psi as int, q, n);
    let ghost t_inv = root_table(psi_inv as int, q, n);
    let mut ntt_table = [0u64; N];
    let mut inv_ntt_table = [0u64; N];
    for i in 0..N
        invariant
            q == modulus,
            q > 2,
            n == N,
            bits == log2(n),
            0 < bits <= usize::BITS,
            is_power_of_two(n),
            psi_inv < q,
            t_fwd == root_table(psi as int, q, n),
            t_inv == root_table(psi_inv as int, q, n),
            forall|j: int| 0 <= j < i ==> #[trigger] ntt_table@[j] == t_fwd[j],
            forall|j: int| 0 <= j < i ==> #[trigger] inv_ntt_table@[j] == t_inv[j],
    {
        let e = reverse_bits(i, bits);
        proof {
            lemma_brv_bound(i as nat, bits as nat);
            lemma_pow0(psi as int);
            lemma_pow0(psi_inv as int);
            lemma_small_mod(1, q as nat);
            lemma_mod_bound(pow(psi as int, e as nat), q);
            lemma_mod_bound(pow(psi_inv as int, e as nat), q);
        }
        ntt_table[i] = pow_mod(psi as u128, e as u128, modulus as u128) as u64;
        inv_ntt_table[i] = pow_mod(psi_inv as u128, e as u128, modulus as u128) as u64;
    }
    let mut ntt_table_shoup = [0u64; N];
    let mut inv_ntt_table_shoup = [0u64; N];
    for i in 0..N
        invariant
            q == modulus,
            q > 2,
            q < 0x4000_0000_0000_0000,
            n == N,
            t_fwd == root_table(psi as int, q, n),
            t_inv == root_table(psi_inv as int, q, n),
            forall|j: int| 0 <= j < N ==> #[trigger] ntt_table@[j] == t_fwd[j],
            forall|j: int| 0 <= j < N ==> #[trigger] inv_ntt_table@[j] == t_inv[j],
            forall|j: int| 0 <= j < N ==> 0 <= #[trigger] t_fwd[j] < q,
            forall|j: int| 0 <= j < N ==> 0 <= #[trigger] t_inv[j] < q,
            forall|j: int|
                0 <= j < i ==> #[trigger] ntt_table_shoup@[j] == crate::ntt64::shoup64(
                    ntt_table@[j] as int,
                    q,
                ),
            forall|j: int|
                0 <= j < i ==> #[trigger] inv_ntt_table_shoup@[j] == crate::ntt64::shoup64(
                    inv_ntt_table@[j] as int,
                    q,
                ),
    {
        ntt_table_shoup[i] = shoup_companion64(ntt_table[i], modulus);
        inv_ntt_table_shoup[i] = shoup_companion64(inv_ntt_table[i], modulus);
    }
    let n_inv = pow_mod(N as u128, modulus as u128 - 2, modulus as u128) as u64;
    proof {
        lemma_mod_bound(pow(N as int, (q - 2) as nat), q);
    }
    let mut q_inv = 1u64;
    proof {
        lemma2_to64();
        lemma_fundamental_div_mod(q, 2);
        assert((q * 1 - 1) % 2 == 0);
    }
    for k in 0..6
        invariant
            q == modulus,
            q % 2 == 1,
            (q * q_inv - 1) % (pow2(pow2(k as nat)) as int) == 0,
    {
        let ghost x = q_inv as int;
        let qx = modulus.wrapping_mul(q_inv);
        let s = 2u64.wrapping_sub(qx);
        q_inv = q_inv.wrapping_mul(s);
        proof {
            let r: int = 0x1_0000_0000_0000_0000;
            lemma2_to64();
            lemma2_to64_rest();
            lemma_newton_precision(k as nat, 6);
            lemma_mod_bound(q * x, r);
            lemma_wrapping_sub_is_mod(2, qx as int, r, s as int);
            lemma_sub_mod_noop_right(2, q * x, r);
            assert(pow2(pow2(6)) == r);
            lemma_newton_step(q, x, q_inv as int, pow2(pow2(k as nat)) as int, r);
        }
    }
    let q_inv_neg = 0u64.wrapping_sub(q_inv);
    proof {
        lemma2_to64();
        lemma2_to64_rest();
        assert(pow2(pow2(6)) == 0x1_0000_0000_0000_0000);
        lemma_neg_inverse(q, q_inv as int, q_inv_neg as int, 0x1_0000_0000_0000_0000);
    }
    let r2 = pow_mod(2, 128, modulus as u128) as u64;
    proof {
        assert(pow(2, 128) == 0x1_0000_0000_0000_0000_0000_0000_0000_0000int) by {
            lemma2_to64_rest();
            lemma_pow2_adds(64, 64);
            lemma_pow2(128);
        }
        lemma_mod_bound(pow(2, 128), q);
    }
    let n_inv_shoup = shoup_companion64(n_inv, modulus);
    let ring = Ring64 {
        q: modulus,
        q_inv_neg,
        r2,
        ntt_table,
        ntt_table_shoup,
        inv_ntt_table,
        inv_ntt_table_shoup,
        n_inv,
        n_inv_shoup,
    };
    proof {
        assert(ints64(ring.ntt_table@) =~= t_fwd);
        assert(ints64(ring.inv_ntt_table@) =~= t_inv);
        lemma_root_table_roots(psi as int, q, n);
        lemma_root_table_inverse(psi as int, q, n);
        if is_prime(q) {
            lemma_fundamental_div_mod(q - 1, 2 * n as int);
            assert(q - 1 >= 2 * n) by (nonlinear_arith)
                requires
                    q - 1 == (2 * n as int) * ((q - 1) / (2 * n as int)),
                    q - 1 > 0,
                    n >= 2,
            ;
            lemma_small_mod(N as nat, q as nat);
            lemma_fermat(q, N as nat);
        }
        if pow(N as int, (q - 1) as nat) % q == 1 {
            lemma_pow_adds(N as int, 1, (q - 2) as nat);
            lemma_pow1(N as int);
            lemma_mul_mod_noop_left(pow(N as int, (q - 2) as nat), N as int, q);
            assert(pow(N as int, (q - 2) as nat) * (N as int) == N as int * pow(
                N as int,
                (q - 2) as nat,
            )) by (nonlinear_arith);
        }
    }
    ring
}

/// `floor(w·2^64/q)` for a canonical `w`.
fn shoup_companion64(w: u64, q: u64) -> (r: u64)
    requires
        w < q,
    ensures
        r == crate::ntt64::shoup64(w as int, q as int),
{
    let x = (w as u128) << 64;
    assert(x == w * 0x1_0000_0000_0000_0000) by (bit_vector)
        requires
            x == (w as u128) << 64,
    ;
    proof {
        lemma_multiply_divide_lt(x as int, q as int, 0x1_0000_0000_0000_0000);
        lemma_mul_strict_inequality(w as int, q as int, 0x1_0000_0000_0000_0000);
    }
    (x / q as u128) as u64
}

} // verus!
