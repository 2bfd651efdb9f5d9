//! Integer facts behind the reductions used by the transforms: cancelling a
//! power of two modulo an odd modulus, the exactness of Montgomery reduction,
//! and the `[0, 2q)` window of Shoup multiplication.
use vstd::arithmetic::div_mod::*;
use vstd::arithmetic::mul::*;
use vstd::arithmetic::power::*;
use vstd::arithmetic::power2::*;
use vstd::prelude::*;

verus! {

/// `2·x ≡ 0 (mod q)` with `q` odd forces `x ≡ 0 (mod q)`.
pub proof fn lemma_cancel_two(x: int, q: int)
    requires
        q > 0,
        q % 2 == 1,
        (2 * x) % q == 0,
    ensures
        x % q == 0,
{
    let c = (2 * x) / q;
    lemma_fundamental_div_mod(2 * x, q);
    assert(2 * x == q * c);
    lemma_fundamental_div_mod(c, 2);
    let c2 = c / 2;
    if c % 2 == 1 {
        assert(q * c == q * (2 * c2) + q) by (nonlinear_arith)
            requires
                c == 2 * c2 + 1,
        ;
        assert(q * (2 * c2) == 2 * (q * c2)) by (nonlinear_arith);
        lemma_fundamental_div_mod(q, 2);
        assert(false);
    }
    assert(q * c == 2 * (q * c2)) by (nonlinear_arith)
        requires
            c == 2 * c2,
    ;
    assert(x == q * c2);
    lemma_mod_multiples_basic(c2, q);
    assert(q * c2 == c2 * q) by (nonlinear_arith);
}

/// Multiplication by `2^k` is injective modulo an odd `q`.
pub proof fn lemma_cancel_pow2(x: int, y: int, q: int, k: nat)
    requires
        q > 0,
        q % 2 == 1,
        (x * pow2(k)) % q == (y * pow2(k)) % q,
    ensures
        x % q == y % q,
    decreases k,
{
    lemma_mod_equivalence(x * pow2(k), y * pow2(k), q);
    if k == 0 {
        lemma2_to64();
        assert(x * pow2(k) == x) by (nonlinear_arith)
            requires
                pow2(k) == 1,
        ;
        assert(y * pow2(k) == y) by (nonlinear_arith)
            requires
                pow2(k) == 1,
        ;
    } else {
        let k1 = (k - 1) as nat;
        lemma_pow2_adds(1, k1);
        lemma_pow2_unfold(1);
        lemma2_to64();
        assert(pow2(k) == 2 * pow2(k1));
        let d = (x - y) * pow2(k1);
        assert(x * pow2(k) - y * pow2(k) == 2 * d) by (nonlinear_arith)
            requires
                pow2(k) == 2 * pow2(k1),
                d == (x - y) * pow2(k1),
        ;
        lemma_cancel_two(d, q);
        assert(d == x * pow2(k1) - y * pow2(k1)) by (nonlinear_arith)
            requires
                d == (x - y) * pow2(k1),
        ;
        lemma_mod_equivalence(x * pow2(k1), y * pow2(k1), q);
        lemma_cancel_pow2(x, y, q, k1);
    }
}

/// Montgomery's observation: with `q·qinv ≡ -1 (mod R)` and
/// `m = (x mod R)·qinv mod R`, the sum `x + m·q` is a multiple of `R`.
pub proof fn lemma_mont_exact(x: int, m: int, q: int, qinv: int, r: int)
    requires
        r > 0,
        (q * qinv + 1) % r == 0,
        m == ((x % r) * qinv) % r,
    ensures
        (x + m * q) % r == 0,
{
    let xr = x % r;
    let a = xr * qinv;
    // m·q ≡ xr·qinv·q (mod r)
    lemma_mul_mod_noop_left(a, q, r);
    assert((m * q) % r == (a * q) % r);
    assert(a * q == xr * (q * qinv)) by (nonlinear_arith)
        requires
            a == xr * qinv,
    ;
    // x + m q ≡ xr + xr·q·qinv = xr·(q·qinv + 1) (mod r)
    lemma_add_mod_noop(x, m * q, r);
    lemma_mod_twice(x, r);
    lemma_add_mod_noop(xr, xr * (q * qinv), r);
    assert(((x % r) + ((m * q) % r)) % r == ((xr % r) + ((xr * (q * qinv)) % r)) % r);
    assert(xr + xr * (q * qinv) == xr * (q * qinv + 1)) by (nonlinear_arith);
    lemma_mul_mod_noop_right(xr, q * qinv + 1, r);
    assert(xr * 0 == 0);
    lemma_mod_self_0(r);
    lemma_small_mod(0, r as nat);
}

/// Shoup multiplication: with `ws = floor(w·R/q)` and `qq = floor(a·ws/R)`,
/// the value `a·w − qq·q` lies in `[0, 2q)` whenever `a < R`.
pub proof fn lemma_shoup_window(a: int, w: int, ws: int, qq: int, q: int, r: int)
    requires
        r > 0,
        q > 0,
        0 <= a < r,
        0 <= w,
        ws == (w * r) / q,
        qq == (a * ws) / r,
    ensures
        0 <= a * w - qq * q < 2 * q,
{
    lemma_fundamental_div_mod(w * r, q);
    let e = (w * r) % q;
    lemma_mod_bound(w * r, q);
    assert(w * r == q * ws + e);
    assert(ws >= 0) by {
        lemma_div_pos_is_pos(w * r, q);
        lemma_mul_nonnegative(w, r);
    }
    lemma_mul_nonnegative(a, ws);
    lemma_fundamental_div_mod(a * ws, r);
    let f = (a * ws) % r;
    lemma_mod_bound(a * ws, r);
    assert(a * ws == r * qq + f);
    assert(r * (a * w - qq * q) == a * e + q * f) by (nonlinear_arith)
        requires
            w * r == q * ws + e,
            a * ws == r * qq + f,
    ;
    assert(0 <= a * e + q * f < 2 * q * r) by (nonlinear_arith)
        requires
            0 <= a < r,
            0 <= e < q,
            0 <= f < r,
            q > 0,
    ;
    let v = a * w - qq * q;
    assert(0 <= v < 2 * q) by (nonlinear_arith)
        requires
            r * v == a * e + q * f,
            0 <= a * e + q * f < 2 * q * r,
            r > 0,
    ;
}

/// `(A - B) mod R` for residues `A, B` in `[0, R)`, as wrapping subtraction computes it.
pub proof fn lemma_wrapping_sub_is_mod(a: int, b: int, r: int, d: int)
    requires
        r > 0,
        0 <= a < r,
        0 <= b < r,
        d == (if a - b < 0 { a - b + r } else { a - b }),
    ensures
        d == (a - b) % r,
{
    if a - b < 0 {
        lemma_small_mod((a - b + r) as nat, r as nat);
        lemma_mod_add_multiples_vanish(a - b, r);
    } else {
        lemma_small_mod((a - b) as nat, r as nat);
    }
}

/// Rust's remainder `x % m` for `m > 0`: it takes the sign of `x`, and its
/// magnitude is that of `|x| mod m`.
pub open spec fn trem(x: int, m: int) -> int {
    if x >= 0 {
        x % m
    } else {
        -((-x) % m)
    }
}

/// The truncated remainder lies strictly between `−m` and `m`, keeps the
/// sign of `x`, is congruent to `x`, and leaves small values unchanged.
pub proof fn lemma_trem(x: int, m: int)
    requires
        m > 0,
    ensures
        -m < trem(x, m) < m,
        trem(x, m) % m == x % m,
        x >= 0 ==> 0 <= trem(x, m),
        x <= 0 ==> trem(x, m) <= 0,
        -m < x < m ==> trem(x, m) == x,
{
    if x >= 0 {
        lemma_mod_bound(x, m);
        lemma_mod_twice(x, m);
        if x < m {
            lemma_small_mod(x as nat, m as nat);
        }
    } else {
        lemma_mod_bound(-x, m);
        lemma_fundamental_div_mod(-x, m);
        let k = (-x) / m;
        let r = (-x) % m;
        assert(x == m * (-k) + (-r)) by (nonlinear_arith)
            requires
                -x == m * k + r,
        ;
        lemma_mod_multiples_vanish(-k, -r, m);
        if -x < m {
            lemma_small_mod((-x) as nat, m as nat);
        }
    }
}

/// `p` is prime: above one, with no divisor strictly between one and itself.
pub open spec fn is_prime(p: int) -> bool {
    p > 1 && forall|d: int| 1 < d < p ==> #[trigger] (p % d) != 0
}

/// Euclid's algorithm with Bezout coefficients: a positive common divisor
/// `g` of `a` and `b` with `a·x + b·y == g`.
proof fn lemma_bezout(a: int, b: int) -> (r: (int, int, int))
    requires
        a >= 0,
        b >= 0,
        a + b > 0,
    ensures
        r.0 > 0,
        a % r.0 == 0,
        b % r.0 == 0,
        a * r.1 + b * r.2 == r.0,
    decreases b,
{
    if b == 0 {
        lemma_mod_self_0(a);
        lemma_small_mod(0, a as nat);
        (a, 1, 0)
    } else {
        lemma_mod_bound(a, b);
        let (g, x, y) = lemma_bezout(b, a % b);
        lemma_fundamental_div_mod(a, b);
        lemma_fundamental_div_mod(b, g);
        lemma_fundamental_div_mod(a % b, g);
        let k = a / b;
        let s = b / g;
        let t = (a % b) / g;
        assert(a == g * (s * k + t)) by (nonlinear_arith)
            requires
                a == b * k + a % b,
                b == g * s + b % g,
                a % b == g * t + (a % b) % g,
                b % g == 0,
                (a % b) % g == 0,
        ;
        lemma_mod_multiples_basic(s * k + t, g);
        assert(g * (s * k + t) == (s * k + t) * g) by (nonlinear_arith);
        assert(a * y + b * (x - k * y) == g) by (nonlinear_arith)
            requires
                b * x + (a % b) * y == g,
                a == b * k + a % b,
        ;
        (g, y, x - k * y)
    }
}

/// Euclid's lemma: a prime dividing a product divides a factor.
pub proof fn lemma_prime_divides_product(p: int, a: int, b: int)
    requires
        is_prime(p),
        (a * b) % p == 0,
        a % p != 0,
    ensures
        b % p == 0,
{
    lemma_mod_bound(a, p);
    let ar = a % p;
    let (g, x, y) = lemma_bezout(ar, p);
    lemma_fundamental_div_mod(p, g);
    assert(g <= p) by (nonlinear_arith)
        requires
            p == g * (p / g) + p % g,
            p % g == 0,
            p > 0,
            g > 0,
    ;
    if g == p {
        lemma_small_mod(ar as nat, p as nat);
        assert(false);
    }
    if g > 1 {
        assert(p % g != 0);
        assert(false);
    }
    assert(g == 1);
    lemma_mul_mod_noop_left(a, b, p);
    lemma_fundamental_div_mod(ar * b, p);
    let k = (ar * b) / p;
    assert(ar * b == p * k);
    assert(b == p * (k * x + b * y)) by (nonlinear_arith)
        requires
            ar * x + p * y == 1,
            ar * b == p * k,
    ;
    lemma_mod_multiples_basic(k * x + b * y, p);
    assert(p * (k * x + b * y) == (k * x + b * y) * p) by (nonlinear_arith);
}

/// Binomial coefficients by Pascal's rule.
pub open spec fn binom(n: nat, k: nat) -> nat
    decreases n,
{
    if k == 0 {
        1
    } else if n == 0 {
        0
    } else {
        binom((n - 1) as nat, (k - 1) as nat) + binom((n - 1) as nat, k)
    }
}

proof fn lemma_binom_above(n: nat, k: nat)
    requires
        k > n,
    ensures
        binom(n, k) == 0,
    decreases n,
{
    if n > 0 {
        lemma_binom_above((n - 1) as nat, (k - 1) as nat);
        lemma_binom_above((n - 1) as nat, k);
    }
}

proof fn lemma_binom_top(n: nat)
    ensures
        binom(n, n) == 1,
    decreases n,
{
    if n > 0 {
        lemma_binom_top((n - 1) as nat);
        lemma_binom_above((n - 1) as nat, n);
    }
}

/// The absorption identity `k·C(n, k) = n·C(n − 1, k − 1)`.
proof fn lemma_binom_absorb(n: nat, k: nat)
    requires
        n >= 1,
        k >= 1,
    ensures
        k * binom(n, k) == n * binom((n - 1) as nat, (k - 1) as nat),
    decreases n,
{
    let n1 = (n - 1) as nat;
    let k1 = (k - 1) as nat;
    assert(binom(n, k) == binom(n1, k1) + binom(n1, k));
    if n == 1 {
        lemma_binom_above(n1, k);
        if k > 1 {
            lemma_binom_above(n1, k1);
            assert(binom(n, k) == 0);
            assert(k * binom(n, k) == n * binom(n1, k1)) by (nonlinear_arith)
                requires
                    binom(n, k) == 0,
                    binom(n1, k1) == 0,
            ;
        } else {
            assert(binom(n1, k1) == 1);
            assert(binom(n, k) == 1);
            assert(k * binom(n, k) == n * binom(n1, k1)) by (nonlinear_arith)
                requires
                    binom(n, k) == 1,
                    binom(n1, k1) == 1,
                    k == 1,
                    n == 1,
            ;
        }
    } else {
        lemma_binom_absorb(n1, k);
        if k == 1 {
            assert(binom(n1, 0) == 1);
            assert(binom((n1 - 1) as nat, 0) == 1);
            assert(binom(n, 1) == binom(n1, 0) + binom(n1, 1));
            assert(k * binom(n, k) == n * binom(n1, k1)) by (nonlinear_arith)
                requires
                    k == 1,
                    k1 == 0,
                    binom(n, 1) == binom(n1, 0) + binom(n1, 1),
                    binom(n1, 0) == 1,
                    k * binom(n1, k) == n1 * binom((n1 - 1) as nat, k1),
                    binom((n1 - 1) as nat, 0) == 1,
                    n == n1 + 1,
            ;
        } else {
            lemma_binom_absorb(n1, k1);
            let n2 = (n1 - 1) as nat;
            let k2 = (k1 - 1) as nat;
            assert(binom(n, k) == binom(n1, k1) + binom(n1, k));
            assert(binom(n1, k1) == binom(n2, k2) + binom(n2, k1));
            assert(k * binom(n, k) == n * binom(n1, k1)) by (nonlinear_arith)
                requires
                    binom(n, k) == binom(n1, k1) + binom(n1, k),
                    binom(n1, k1) == binom(n2, k2) + binom(n2, k1),
                    k * binom(n1, k) == n1 * binom(n2, k1),
                    k1 * binom(n1, k1) == n1 * binom(n2, k2),
                    k == k1 + 1,
                    n == n1 + 1,
            ;
        }
    }
}

/// A prime divides every inner binomial coefficient `C(p, k)`, `0 < k < p`.
proof fn lemma_prime_divides_binom(p: int, k: nat)
    requires
        is_prime(p),
        0 < k < p,
    ensures
        (binom(p as nat, k) as int) % p == 0,
{
    lemma_binom_absorb(p as nat, k);
    lemma_mod_multiples_basic(binom((p - 1) as nat, (k - 1) as nat) as int, p);
    assert(p * binom((p - 1) as nat, (k - 1) as nat) == binom((p - 1) as nat, (k - 1) as nat) * p)
        by (nonlinear_arith);
    lemma_small_mod(k, p as nat);
    lemma_prime_divides_product(p, k as int, binom(p as nat, k) as int);
}

/// `Σ_{k < m} C(n, k)·x^k`.
pub open spec fn binom_sum(n: nat, x: int, m: nat) -> int
    decreases m,
{
    if m == 0 {
        0
    } else {
        binom_sum(n, x, (m - 1) as nat) + binom(n, (m - 1) as nat) * pow(x, (m - 1) as nat)
    }
}

/// Pascal's rule lifted to the partial sums.
proof fn lemma_binom_sum_step(n: nat, x: int, m: nat)
    requires
        m >= 1,
    ensures
        binom_sum(n + 1, x, m) == binom_sum(n, x, m) + x * binom_sum(n, x, (m - 1) as nat),
    decreases m,
{
    let m1 = (m - 1) as nat;
    if m == 1 {
        lemma_pow0(x);
        assert(binom_sum(n + 1, x, 0) == 0 && binom_sum(n, x, 0) == 0);
        assert(binom(n + 1, 0) == 1 && binom(n, 0) == 1);
        assert(binom_sum(n + 1, x, 1) == 1);
        assert(binom_sum(n, x, 1) == 1);
        assert(x * 0 == 0);
    } else {
        lemma_binom_sum_step(n, x, m1);
        let m2 = (m1 - 1) as nat;
        assert(binom(n + 1, m1) == binom(n, m2) + binom(n, m1));
        lemma_pow_adds(x, 1, m2);
        lemma_pow1(x);
        assert(pow(x, m1) == x * pow(x, m2));
        assert(binom_sum(n + 1, x, m) == binom_sum(n, x, m) + x * binom_sum(n, x, m1))
            by (nonlinear_arith)
            requires
                binom_sum(n + 1, x, m) == binom_sum(n + 1, x, m1) + binom(n + 1, m1) * pow(x, m1),
                binom_sum(n + 1, x, m1) == binom_sum(n, x, m1) + x * binom_sum(n, x, m2),
                binom(n + 1, m1) == binom(n, m2) + binom(n, m1),
                pow(x, m1) == x * pow(x, m2),
                binom_sum(n, x, m) == binom_sum(n, x, m1) + binom(n, m1) * pow(x, m1),
                binom_sum(n, x, m1) == binom_sum(n, x, m2) + binom(n, m2) * pow(x, m2),
        ;
    }
}

/// The binomial theorem `(x + 1)^n = Σ_{k <= n} C(n, k)·x^k`.
proof fn lemma_binomial(n: nat, x: int)
    ensures
        pow(x + 1, n) == binom_sum(n, x, n + 1),
    decreases n,
{
    if n == 0 {
        lemma_pow0(x + 1);
        lemma_pow0(x);
        assert(binom_sum(n, x, 0) == 0);
        assert(binom(n, 0) == 1);
        assert(binom_sum(n, x, n + 1) == binom_sum(n, x, 0) + binom(n, 0) * pow(x, 0));
        assert(binom_sum(n, x, n + 1) == 1);
    } else {
        let n1 = (n - 1) as nat;
        lemma_binomial(n1, x);
        assert(n1 + 1 == n);
        assert(binom_sum(n1, x, n + 1) == binom_sum(n1, x, n) + binom(n1, n) * pow(x, n));
        lemma_binom_sum_step(n1, x, n + 1);
        lemma_binom_above(n1, n);
        assert(0 * pow(x, n) == 0);
        assert(binom_sum(n1, x, n + 1) == binom_sum(n1, x, n));
        lemma_pow_adds(x + 1, 1, n1);
        lemma_pow1(x + 1);
        assert(pow(x + 1, n) == (x + 1) * pow(x + 1, n1));
        assert((x + 1) * binom_sum(n1, x, n) == binom_sum(n1, x, n) + x * binom_sum(n1, x, n))
            by (nonlinear_arith);
    }
}

/// Modulo a prime, the inner terms of `(x + 1)^p` vanish.
proof fn lemma_binom_sum_mod_prime(p: int, x: int, m: nat)
    requires
        is_prime(p),
        1 <= m <= p,
    ensures
        binom_sum(p as nat, x, m) % p == 1,
    decreases m,
{
    if m == 1 {
        lemma_pow0(x);
        lemma_small_mod(1, p as nat);
        assert(binom_sum(p as nat, x, 0) == 0);
        assert(binom(p as nat, 0) == 1);
        assert(binom_sum(p as nat, x, 1) == 1);
    } else {
        let m1 = (m - 1) as nat;
        lemma_binom_sum_mod_prime(p, x, m1);
        lemma_prime_divides_binom(p, m1);
        lemma_mul_mod_noop_left(binom(p as nat, m1) as int, pow(x, m1), p);
        assert(0 * pow(x, m1) == 0);
        lemma_small_mod(0, p as nat);
        lemma_add_mod_noop(binom_sum(p as nat, x, m1), binom(p as nat, m1) * pow(x, m1), p);
        lemma_small_mod(1, p as nat);
    }
}

/// `x^p ≡ x (mod p)` for a prime `p` and `x >= 0`.
proof fn lemma_fermat_power(p: int, x: nat)
    requires
        is_prime(p),
    ensures
        pow(x as int, p as nat) % p == (x as int) % p,
    decreases x,
{
    if x == 0 {
        lemma0_pow(p as nat);
    } else {
        let x1 = (x - 1) as nat;
        lemma_fermat_power(p, x1);
        lemma_binomial(p as nat, x1 as int);
        lemma_binom_sum_step(p as nat, x1 as int, p as nat + 1);
        lemma_binom_top(p as nat);
        assert(binom_sum(p as nat, x1 as int, p as nat + 1) == binom_sum(p as nat, x1 as int, p as nat)
            + pow(x1 as int, p as nat));
        lemma_binom_sum_mod_prime(p, x1 as int, p as nat);
        lemma_add_mod_noop(binom_sum(p as nat, x1 as int, p as nat), pow(x1 as int, p as nat), p);
        lemma_add_mod_noop(1, x1 as int, p);
        lemma_small_mod(1, p as nat);
    }
}

/// Fermat's little theorem: `a^(p−1) ≡ 1 (mod p)` for a prime `p` that does
/// not divide `a >= 0`.
pub proof fn lemma_fermat(p: int, a: nat)
    requires
        is_prime(p),
        (a as int) % p != 0,
    ensures
        pow(a as int, (p - 1) as nat) % p == 1,
{
    lemma_fermat_power(p, a);
    let e = pow(a as int, (p - 1) as nat);
    lemma_pow_adds(a as int, 1, (p - 1) as nat);
    lemma_pow1(a as int);
    assert(pow(a as int, p as nat) == a * e);
    // a·(e − 1) ≡ 0
    lemma_sub_mod_noop(a * e, a as int, p);
    assert(a * e - a == a * (e - 1)) by (nonlinear_arith);
    lemma_mod_self_0(p);
    assert((a * (e - 1)) % p == 0) by {
        lemma_sub_mod_noop(a * e, a as int, p);
        lemma_small_mod(0, p as nat);
    }
    lemma_prime_divides_product(p, a as int, e - 1);
    lemma_fundamental_div_mod(e - 1, p);
    lemma_mod_multiples_vanish((e - 1) / p, 1, p);
    assert(e == p * ((e - 1) / p) + 1);
    lemma_small_mod(1, p as nat);
}

} // verus!
