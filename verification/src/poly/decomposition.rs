//! Base-`b` digit decomposition of `i32` polynomials and its inverse,
//! recomposition by Horner's rule.
use super::arithmetic::{centered, normalize_i32};
use super::evaluation::{lemma_peval_single, lemma_peval_split, peval};
use super::modular::{lemma_trem, trem};
use vstd::arithmetic::div_mod::*;
use vstd::arithmetic::mul::*;
use vstd::arithmetic::power::*;
use vstd::prelude::*;

verus! {

/// The value a coefficient starts from: its centered representative modulo
/// `modulus` when one is given.
pub open spec fn reduce_opt(v: int, modulus: Option<i32>) -> int {
    match modulus {
        Some(m) => centered(v, m as int),
        None => v,
    }
}

/// The low digit of `v` in base `b`: its centered representative, or Rust's
/// truncated remainder.
pub open spec fn low_digit(v: int, base: int, centered_digits: bool) -> int {
    if centered_digits {
        centered(v, base)
    } else {
        trem(v, base)
    }
}

/// What is left of `v` after `d` digits have been taken off.
pub open spec fn remainder_after(v: int, base: int, centered_digits: bool, d: nat) -> int
    decreases d,
{
    if d == 0 {
        v
    } else {
        let r = remainder_after(v, base, centered_digits, (d - 1) as nat);
        (r - low_digit(r, base, centered_digits)) / base
    }
}

/// Digit `d` of `v` in base `b`.
pub open spec fn digit(v: int, base: int, centered_digits: bool, d: nat) -> int {
    low_digit(remainder_after(v, base, centered_digits, d), base, centered_digits)
}

/// The digits `0 .. width` of `v`, least significant first.
pub open spec fn digits(v: int, base: int, centered_digits: bool, width: nat) -> Seq<int> {
    Seq::new(width, |d: int| digit(v, base, centered_digits, d as nat))
}

/// Taking `width` digits off `v` never leaves the `i32` range in between.
pub open spec fn decompose_fits(v: int, base: int, centered_digits: bool, width: nat) -> bool {
    forall|d: nat|
        d < width ==> i32::MIN <= #[trigger] remainder_after(v, base, centered_digits, d) - digit(
            v,
            base,
            centered_digits,
            d,
        ) <= i32::MAX
}

/// The low digit is congruent to `v` modulo the base.
proof fn lemma_low_digit(v: int, base: int, centered_digits: bool)
    requires
        base > 0,
    ensures
        (v - low_digit(v, base, centered_digits)) % base == 0,
{
    lemma_trem(v, base);
    lemma_mod_bound(v, base);
    lemma_fundamental_div_mod(v, base);
    let r = v % base;
    let c = low_digit(v, base, centered_digits);
    if centered_digits {
        if c == r {
            lemma_mod_multiples_basic(v / base, base);
            assert(v - c == (v / base) * base) by (nonlinear_arith)
                requires
                    v == base * (v / base) + r,
                    c == r,
            ;
        } else {
            assert(c == r - base);
            lemma_mod_multiples_basic(v / base + 1, base);
            assert(v - c == (v / base + 1) * base) by (nonlinear_arith)
                requires
                    v == base * (v / base) + r,
                    c == r - base,
            ;
        }
    } else {
        lemma_fundamental_div_mod(c, base);
        lemma_sub_mod_noop(v, c, base);
        lemma_small_mod(0, base as nat);
    }
}

/// Digits and what remains recompose exactly:
/// `v = Σ_{d < k} digit_d·b^d + b^k·remainder_after(v, k)`.
pub proof fn lemma_digits_recompose(v: int, base: int, centered_digits: bool, k: nat)
    requires
        base > 0,
    ensures
        v == peval(digits(v, base, centered_digits, k), base) + pow(base, k) * remainder_after(
            v,
            base,
            centered_digits,
            k,
        ),
    decreases k,
{
    if k == 0 {
        lemma_pow0(base);
        assert(digits(v, base, centered_digits, 0).len() == 0);
    } else {
        let k1 = (k - 1) as nat;
        lemma_digits_recompose(v, base, centered_digits, k1);
        let r = remainder_after(v, base, centered_digits, k1);
        let c = low_digit(r, base, centered_digits);
        lemma_low_digit(r, base, centered_digits);
        lemma_fundamental_div_mod(r - c, base);
        let r2 = remainder_after(v, base, centered_digits, k);
        assert(r2 == (r - c) / base);
        assert(r == c + base * r2);
        let ds = digits(v, base, centered_digits, k);
        assert(ds.drop_last() =~= digits(v, base, centered_digits, k1));
        assert(ds.last() == c);
        let pk1 = pow(base, k1);
        lemma_pow_adds(base, k1, 1);
        lemma_pow1(base);
        assert(pow(base, k) == pk1 * base);
        assert(pk1 * r == c * pk1 + (pk1 * base) * r2) by (nonlinear_arith)
            requires
                r == c + base * r2,
        ;
    }
}

/// A digit is the centered representative of what remains, modulo the base
/// (as `normalize_i32` gives it), or Rust's truncated remainder of it.
pub proof fn lemma_low_digit_is_reduction(v: int, base: int)
    requires
        base > 0,
    ensures
        low_digit(v, base, true) == centered(v, base),
        low_digit(v, base, false) == trem(v, base),
{
}

/// Centered digits lie in `[−⌊b/2⌋, ⌊b/2⌋]`, truncated ones strictly between
/// `−b` and `b`, and both are congruent to what remains modulo `b`.
pub proof fn lemma_digit_bounds(v: int, base: int, centered_digits: bool, d: nat)
    requires
        base > 0,
    ensures
        centered_digits ==> -(base / 2) <= digit(v, base, centered_digits, d) <= base / 2,
        !centered_digits ==> -base < digit(v, base, centered_digits, d) < base,
        digit(v, base, centered_digits, d) % base == remainder_after(v, base, centered_digits, d)
            % base,
{
    let r = remainder_after(v, base, centered_digits, d);
    lemma_centered(r, base);
    lemma_trem(r, base);
    lemma_low_digit(r, base, centered_digits);
    let c = low_digit(r, base, centered_digits);
    lemma_fundamental_div_mod(r - c, base);
    lemma_mod_multiples_vanish((r - c) / base, c, base);
}

/// Splits every coefficient into `WIDTH` digits in base `base`, least
/// significant first, after centering it modulo `source_modulus` when one
/// is given. Digits are centered representatives or truncated remainders.
pub fn decompose_i32<const N: usize, const WIDTH: usize>(
    input: &[i32; N],
    source_modulus: Option<i32>,
    base: i32,
    centered_digits: bool,
) -> (out: [[i32; N]; WIDTH])
    requires
        base > 0,
        source_modulus matches Some(m) ==> m > 0,
        forall|k: int|
            0 <= k < N ==> decompose_fits(
                reduce_opt(#[trigger] input[k] as int, source_modulus),
                base as int,
                centered_digits,
                WIDTH as nat,
            ),
    ensures
        forall|d: int, k: int|
            0 <= d < WIDTH && 0 <= k < N ==> #[trigger] out[d][k] == digit(
                reduce_opt(input[k] as int, source_modulus),
                base as int,
                centered_digits,
                d as nat,
            ),
        centered_digits ==> forall|d: int, k: int|
            0 <= d < WIDTH && 0 <= k < N ==> -(base / 2) <= #[trigger] out[d][k] <= base / 2,
        !centered_digits ==> forall|d: int, k: int|
            0 <= d < WIDTH && 0 <= k < N ==> -base < #[trigger] out[d][k] < base,
{
    let ghost b = base as int;
    let ghost start = Seq::new(N as nat, |k: int| reduce_opt(input[k] as int, source_modulus));
    let mut remaining = *input;
    if let Some(modulus) = source_modulus {
        for k in 0..N
            invariant
                modulus > 0,
                source_modulus == Some(modulus),
                start == Seq::new(N as nat, |k: int| reduce_opt(input[k] as int, source_modulus)),
                forall|j: int| 0 <= j < k ==> #[trigger] remaining[j] == start[j],
                forall|j: int| k <= j < N ==> #[trigger] remaining[j] == input[j],
        {
            remaining[k] = normalize_i32(remaining[k], modulus);
        }
    }
    let mut out = [[0i32; N]; WIDTH];
    for d in 0..WIDTH
        invariant
            base > 0,
            b == base,
            start == Seq::new(N as nat, |k: int| reduce_opt(input[k] as int, source_modulus)),
            forall|k: int|
                0 <= k < N ==> decompose_fits(#[trigger] start[k], b, centered_digits, WIDTH as nat),
            forall|k: int|
                0 <= k < N ==> #[trigger] remaining[k] == remainder_after(
                    start[k],
                    b,
                    centered_digits,
                    d as nat,
                ),
            forall|e: int, k: int|
                0 <= e < d && 0 <= k < N ==> #[trigger] out[e][k] == digit(
                    start[k],
                    b,
                    centered_digits,
                    e as nat,
                ),
    {
        let mut row = out[d];
        for k in 0..N
            invariant
                base > 0,
                b == base,
                d < WIDTH,
                start == Seq::new(N as nat, |k: int| reduce_opt(input[k] as int, source_modulus)),
                forall|k: int|
                    0 <= k < N ==> decompose_fits(#[trigger] start[k], b, centered_digits, WIDTH as nat),
                forall|j: int|
                    0 <= j < N ==> #[trigger] remaining[j] == remainder_after(
                        start[j],
                        b,
                        centered_digits,
                        (if j < k { d + 1 } else { d as int }) as nat,
                    ),
                forall|j: int|
                    0 <= j < k ==> #[trigger] row[j] == digit(start[j], b, centered_digits, d as nat),
                forall|e: int, j: int|
                    0 <= e < d && 0 <= j < N ==> #[trigger] out[e][j] == digit(
                        start[j],
                        b,
                        centered_digits,
                        e as nat,
                    ),
        {
            let value = remaining[k];
            let ghost v = value as int;
            proof {
                lemma_trem(v, b);
                lemma_low_digit(v, b, centered_digits);
                assert(decompose_fits(start[k as int], b, centered_digits, WIDTH as nat));
                assert(i32::MIN <= remainder_after(start[k as int], b, centered_digits, d as nat)
                    - digit(start[k as int], b, centered_digits, d as nat) <= i32::MAX);
            }
            let output = if centered_digits {
                normalize_i32(value, base)
            } else {
                value % base
            };
            assert(output == low_digit(v, b, centered_digits));
            let diff = value - output;
            proof {
                lemma_fundamental_div_mod(diff as int, b);
                lemma_div_multiples_vanish(diff as int / b, b);
                assert(diff as int == b * (diff as int / b));
            }
            let next = diff / base;
            proof {
                // Rust's quotient of an exact multiple is the mathematical one
                assert(next == (diff as int) / b) by {
                    if diff >= 0 {
                    } else {
                        assert(next == -((-(diff as int)) / b));
                        lemma_div_multiples_vanish(-(diff as int / b), b);
                        assert(-(diff as int) == b * (-(diff as int / b))) by (nonlinear_arith)
                            requires
                                diff as int == b * (diff as int / b),
                        ;
                    }
                }
            }
            remaining[k] = next;
            row[k] = output;
        }
        out[d] = row;
    }
    proof {
        assert forall|d: int, k: int| 0 <= d < WIDTH && 0 <= k < N implies (centered_digits ==> -(
        base / 2) <= #[trigger] out[d][k] <= base / 2) && (!centered_digits ==> -base < out[d][k]
            < base) by {
            lemma_digit_bounds(start[k], b, centered_digits, d as nat);
        }
    }
    out
}

/// The digits of coefficient `k`, least significant first, each centered
/// modulo `digit_modulus` when one is given.
pub open spec fn digit_column<const N: usize, const WIDTH: usize>(
    digits: [[i32; N]; WIDTH],
    k: int,
    digit_modulus: Option<i32>,
) -> Seq<int> {
    Seq::new(WIDTH as nat, |d: int| reduce_opt(digits[d][k] as int, digit_modulus))
}

/// With a digit modulus `m`, every digit of the column, the most significant
/// one included, is its centered representative modulo `m`.
pub proof fn lemma_digit_column_centered<const N: usize, const WIDTH: usize>(
    digits: [[i32; N]; WIDTH],
    k: int,
    m: i32,
)
    requires
        m > 0,
    ensures
        digit_column(digits, k, Some(m)) == Seq::new(
            WIDTH as nat,
            |d: int| centered(digits[d][k] as int, m as int),
        ),
        forall|d: int|
            0 <= d < WIDTH ==> -(m / 2) <= #[trigger] digit_column(digits, k, Some(m))[d] <= m / 2
                && digit_column(digits, k, Some(m))[d] % (m as int) == (digits[d][k] as int) % (
            m as int),
{
    assert(digit_column(digits, k, Some(m)) =~= Seq::new(
        WIDTH as nat,
        |d: int| centered(digits[d][k] as int, m as int),
    ));
    assert forall|d: int| 0 <= d < WIDTH implies -(m / 2) <= #[trigger] digit_column(
        digits,
        k,
        Some(m),
    )[d] <= m / 2 && digit_column(digits, k, Some(m))[d] % (m as int) == (digits[d][k] as int) % (
    m as int) by {
        let a = digits[d][k] as int;
        lemma_centered(a, m as int);
        lemma_mod_bound(a, m as int);
        lemma_small_mod((a % (m as int)) as nat, m as nat);
        lemma_mod_add_multiples_vanish(a % (m as int) - m, m as int);
    }
}

/// For an odd digit modulus, recomposition sees each digit only modulo `m`:
/// digits congruent modulo `m` give the same column, hence the same output.
pub proof fn lemma_digit_column_congruent<const N: usize, const WIDTH: usize>(
    digits: [[i32; N]; WIDTH],
    other: [[i32; N]; WIDTH],
    k: int,
    m: i32,
)
    requires
        m > 0,
        m % 2 == 1,
        forall|d: int|
            0 <= d < WIDTH ==> (#[trigger] digits[d][k] as int) % (m as int) == (other[d][k] as int)
                % (m as int),
    ensures
        digit_column(digits, k, Some(m)) == digit_column(other, k, Some(m)),
{
    assert(digit_column(digits, k, Some(m)) =~= digit_column(other, k, Some(m)));
}

/// Horner's rule from the most significant digit never leaves the `i32`
/// range: neither a partial value times the base nor the next partial value.
pub open spec fn recompose_fits(col: Seq<int>, base: int) -> bool {
    forall|j: int|
        0 <= j < col.len() - 1 ==> i32::MIN <= #[trigger] peval(col.subrange(j + 1, col.len() as int), base)
            * base <= i32::MAX && i32::MIN <= peval(col.subrange(j, col.len() as int), base)
            <= i32::MAX
}

/// One Horner step: `peval(s[j..]) = s[j] + b·peval(s[j+1..])`.
proof fn lemma_horner_step(s: Seq<int>, j: int, base: int)
    requires
        0 <= j < s.len(),
    ensures
        peval(s.subrange(j, s.len() as int), base) == s[j] + base * peval(
            s.subrange(j + 1, s.len() as int),
            base,
        ),
{
    let a = seq![s[j]];
    let b = s.subrange(j + 1, s.len() as int);
    assert(a + b =~= s.subrange(j, s.len() as int));
    lemma_peval_split(a, b, base);
    lemma_peval_single(a, base);
    lemma_pow1(base);
    assert(pow(base, 1) * peval(b, base) == base * peval(b, base));
}

/// Recombines `WIDTH` digits per coefficient, least significant first, by
/// Horner's rule in base `base`: each digit is first centered modulo
/// `digit_modulus`, and the result modulo `target_modulus`, when given.
pub fn recompose_i32<const N: usize, const WIDTH: usize>(
    digits: &[[i32; N]; WIDTH],
    base: i32,
    digit_modulus: Option<i32>,
    target_modulus: Option<i32>,
) -> (out: [i32; N])
    requires
        WIDTH > 0,
        digit_modulus matches Some(m) ==> m > 0,
        target_modulus matches Some(m) ==> m > 0,
        forall|k: int|
            0 <= k < N ==> recompose_fits(
                #[trigger] digit_column(*digits, k, digit_modulus),
                base as int,
            ),
    ensures
        forall|k: int|
            0 <= k < N ==> #[trigger] out[k] == reduce_opt(
                peval(digit_column(*digits, k, digit_modulus), base as int),
                target_modulus,
            ),
        digit_modulus matches Some(m) ==> forall|k: int|
            0 <= k < N ==> #[trigger] out[k] == reduce_opt(
                peval(
                    Seq::new(WIDTH as nat, |d: int| centered(digits[d][k] as int, m as int)),
                    base as int,
                ),
                target_modulus,
            ),
{
    let ghost w = WIDTH as int;
    let mut result = digits[WIDTH - 1];
    if let Some(modulus) = digit_modulus {
        for k in 0..N
            invariant
                modulus > 0,
                digit_modulus == Some(modulus),
                forall|j: int|
                    0 <= j < k ==> #[trigger] result[j] == reduce_opt(
                        digits[WIDTH - 1][j] as int,
                        digit_modulus,
                    ),
                forall|j: int| k <= j < N ==> #[trigger] result[j] == digits[WIDTH - 1][j],
        {
            result[k] = normalize_i32(result[k], modulus);
        }
    }
    proof {
        assert forall|k: int| 0 <= k < N implies #[trigger] result[k] == peval(
            digit_column(*digits, k, digit_modulus).subrange(w - 1, w),
            base as int,
        ) by {
            let col = digit_column(*digits, k, digit_modulus);
            lemma_peval_single(col.subrange(w - 1, w), base as int);
        }
    }
    let mut d = WIDTH - 1;
    while d > 0
        invariant
            w == WIDTH,
            0 <= d < WIDTH,
            digit_modulus matches Some(m) ==> m > 0,
            forall|k: int|
                0 <= k < N ==> recompose_fits(
                    #[trigger] digit_column(*digits, k, digit_modulus),
                    base as int,
                ),
            forall|k: int|
                0 <= k < N ==> #[trigger] result[k] == peval(
                    digit_column(*digits, k, digit_modulus).subrange(d as int, w),
                    base as int,
                ),
        decreases d,
    {
        d = d - 1;
        let digit = &digits[d];
        for k in 0..N
            invariant
                w == WIDTH,
                0 <= d < WIDTH - 1,
                digit == &digits[d as int],
                digit_modulus matches Some(m) ==> m > 0,
                forall|k: int|
                    0 <= k < N ==> recompose_fits(
                        #[trigger] digit_column(*digits, k, digit_modulus),
                        base as int,
                    ),
                forall|j: int|
                    0 <= j < N ==> #[trigger] result[j] == peval(
                        digit_column(*digits, j, digit_modulus).subrange(
                            (if j < k { d as int } else { d + 1 }),
                            w,
                        ),
                        base as int,
                    ),
        {
            let ghost col = digit_column(*digits, k as int, digit_modulus);
            let next = match digit_modulus {
                Some(modulus) => normalize_i32(digit[k], modulus),
                None => digit[k],
            };
            proof {
                assert(next == col[d as int]);
                assert(recompose_fits(col, base as int));
                assert(i32::MIN <= peval(col.subrange(d + 1, w), base as int) * base <= i32::MAX);
                lemma_horner_step(col, d as int, base as int);
                assert(peval(col.subrange(d + 1, w), base as int) * base == base * peval(
                    col.subrange(d + 1, w),
                    base as int,
                )) by (nonlinear_arith);
            }
            result[k] = result[k] * base + next;
        }
    }
    proof {
        assert forall|k: int| 0 <= k < N implies #[trigger] result[k] == peval(
            digit_column(*digits, k, digit_modulus),
            base as int,
        ) by {
            assert(digit_column(*digits, k, digit_modulus).subrange(0, w) =~= digit_column(
                *digits,
                k,
                digit_modulus,
            ));
        }
    }
    if let Some(modulus) = target_modulus {
        for k in 0..N
            invariant
                modulus > 0,
                target_modulus == Some(modulus),
                w == WIDTH,
                forall|j: int|
                    0 <= j < k ==> #[trigger] result[j] == reduce_opt(
                        peval(digit_column(*digits, j, digit_modulus), base as int),
                        target_modulus,
                    ),
                forall|j: int|
                    k <= j < N ==> #[trigger] result[j] == peval(
                        digit_column(*digits, j, digit_modulus),
                        base as int,
                    ),
        {
            result[k] = normalize_i32(result[k], modulus);
        }
    }
    proof {
        if let Some(m) = digit_modulus {
            assert forall|k: int| 0 <= k < N implies #[trigger] result[k] == reduce_opt(
                peval(
                    Seq::new(WIDTH as nat, |d: int| centered(digits[d][k] as int, m as int)),
                    base as int,
                ),
                target_modulus,
            ) by {
                lemma_digit_column_centered(*digits, k, m);
            }
        }
    }
    result
}

/// Recomposition undoes decomposition: the digits that `decompose_i32`
/// produces, recombined in the same base, give back each (centered)
/// coefficient whenever nothing remains after the last digit.
pub proof fn lemma_decompose_recompose<const N: usize, const WIDTH: usize>(
    input: [i32; N],
    source_modulus: Option<i32>,
    base: i32,
    centered_digits: bool,
    decomposed: [[i32; N]; WIDTH],
)
    requires
        base > 0,
        forall|d: int, k: int|
            0 <= d < WIDTH && 0 <= k < N ==> #[trigger] decomposed[d][k] == digit(
                reduce_opt(input[k] as int, source_modulus),
                base as int,
                centered_digits,
                d as nat,
            ),
        forall|k: int|
            0 <= k < N ==> remainder_after(
                reduce_opt(#[trigger] input[k] as int, source_modulus),
                base as int,
                centered_digits,
                WIDTH as nat,
            ) == 0,
    ensures
        forall|k: int|
            0 <= k < N ==> peval(#[trigger] digit_column(decomposed, k, None), base as int)
                == reduce_opt(input[k] as int, source_modulus),
{
    assert forall|k: int| 0 <= k < N implies peval(
        #[trigger] digit_column(decomposed, k, None),
        base as int,
    ) == reduce_opt(input[k] as int, source_modulus) by {
        let v = reduce_opt(input[k] as int, source_modulus);
        lemma_digits_recompose(v, base as int, centered_digits, WIDTH as nat);
        assert(digit_column(decomposed, k, None) =~= digits(
            v,
            base as int,
            centered_digits,
            WIDTH as nat,
        ));
        assert(pow(base as int, WIDTH as nat) * 0 == 0);
    }
}

/// Taking one more digit off: `r_j = digit_j + b·r_{j+1}`.
proof fn lemma_remainder_step(v: int, base: int, centered_digits: bool, j: nat)
    requires
        base > 0,
    ensures
        remainder_after(v, base, centered_digits, j) == digit(v, base, centered_digits, j) + base
            * remainder_after(v, base, centered_digits, j + 1),
{
    let r = remainder_after(v, base, centered_digits, j);
    let c = low_digit(r, base, centered_digits);
    lemma_low_digit(r, base, centered_digits);
    lemma_fundamental_div_mod(r - c, base);
    assert(remainder_after(v, base, centered_digits, j + 1) == (r - c) / base);
}

/// The digits from `j` on, evaluated in base `b`, plus `b^(width − j)` times
/// what remains after `width` digits, give back what remained after `j`.
proof fn lemma_digits_tail(v: int, base: int, centered_digits: bool, width: nat, j: nat)
    requires
        base > 0,
        j <= width,
    ensures
        peval(digits(v, base, centered_digits, width).subrange(j as int, width as int), base) + pow(
            base,
            (width - j) as nat,
        ) * remainder_after(v, base, centered_digits, width) == remainder_after(
            v,
            base,
            centered_digits,
            j,
        ),
    decreases width - j,
{
    let ds = digits(v, base, centered_digits, width);
    let big_r = remainder_after(v, base, centered_digits, width);
    if j == width {
        lemma_pow0(base);
        assert(ds.subrange(j as int, width as int).len() == 0);
        assert(peval(ds.subrange(j as int, width as int), base) == 0);
    } else {
        lemma_digits_tail(v, base, centered_digits, width, j + 1);
        lemma_horner_step(ds, j as int, base);
        lemma_remainder_step(v, base, centered_digits, j);
        let e = (width - j - 1) as nat;
        lemma_pow_adds(base, 1, e);
        lemma_pow1(base);
        assert(pow(base, (width - j) as nat) == base * pow(base, e));
        let tail = peval(ds.subrange(j + 1int, width as int), base);
        assert(ds[j as int] == digit(v, base, centered_digits, j));
        assert(base * (tail + pow(base, e) * big_r) == base * tail + (base * pow(base, e)) * big_r)
            by (nonlinear_arith);
    }
}

/// What remains after each digit, up to `width`, stays an `i32` when taking
/// the digits off does.
proof fn lemma_remainders_fit(v: int, base: int, centered_digits: bool, width: nat, j: nat)
    requires
        base > 0,
        i32::MIN <= v <= i32::MAX,
        decompose_fits(v, base, centered_digits, width),
        j <= width,
    ensures
        i32::MIN <= remainder_after(v, base, centered_digits, j) <= i32::MAX,
    decreases j,
{
    if j > 0 {
        let j1 = (j - 1) as nat;
        lemma_remainders_fit(v, base, centered_digits, width, j1);
        lemma_remainder_step(v, base, centered_digits, j1);
        let x = remainder_after(v, base, centered_digits, j1) - digit(v, base, centered_digits, j1);
        let y = remainder_after(v, base, centered_digits, j);
        assert(i32::MIN <= x <= i32::MAX);
        assert(i32::MIN <= y <= i32::MAX) by (nonlinear_arith)
            requires
                x == base * y,
                base >= 1,
                i32::MIN <= x <= i32::MAX,
        ;
    }
}

/// Centered representatives lie in `[−⌊m/2⌋, ⌊m/2⌋]`, and centering twice is
/// centering once.
pub proof fn lemma_centered(a: int, m: int)
    requires
        m > 0,
    ensures
        -(m / 2) <= centered(a, m) <= m / 2,
        centered(centered(a, m), m) == centered(a, m),
{
    let r = a % m;
    let c = centered(a, m);
    lemma_mod_bound(a, m);
    if c == r - m {
        lemma_mod_add_multiples_vanish(r - m, m);
        lemma_small_mod(r as nat, m as nat);
    } else {
        lemma_small_mod(r as nat, m as nat);
    }
}

/// The round trip: when taking `WIDTH` digits off every (centered) input
/// stays an `i32` and nothing remains, the digits that `decompose_i32`
/// produces meet `recompose_i32`'s bound, evaluate back to the centered
/// input, and centering the result again modulo the source modulus changes
/// nothing, so `recompose_i32(&digits, base, None, source_modulus)` returns
/// each input centered modulo the source modulus.
pub proof fn lemma_decompose_round_trip<const N: usize, const WIDTH: usize>(
    input: [i32; N],
    source_modulus: Option<i32>,
    base: i32,
    centered_digits: bool,
    decomposed: [[i32; N]; WIDTH],
)
    requires
        base > 0,
        WIDTH > 0,
        source_modulus matches Some(m) ==> m > 0,
        forall|k: int|
            0 <= k < N ==> decompose_fits(
                reduce_opt(#[trigger] input[k] as int, source_modulus),
                base as int,
                centered_digits,
                WIDTH as nat,
            ),
        forall|d: int, k: int|
            0 <= d < WIDTH && 0 <= k < N ==> #[trigger] decomposed[d][k] == digit(
                reduce_opt(input[k] as int, source_modulus),
                base as int,
                centered_digits,
                d as nat,
            ),
        forall|k: int|
            0 <= k < N ==> remainder_after(
                reduce_opt(#[trigger] input[k] as int, source_modulus),
                base as int,
                centered_digits,
                WIDTH as nat,
            ) == 0,
    ensures
        forall|k: int|
            0 <= k < N ==> recompose_fits(#[trigger] digit_column(decomposed, k, None), base as int),
        forall|k: int|
            0 <= k < N ==> peval(#[trigger] digit_column(decomposed, k, None), base as int)
                == reduce_opt(input[k] as int, source_modulus),
        forall|k: int|
            0 <= k < N ==> reduce_opt(
                peval(#[trigger] digit_column(decomposed, k, None), base as int),
                source_modulus,
            ) == reduce_opt(input[k] as int, source_modulus),
{
    let b = base as int;
    let w = WIDTH as nat;
    assert forall|k: int| 0 <= k < N implies recompose_fits(
        #[trigger] digit_column(decomposed, k, None),
        b,
    ) && peval(digit_column(decomposed, k, None), b) == reduce_opt(input[k] as int, source_modulus)
        && reduce_opt(peval(digit_column(decomposed, k, None), b), source_modulus) == reduce_opt(
        input[k] as int,
        source_modulus,
    ) by {
        let v = reduce_opt(input[k] as int, source_modulus);
        let col = digit_column(decomposed, k, None);
        let ds = digits(v, b, centered_digits, w);
        assert(col =~= ds);
        if let Some(m) = source_modulus {
            lemma_centered(input[k] as int, m as int);
        }
        assert(i32::MIN <= v <= i32::MAX);
        assert forall|j: int| 0 <= j <= w implies #[trigger] peval(col.subrange(j, w as int), b)
            == remainder_after(v, b, centered_digits, j as nat) by {
            lemma_digits_tail(v, b, centered_digits, w, j as nat);
            assert(pow(b, (w - j) as nat) * 0 == 0);
        }
        assert forall|j: int| 0 <= j < col.len() - 1 implies i32::MIN <= #[trigger] peval(
            col.subrange(j + 1, col.len() as int),
            b,
        ) * b <= i32::MAX && i32::MIN <= peval(col.subrange(j, col.len() as int), b) <= i32::MAX by {
            assert(peval(col.subrange(j + 1, w as int), b) == remainder_after(
                v,
                b,
                centered_digits,
                (j + 1) as nat,
            ));
            assert(peval(col.subrange(j, w as int), b) == remainder_after(
                v,
                b,
                centered_digits,
                j as nat,
            ));
            lemma_remainders_fit(v, b, centered_digits, w, j as nat);
            lemma_remainder_step(v, b, centered_digits, j as nat);
            assert(decompose_fits(v, b, centered_digits, w));
            assert(i32::MIN <= remainder_after(v, b, centered_digits, j as nat) - digit(
                v,
                b,
                centered_digits,
                j as nat,
            ) <= i32::MAX);
            assert(remainder_after(v, b, centered_digits, (j + 1) as nat) * b == b
                * remainder_after(v, b, centered_digits, (j + 1) as nat)) by (nonlinear_arith);
        }
        assert(peval(col.subrange(0, w as int), b) == v);
        assert(col.subrange(0, w as int) =~= col);
    }
}

} // verus!
