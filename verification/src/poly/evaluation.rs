//! Polynomial evaluation over the integers and the negacyclic product: the
//! algebra behind the convolution property of the transform.
use vstd::arithmetic::div_mod::*;
use vstd::arithmetic::mul::*;
use vstd::arithmetic::power::*;
use vstd::prelude::*;

verus! {

/// `Σ s[j]·y^j`, the value at `y` of the polynomial with coefficients `s`.
pub open spec fn peval(s: Seq<int>, y: int) -> int
    decreases s.len(),
{
    if s.len() == 0 {
        0
    } else {
        peval(s.drop_last(), y) + s.last() * pow(y, (s.len() - 1) as nat)
    }
}

/// Coefficient `k` of `x^i·b` reduced modulo `x^n + 1`: `b[k − i]`, or
/// `−b[n + k − i]` when the power wrapped around.
pub open spec fn negacyclic_term(b: Seq<int>, k: int, i: int) -> int {
    if i <= k {
        b[k - i]
    } else {
        -b[b.len() + k - i]
    }
}

/// `Σ_{i < m} a[i]·negacyclic_term(b, k, i)`.
pub open spec fn negacyclic_sum(a: Seq<int>, b: Seq<int>, k: int, m: nat) -> int
    decreases m,
{
    if m == 0 {
        0
    } else {
        negacyclic_sum(a, b, k, (m - 1) as nat) + a[m - 1] * negacyclic_term(b, k, m - 1)
    }
}

/// The product of `a` and `b` in `Z_q[x]/(x^n + 1)`, coefficients in `[0, q)`.
pub open spec fn negacyclic_mul(a: Seq<int>, b: Seq<int>, q: int) -> Seq<int> {
    Seq::new(a.len(), |k: int| negacyclic_sum(a, b, k, a.len()) % q)
}

/// Evaluation is linear in the coefficients.
pub proof fn lemma_peval_linear(a: Seq<int>, b: Seq<int>, c: Seq<int>, r: int, s: int, y: int)
    requires
        a.len() == b.len(),
        c.len() == a.len(),
        forall|o: int| 0 <= o < c.len() ==> #[trigger] c[o] == r * a[o] + s * b[o],
    ensures
        peval(c, y) == r * peval(a, y) + s * peval(b, y),
    decreases c.len(),
{
    if c.len() > 0 {
        let a1 = a.drop_last();
        let b1 = b.drop_last();
        let c1 = c.drop_last();
        assert forall|o: int| 0 <= o < c1.len() implies #[trigger] c1[o] == r * a1[o] + s * b1[o] by {
            assert(c1[o] == c[o]);
        }
        lemma_peval_linear(a1, b1, c1, r, s, y);
        let yy = pow(y, (c.len() - 1) as nat);
        let cl = c.last();
        assert(cl == r * a.last() + s * b.last());
        assert(peval(c1, y) + cl * yy == r * (peval(a1, y) + a.last() * yy) + s * (peval(b1, y)
            + b.last() * yy)) by (nonlinear_arith)
            requires
                peval(c1, y) == r * peval(a1, y) + s * peval(b1, y),
                cl == r * a.last() + s * b.last(),
        ;
    }
}

/// Evaluating a concatenation: `peval(a ++ b) = peval(a) + y^|a|·peval(b)`.
pub proof fn lemma_peval_split(a: Seq<int>, b: Seq<int>, y: int)
    ensures
        peval(a + b, y) == peval(a, y) + pow(y, a.len()) * peval(b, y),
    decreases b.len(),
{
    if b.len() == 0 {
        assert(a + b =~= a);
    } else {
        let b1 = b.drop_last();
        assert((a + b).drop_last() =~= a + b1);
        assert((a + b).last() == b.last());
        lemma_peval_split(a, b1, y);
        lemma_pow_adds(y, a.len(), (b.len() - 1) as nat);
        let ya = pow(y, a.len());
        let yb = pow(y, (b.len() - 1) as nat);
        assert((a + b).len() - 1 == a.len() + (b.len() - 1));
        assert(peval(a, y) + ya * peval(b1, y) + b.last() * (ya * yb) == peval(a, y) + ya * (
        peval(b1, y) + b.last() * yb)) by (nonlinear_arith);
    }
}

/// Evaluation respects congruence of coefficients modulo `q`.
pub proof fn lemma_peval_mod(c: Seq<int>, d: Seq<int>, y: int, q: int)
    requires
        q > 0,
        c.len() == d.len(),
        forall|o: int| 0 <= o < c.len() ==> #[trigger] c[o] % q == d[o] % q,
    ensures
        peval(c, y) % q == peval(d, y) % q,
    decreases c.len(),
{
    if c.len() > 0 {
        let c1 = c.drop_last();
        let d1 = d.drop_last();
        assert forall|o: int| 0 <= o < c1.len() implies #[trigger] c1[o] % q == d1[o] % q by {
            assert(c1[o] == c[o] && d1[o] == d[o]);
        }
        lemma_peval_mod(c1, d1, y, q);
        let yy = pow(y, (c.len() - 1) as nat);
        assert(c.last() % q == d.last() % q);
        lemma_mul_mod_noop_left(c.last(), yy, q);
        lemma_mul_mod_noop_left(d.last(), yy, q);
        lemma_add_mod_noop(peval(c1, y), c.last() * yy, q);
        lemma_add_mod_noop(peval(d1, y), d.last() * yy, q);
    }
}

/// The constant polynomial.
pub proof fn lemma_peval_single(s: Seq<int>, y: int)
    requires
        s.len() == 1,
    ensures
        peval(s, y) == s[0],
{
    lemma_pow0(y);
    assert(s.drop_last().len() == 0);
    assert(peval(s.drop_last(), y) == 0);
    assert(s.last() * pow(y, 0) == s.last());
}

/// `x^i·b mod (x^n + 1)` evaluates to `y^i·b(y)` wherever `y^n ≡ −1`.
pub proof fn lemma_peval_rotate(b: Seq<int>, i: int, y: int, q: int)
    requires
        q > 0,
        0 <= i < b.len(),
        (pow(y, b.len()) + 1) % q == 0,
    ensures
        peval(Seq::new(b.len(), |k: int| negacyclic_term(b, k, i)), y) % q == (pow(y, i as nat)
            * peval(b, y)) % q,
{
    let n = b.len() as int;
    let rot = Seq::new(b.len(), |k: int| negacyclic_term(b, k, i));
    let lo = b.subrange(0, n - i);
    let hi = b.subrange(n - i, n);
    let nhi = Seq::new(i as nat, |o: int| -hi[o]);
    assert(rot =~= nhi + lo);
    lemma_peval_split(nhi, lo, y);
    lemma_peval_linear(hi, hi, nhi, 0, -1, y);
    assert(b =~= lo + hi);
    lemma_peval_split(lo, hi, y);
    lemma_pow_adds(y, i as nat, (n - i) as nat);
    let yi = pow(y, i as nat);
    let yn = pow(y, b.len());
    let yl = pow(y, (n - i) as nat);
    // y^i·b(y) = y^i·lo(y) + y^n·hi(y) ≡ y^i·lo(y) − hi(y) = rot(y)
    assert(yi * peval(b, y) - peval(rot, y) == (yn + 1) * peval(hi, y)) by (nonlinear_arith)
        requires
            peval(b, y) == peval(lo, y) + yl * peval(hi, y),
            peval(rot, y) == peval(nhi, y) + yi * peval(lo, y),
            peval(nhi, y) == 0 * peval(hi, y) + -1 * peval(hi, y),
            yn == yi * yl,
    ;
    lemma_mul_mod_noop_left(yn + 1, peval(hi, y), q);
    assert(((yn + 1) * peval(hi, y)) % q == 0) by {
        assert(0 * peval(hi, y) == 0);
        lemma_small_mod(0, q as nat);
    }
    lemma_mod_equivalence(yi * peval(b, y), peval(rot, y), q);
}

/// The partial negacyclic sums over the first `m` coefficients of `a`
/// evaluate to `a|m(y)·b(y)` wherever `y^n ≡ −1`.
pub proof fn lemma_peval_partial_product(a: Seq<int>, b: Seq<int>, m: nat, y: int, q: int)
    requires
        q > 0,
        a.len() == b.len(),
        m <= a.len(),
        (pow(y, b.len()) + 1) % q == 0,
    ensures
        peval(Seq::new(a.len(), |k: int| negacyclic_sum(a, b, k, m)), y) % q == (peval(
            a.subrange(0, m as int),
            y,
        ) * peval(b, y)) % q,
    decreases m,
{
    let n = a.len();
    let acc = Seq::new(n, |k: int| negacyclic_sum(a, b, k, m));
    if m == 0 {
        let z = Seq::new(n, |k: int| 0int);
        assert(acc =~= z);
        lemma_peval_linear(b, b, acc, 0, 0, y);
        assert(a.subrange(0, 0).len() == 0);
        assert(0 * peval(b, y) == 0);
    } else {
        let m1 = (m - 1) as nat;
        lemma_peval_partial_product(a, b, m1, y, q);
        let prev = Seq::new(n, |k: int| negacyclic_sum(a, b, k, m1));
        let rot = Seq::new(n, |k: int| negacyclic_term(b, k, m1 as int));
        lemma_peval_linear(prev, rot, acc, 1, a[m1 as int], y);
        lemma_peval_rotate(b, m1 as int, y, q);
        let am = a.subrange(0, m as int);
        assert(am.drop_last() =~= a.subrange(0, m1 as int));
        let pa = peval(a.subrange(0, m1 as int), y);
        let pb = peval(b, y);
        let yi = pow(y, m1);
        // acc(y) = prev(y) + a[m−1]·rot(y) ≡ pa·pb + a[m−1]·y^(m−1)·pb = (am)(y)·pb
        lemma_add_mod_noop(peval(prev, y), a[m1 as int] * peval(rot, y), q);
        lemma_mul_mod_noop_right(a[m1 as int], peval(rot, y), q);
        lemma_mul_mod_noop_right(a[m1 as int], yi * pb, q);
        lemma_add_mod_noop(pa * pb, a[m1 as int] * (yi * pb), q);
        assert(pa * pb + a[m1 as int] * (yi * pb) == (pa + a[m1 as int] * yi) * pb) by (
        nonlinear_arith);
        assert(peval(am, y) == pa + a[m1 as int] * yi);
        assert(peval(acc, y) == 1 * peval(prev, y) + a[m1 as int] * peval(rot, y));
    }
}

/// Wherever `y^n ≡ −1`, the negacyclic product evaluates to the product of
/// the evaluations.
pub proof fn lemma_peval_negacyclic(a: Seq<int>, b: Seq<int>, y: int, q: int)
    requires
        q > 0,
        a.len() == b.len(),
        (pow(y, b.len()) + 1) % q == 0,
    ensures
        peval(negacyclic_mul(a, b, q), y) % q == (peval(a, y) * peval(b, y)) % q,
{
    let n = a.len();
    let acc = Seq::new(n, |k: int| negacyclic_sum(a, b, k, n));
    lemma_peval_partial_product(a, b, n, y, q);
    assert(a.subrange(0, n as int) =~= a);
    assert forall|o: int| 0 <= o < n implies #[trigger] negacyclic_mul(a, b, q)[o] % q == acc[o]
        % q by {
        lemma_mod_twice(acc[o], q);
    }
    lemma_peval_mod(negacyclic_mul(a, b, q), acc, y, q);
}

} // verus!
