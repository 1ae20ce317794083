//! Binomial coefficients, the weights of the Bernstein form of a Bezier curve.

use vstd::prelude::*;
use vstd::arithmetic::div_mod::lemma_fundamental_div_mod_converse;
use vstd::arithmetic::power2::{lemma2_to64, lemma_pow2_unfold, pow2};

verus! {

/// The product of the numbers from 1 to `n`.
pub open spec fn factorial(n: nat) -> nat
    decreases n,
{
    if n == 0 {
        1
    } else {
        n * factorial((n - 1) as nat)
    }
}

/// The number of ways to choose `k` things out of `n`: `n! / (k! (n - k)!)`,
/// and 0 where `k` exceeds `n`.
pub open spec fn binomial(n: nat, k: nat) -> nat {
    if k > n {
        0
    } else {
        factorial(n) / (factorial(k) * factorial((n - k) as nat))
    }
}

/// Whether every product that the computation of `binomial(n, k)` forms on its
/// way fits in a `usize`.
pub open spec fn binomial_fits(n: nat, k: nat) -> bool {
    k <= n ==> forall|i: nat| i < k ==> #[trigger] binomial(n, i) * (n - i) <= usize::MAX
}

/// The binomial coefficients as the entries of Pascal's triangle.
spec fn pascal(n: nat, k: nat) -> nat
    decreases n,
{
    if k == 0 {
        1
    } else if n == 0 {
        0
    } else {
        pascal((n - 1) as nat, (k - 1) as nat) + pascal((n - 1) as nat, k)
    }
}

/// A factorial is never zero.
pub proof fn lemma_factorial_positive(n: nat)
    ensures
        factorial(n) >= 1,
    decreases n,
{
    if n > 0 {
        lemma_factorial_positive((n - 1) as nat);
        assert(n * factorial((n - 1) as nat) >= 1) by (nonlinear_arith)
            requires
                n >= 1,
                factorial((n - 1) as nat) >= 1,
        ;
    }
}

/// Pascal's triangle holds zeros to the right of each row.
proof fn lemma_pascal_outside(n: nat, k: nat)
    requires
        k > n,
    ensures
        pascal(n, k) == 0,
    decreases n,
{
    if n > 0 {
        lemma_pascal_outside((n - 1) as nat, (k - 1) as nat);
        lemma_pascal_outside((n - 1) as nat, k);
    }
}

/// An entry of Pascal's triangle times the two factorials below it is the factorial above.
proof fn lemma_pascal_factorial(n: nat, k: nat)
    requires
        k <= n,
    ensures
        pascal(n, k) * (factorial(k) * factorial((n - k) as nat)) == factorial(n),
    decreases n,
{
    let fk = factorial(k);
    let fr = factorial((n - k) as nat);
    if k == 0 {
        assert(1 * (1 * fr) == fr) by (nonlinear_arith);
    } else if k == n {
        let m = (n - 1) as nat;
        lemma_pascal_factorial(m, m);
        lemma_pascal_outside(m, n);
        lemma_factorial_positive(m);
        let fm = factorial(m);
        assert(pascal(m, m) == 1) by (nonlinear_arith)
            requires
                pascal(m, m) * (fm * 1) == fm,
                fm >= 1,
        ;
        assert(1 * (fk * 1) == fk) by (nonlinear_arith);
    } else {
        let m = (n - 1) as nat;
        let a = pascal(m, (k - 1) as nat);
        let b = pascal(m, k);
        let fk1 = factorial((k - 1) as nat);
        let fr1 = factorial((n - k - 1) as nat);
        let fm = factorial(m);
        lemma_pascal_factorial(m, (k - 1) as nat);
        lemma_pascal_factorial(m, k);
        assert(fk == k * fk1);
        assert(fr == (n - k) * fr1);
        assert(factorial(n) == n * fm);
        let left = fk1 * fr;
        let right = fk * fr1;
        assert(a * (fk * fr) == k * (a * left)) by (nonlinear_arith)
            requires
                fk == k * fk1,
                left == fk1 * fr,
        ;
        assert(b * (fk * fr) == (n - k) * (b * right)) by (nonlinear_arith)
            requires
                fr == (n - k) * fr1,
                right == fk * fr1,
        ;
        assert((a + b) * (fk * fr) == a * (fk * fr) + b * (fk * fr)) by (nonlinear_arith);
        assert(k * fm + (n - k) * fm == n * fm) by (nonlinear_arith);
    }
}

/// The quotient of factorials is the entry of Pascal's triangle.
proof fn lemma_binomial_is_pascal(n: nat, k: nat)
    ensures
        binomial(n, k) == pascal(n, k),
{
    if k > n {
        lemma_pascal_outside(n, k);
    } else {
        let d = factorial(k) * factorial((n - k) as nat);
        lemma_pascal_factorial(n, k);
        lemma_factorial_positive(k);
        lemma_factorial_positive((n - k) as nat);
        assert(d >= 1) by (nonlinear_arith)
            requires
                d == factorial(k) * factorial((n - k) as nat),
                factorial(k) >= 1,
                factorial((n - k) as nat) >= 1,
        ;
        lemma_fundamental_div_mod_converse(factorial(n) as int, d as int, pascal(n, k) as int, 0);
    }
}

/// The division by factorials leaves no remainder: a binomial coefficient
/// times the two factorials below it is the factorial above.
pub proof fn lemma_binomial_factorial(n: nat, k: nat)
    requires
        k <= n,
    ensures
        binomial(n, k) * (factorial(k) * factorial((n - k) as nat)) == factorial(n),
{
    lemma_binomial_is_pascal(n, k);
    lemma_pascal_factorial(n, k);
}

/// There is one way to choose nothing, one way to choose everything, and
/// no way to choose more than there is.
pub proof fn lemma_binomial_edges(n: nat, k: nat)
    ensures
        binomial(n, 0) == 1,
        binomial(n, n) == 1,
        k > n ==> binomial(n, k) == 0,
{
    lemma_binomial_is_pascal(n, 0);
    lemma_binomial_factorial(n, n);
    lemma_factorial_positive(n);
    let f = factorial(n);
    assert(binomial(n, n) == 1) by (nonlinear_arith)
        requires
            binomial(n, n) * (f * 1) == f,
            f >= 1,
    ;
}

/// Each coefficient of a row follows from the one before it.
pub proof fn lemma_binomial_next(n: nat, i: nat)
    requires
        i < n,
    ensures
        binomial(n, i + 1) * (i + 1) == binomial(n, i) * (n - i),
{
    let fi = factorial(i);
    let fr = factorial((n - i - 1) as nat);
    lemma_binomial_factorial(n, i);
    lemma_binomial_factorial(n, i + 1);
    lemma_factorial_positive(i);
    lemma_factorial_positive((n - i - 1) as nat);
    assert(factorial(i + 1) == (i + 1) * fi);
    assert(factorial((n - i) as nat) == (n - i) * fr);
    let p = binomial(n, i);
    let q = binomial(n, i + 1);
    let f = fi * fr;
    assert(f >= 1) by (nonlinear_arith)
        requires
            f == fi * fr,
            fi >= 1,
            fr >= 1,
    ;
    assert((q * (i + 1)) * f == (p * (n - i)) * f) by (nonlinear_arith)
        requires
            q * (((i + 1) * fi) * fr) == p * (fi * ((n - i) * fr)),
            f == fi * fr,
    ;
    assert(q * (i + 1) == p * (n - i)) by (nonlinear_arith)
        requires
            (q * (i + 1)) * f == (p * (n - i)) * f,
            f >= 1,
    ;
}

/// The binomial coefficient of `n` over `k`, by multiplying and dividing in
/// turn. It is 0 where `k` exceeds `n`.
pub fn binomial_coefficient(n: usize, k: usize) -> (res: usize)
    requires
        binomial_fits(n as nat, k as nat),
    ensures
        res == binomial(n as nat, k as nat),
{
    if k > n {
        return 0;
    }
    let mut res: usize = 1;
    proof {
        lemma_binomial_edges(n as nat, k as nat);
    }
    for i in 0..k
        invariant
            k <= n,
            binomial_fits(n as nat, k as nat),
            res == binomial(n as nat, i as nat),
    {
        proof {
            lemma_binomial_next(n as nat, i as nat);
            assert(binomial(n as nat, i as nat) * (n - i) <= usize::MAX);
            lemma_exact_quotient(binomial(n as nat, (i + 1) as nat) as int, (i + 1) as int);
        }
        res = res * (n - i);
        res = res / (i + 1);
    }
    res
}

/// The binomial coefficient of `n` over `k`, or `None` where a product on the
/// way to it does not fit in a `usize`.
pub fn checked_binomial_coefficient(n: usize, k: usize) -> (res: Option<usize>)
    ensures
        res is Some <==> binomial_fits(n as nat, k as nat),
        res matches Some(c) ==> c == binomial(n as nat, k as nat),
{
    if k > n {
        return Some(0);
    }
    let mut res: usize = 1;
    proof {
        lemma_binomial_edges(n as nat, k as nat);
    }
    for i in 0..k
        invariant
            k <= n,
            res == binomial(n as nat, i as nat),
            forall|j: nat| j < i ==> #[trigger] binomial(n as nat, j) * (n - j) <= usize::MAX,
    {
        proof {
            lemma_binomial_next(n as nat, i as nat);
            lemma_exact_quotient(binomial(n as nat, (i + 1) as nat) as int, (i + 1) as int);
        }
        match res.checked_mul(n - i) {
            Some(product) => {
                res = product / (i + 1);
            },
            None => {
                assert(binomial(n as nat, i as nat) * (n - i) > usize::MAX);
                return None;
            },
        }
    }
    Some(res)
}

/// Dividing a multiple of `d` by `d` gives the factor back.
proof fn lemma_exact_quotient(q: int, d: int)
    requires
        d > 0,
    ensures
        (q * d) / d == q,
{
    lemma_fundamental_div_mod_converse(q * d, d, q, 0);
}

/// No entry of row `n` of Pascal's triangle exceeds the `n`th power of two.
proof fn lemma_pascal_bound(n: nat, k: nat)
    ensures
        pascal(n, k) <= pow2(n),
    decreases n,
{
    lemma2_to64();
    if k == 0 {
        if n > 0 {
            lemma_pascal_bound((n - 1) as nat, 0);
            lemma_pow2_unfold(n);
        }
    } else if n > 0 {
        lemma_pascal_bound((n - 1) as nat, (k - 1) as nat);
        lemma_pascal_bound((n - 1) as nat, k);
        lemma_pow2_unfold(n);
    }
}

/// A larger exponent gives no smaller power of two.
proof fn lemma_pow2_monotone(a: nat, b: nat)
    requires
        a <= b,
    ensures
        pow2(a) <= pow2(b),
    decreases b,
{
    if a < b {
        lemma_pow2_monotone(a, (b - 1) as nat);
        lemma_pow2_unfold(b);
    }
}

/// Up to row 27 every product on the way to a coefficient fits in 32 bits,
/// so the coefficients of these rows can be computed on every machine.
pub proof fn lemma_small_binomial_fits(n: nat, k: nat)
    requires
        n <= 27,
    ensures
        binomial_fits(n, k),
{
    assert forall|i: nat| i < k && k <= n implies #[trigger] binomial(n, i) * (n - i)
        <= usize::MAX by {
        lemma_binomial_is_pascal(n, i);
        lemma_pascal_bound(n, i);
        lemma_pow2_monotone(n, 27);
        lemma2_to64();
        assert(binomial(n, i) * (n - i) <= 0x8000000 * 27) by (nonlinear_arith)
            requires
                binomial(n, i) <= 0x8000000,
                0 <= n - i <= 27,
        ;
    }
}

} // verus!
