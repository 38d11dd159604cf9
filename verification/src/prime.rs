//! What makes the residues modulo a prime a field: inverses exist, and a
//! product is zero only if a factor is.

use vstd::prelude::*;
use vstd::arithmetic::div_mod::{
    lemma_fundamental_div_mod, lemma_mod_bound, lemma_mod_multiples_vanish, lemma_mul_mod_noop_general,
    lemma_small_mod,
};
use vstd::arithmetic::power::{lemma_pow0, lemma_pow1, lemma_pow_adds, pow};
use crate::modular::{lemma_pow_positive_or_zero, mul_mod, pow_mod};

verus! {

/// Whether a number is prime: above one, and divisible by nothing between
/// one and itself.
pub open spec fn is_prime(p: nat) -> bool {
    p > 1 && forall|d: nat| 1 < d < p ==> #[trigger] (p % d) != 0
}

/// Every non-zero residue modulo a prime has an inverse.
pub proof fn lemma_inverse_exists(a: nat, p: nat) -> (u: nat)
    requires
        is_prime(p),
        0 < a < p,
    ensures
        u < p,
        mul_mod(u, a, p) == 1,
    decreases a,
{
    if a == 1 {
        lemma_small_mod(1, p);
        assert(1 * 1 == 1);
        1
    } else {
        let r = p % a;
        let k = p / a;
        assert(r != 0);
        lemma_fundamental_div_mod(p as int, a as int);
        lemma_mod_bound(p as int, a as int);
        assert(p == a * k + r);
        let v = lemma_inverse_exists(r, p);
        // v r = 1 (mod p), and r = p - k a, so -(v k) a = 1 (mod p).
        let w = (v * k) % p;
        lemma_mod_bound((v * k) as int, p as int);
        let u = ((p - w) % (p as int)) as nat;
        lemma_mod_bound(p - w, p as int);
        let q = (v * r) / p;
        lemma_fundamental_div_mod((v * r) as int, p as int);
        assert(v * r == p * q + 1);
        let qw = (v * k) / p;
        lemma_fundamental_div_mod((v * k) as int, p as int);
        assert(v * k == p * qw + w);
        // w a + 1 is a multiple of p.
        assert(w * a + 1 == p * (v - qw * a - q)) by (nonlinear_arith)
            requires
                v * r == p * q + 1,
                v * k == p * qw + w,
                p == a * k + r,
        ;
        let t = v - qw * a - q;
        // u is p - w, or zero if w is zero; either way u a = 1 (mod p).
        if w == 0 {
            assert(w * a == 0) by (nonlinear_arith)
                requires
                    w == 0,
            ;
            assert(1 == p * t);
            assert(false) by (nonlinear_arith)
                requires
                    1 == p * t,
                    p > 1,
            ;
        }
        lemma_small_mod((p - w) as nat, p);
        assert(u == p - w);
        assert(u * a == p * (a - t) + 1) by (nonlinear_arith)
            requires
                u == p - w,
                w * a + 1 == p * t,
        ;
        lemma_mod_multiples_vanish(a - t, 1, p as int);
        lemma_small_mod(1, p);
        assert((u * a) as int == p * (a - t) + 1);
        assert(p * (a - t) + 1 == (a - t) * p + 1) by (nonlinear_arith);
        u
    }
}

/// Modulo a prime, a product is zero only if a factor is.
pub proof fn lemma_no_zero_divisors(a: nat, b: nat, p: nat)
    requires
        is_prime(p),
        a < p,
        b < p,
        mul_mod(a, b, p) == 0,
    ensures
        a == 0 || b == 0,
{
    if a != 0 {
        let u = lemma_inverse_exists(a, p);
        // b = (u a) b = u (a b) = 0 (mod p).
        lemma_mul_mod_noop_general((u * a) as int, b as int, p as int);
        lemma_mul_mod_noop_general(u as int, (a * b) as int, p as int);
        assert((u * a) * b == u * (a * b)) by (nonlinear_arith);
        lemma_small_mod(b, p);
        lemma_small_mod(0, p);
        assert(1 * b == b);
        assert((u % p) * 0 == 0);
    }
}


/// Modulo a prime, a non-zero factor cancels.
pub proof fn lemma_cancel(x: nat, a: nat, b: nat, p: nat)
    requires
        is_prime(p),
        0 < x < p,
        a < p,
        b < p,
        mul_mod(x, a, p) == mul_mod(x, b, p),
    ensures
        a == b,
{
    let u = lemma_inverse_exists(x, p);
    // a = (u x) a = u (x a) = u (x b) = (u x) b = b (mod p).
    lemma_mul_mod_noop_general((u * x) as int, a as int, p as int);
    lemma_mul_mod_noop_general(u as int, (x * a) as int, p as int);
    lemma_mul_mod_noop_general((u * x) as int, b as int, p as int);
    lemma_mul_mod_noop_general(u as int, (x * b) as int, p as int);
    assert((u * x) * a == u * (x * a)) by (nonlinear_arith);
    assert((u * x) * b == u * (x * b)) by (nonlinear_arith);
    lemma_small_mod(a, p);
    lemma_small_mod(b, p);
    assert(1 * a == a);
    assert(1 * b == b);
}

/// The product of a list of numbers.
pub open spec fn product(s: Seq<nat>) -> nat
    decreases s.len(),
{
    if s.len() == 0 {
        1
    } else {
        product(s.drop_last()) * s.last()
    }
}

/// The product of the numbers from one to `n`.
pub open spec fn factorial(n: nat) -> nat
    decreases n,
{
    if n == 0 {
        1
    } else {
        factorial((n - 1) as nat) * n
    }
}

/// Whether no number occurs twice in a list.
pub open spec fn all_distinct(s: Seq<nat>) -> bool {
    forall|i: int, j: int| 0 <= i < j < s.len() ==> s[i] != s[j]
}

/// Whether every number of a list is between one and `m`.
pub open spec fn all_within(s: Seq<nat>, m: nat) -> bool {
    forall|i: int| 0 <= i < s.len() ==> 1 <= #[trigger] s[i] <= m
}

/// Taking an entry out of a list divides the product by it.
pub proof fn lemma_product_remove(s: Seq<nat>, j: int)
    requires
        0 <= j < s.len(),
    ensures
        product(s) == s[j] * product(s.remove(j)),
    decreases s.len(),
{
    if j == s.len() - 1 {
        assert(s.remove(j) =~= s.drop_last());
        assert(product(s.drop_last()) * s.last() == s[j] * product(s.drop_last())) by (nonlinear_arith)
            requires
                s.last() == s[j],
        ;
    } else {
        lemma_product_remove(s.drop_last(), j);
        let t = s.remove(j);
        assert(t.drop_last() =~= s.drop_last().remove(j));
        assert(t.last() == s.last());
        let a = s[j];
        let b = product(s.drop_last().remove(j));
        let c = s.last();
        assert(product(s.drop_last()) == a * b);
        assert(product(t) == b * c);
        assert((a * b) * c == a * (b * c)) by (nonlinear_arith);
    }
}

/// Taking an entry out of a list of distinct numbers leaves distinct
/// numbers, none of them the one taken out.
pub proof fn lemma_remove_distinct(s: Seq<nat>, j: int)
    requires
        0 <= j < s.len(),
        all_distinct(s),
    ensures
        all_distinct(s.remove(j)),
        forall|i: int| 0 <= i < s.remove(j).len() ==> (#[trigger] s.remove(j)[i]) != s[j],
        s.remove(j).len() == s.len() - 1,
{
    let t = s.remove(j);
    assert forall|a: int, b: int| 0 <= a < b < t.len() implies t[a] != t[b] by {
        let a2 = if a < j {
            a
        } else {
            a + 1
        };
        let b2 = if b < j {
            b
        } else {
            b + 1
        };
        assert(t[a] == s[a2] && t[b] == s[b2]);
    }
    assert forall|i: int| 0 <= i < t.len() implies (#[trigger] t[i]) != s[j] by {
        let i2 = if i < j {
            i
        } else {
            i + 1
        };
        assert(t[i] == s[i2]);
        if i2 < j {
            assert(s[i2] != s[j]);
        } else {
            assert(s[j] != s[i2]);
        }
    }
}

/// Distinct numbers between one and `m` are at most `m` many.
pub proof fn lemma_pigeonhole(s: Seq<nat>, m: nat)
    requires
        all_distinct(s),
        all_within(s, m),
    ensures
        s.len() <= m,
    decreases m,
{
    if s.len() == 0 {
    } else if m == 0 {
        assert(1 <= s[0] <= 0);
    } else if exists|j: int| 0 <= j < s.len() && s[j] == m {
        let j = choose|j: int| 0 <= j < s.len() && s[j] == m;
        lemma_remove_distinct(s, j);
        let t = s.remove(j);
        assert forall|i: int| 0 <= i < t.len() implies 1 <= #[trigger] t[i] <= m - 1 by {
            let i2 = if i < j {
                i
            } else {
                i + 1
            };
            assert(t[i] == s[i2]);
            assert(1 <= s[i2] <= m);
        }
        lemma_pigeonhole(t, (m - 1) as nat);
    } else {
        assert forall|i: int| 0 <= i < s.len() implies 1 <= #[trigger] s[i] <= m - 1 by {
            assert(1 <= s[i] <= m);
        }
        lemma_pigeonhole(s, (m - 1) as nat);
    }
}

/// The product of `n` distinct numbers between one and `n` is the
/// factorial of `n`: they are the numbers from one to `n` in some order.
pub proof fn lemma_permutation_product(s: Seq<nat>, n: nat)
    requires
        s.len() == n,
        all_distinct(s),
        all_within(s, n),
    ensures
        product(s) == factorial(n),
    decreases n,
{
    if n > 0 {
        if !(exists|j: int| 0 <= j < s.len() && s[j] == n) {
            assert forall|i: int| 0 <= i < s.len() implies 1 <= #[trigger] s[i] <= n - 1 by {
                assert(1 <= s[i] <= n);
            }
            lemma_pigeonhole(s, (n - 1) as nat);
            assert(false);
        }
        let j = choose|j: int| 0 <= j < s.len() && s[j] == n;
        lemma_remove_distinct(s, j);
        let t = s.remove(j);
        assert forall|i: int| 0 <= i < t.len() implies 1 <= #[trigger] t[i] <= n - 1 by {
            let i2 = if i < j {
                i
            } else {
                i + 1
            };
            assert(t[i] == s[i2]);
            assert(1 <= s[i2] <= n);
        }
        lemma_permutation_product(t, (n - 1) as nat);
        lemma_product_remove(s, j);
        assert(n * factorial((n - 1) as nat) == factorial((n - 1) as nat) * n) by (nonlinear_arith);
    }
}

/// The multiples `x, 2 x, .. n x` of a number, reduced.
pub open spec fn multiples(x: nat, p: nat, n: nat) -> Seq<nat> {
    Seq::new(n, |k: int| ((x * (k + 1)) % (p as int)) as nat)
}

/// The product of the first `n` reduced multiples of `x` is `x^n n!`,
/// modulo `p`.
pub proof fn lemma_multiples_product(x: nat, p: nat, n: nat)
    requires
        p > 0,
    ensures
        product(multiples(x, p, n)) % p == ((pow(x as int, n) * factorial(n)) % (p as int)) as nat,
    decreases n,
{
    if n == 0 {
        lemma_pow0(x as int);
        assert(multiples(x, p, 0) =~= Seq::<nat>::empty());
    } else {
        lemma_multiples_product(x, p, (n - 1) as nat);
        let s = multiples(x, p, n);
        assert(s.drop_last() =~= multiples(x, p, (n - 1) as nat));
        let a = product(s.drop_last());
        let b = pow(x as int, (n - 1) as nat) * factorial((n - 1) as nat);
        lemma_pow_positive_or_zero(x as int, (n - 1) as nat);
        assert(b >= 0) by (nonlinear_arith)
            requires
                pow(x as int, (n - 1) as nat) >= 0,
                b == pow(x as int, (n - 1) as nat) * factorial((n - 1) as nat),
        ;
        // a = b and s.last() = x n, modulo p.
        lemma_mul_mod_noop_general(a as int, (x * n) as int, p as int);
        lemma_mul_mod_noop_general(b, (x * n) as int, p as int);
        assert(s.last() == (x * n) % p);
        lemma_mod_bound((x * n) as int, p as int);
        lemma_small_mod(s.last(), p);
        lemma_mul_mod_noop_general(a as int, s.last() as int, p as int);
        lemma_pow_adds(x as int, (n - 1) as nat, 1);
        lemma_pow1(x as int);
        assert(b * (x * n) == pow(x as int, n) * factorial(n)) by (nonlinear_arith)
            requires
                b == pow(x as int, (n - 1) as nat) * factorial((n - 1) as nat),
                pow(x as int, n) == pow(x as int, (n - 1) as nat) * x,
                factorial(n) == factorial((n - 1) as nat) * n,
        ;
    }
}

/// Modulo a prime, the factorial of a number below the prime is not zero.
pub proof fn lemma_factorial_nonzero(n: nat, p: nat)
    requires
        is_prime(p),
        n < p,
    ensures
        factorial(n) % p != 0,
    decreases n,
{
    if n == 0 {
        lemma_small_mod(1, p);
    } else {
        lemma_factorial_nonzero((n - 1) as nat, p);
        let f = factorial((n - 1) as nat) % p;
        lemma_mod_bound(factorial((n - 1) as nat) as int, p as int);
        lemma_mul_mod_noop_general(factorial((n - 1) as nat) as int, n as int, p as int);
        lemma_small_mod(n, p);
        if (f * n) % p == 0 {
            lemma_no_zero_divisors(f, n, p);
        }
    }
}

/// Fermat's little theorem: modulo a prime `p`, a non-zero residue raised
/// to the power `p - 1` is one.
pub proof fn lemma_fermat(x: nat, p: nat)
    requires
        is_prime(p),
        0 < x < p,
    ensures
        pow_mod(x, (p - 1) as nat, p) == 1,
{
    let n = (p - 1) as nat;
    let s = multiples(x, p, n);
    // The multiples are distinct numbers between one and p - 1.
    assert forall|i: int| 0 <= i < s.len() implies 1 <= #[trigger] s[i] <= n by {
        lemma_mod_bound((x * (i + 1)) as int, p as int);
        if s[i] == 0 {
            lemma_no_zero_divisors(x, (i + 1) as nat, p);
        }
    }
    assert forall|i: int, j: int| 0 <= i < j < s.len() implies s[i] != s[j] by {
        if s[i] == s[j] {
            lemma_cancel(x, (i + 1) as nat, (j + 1) as nat, p);
        }
    }
    lemma_permutation_product(s, n);
    lemma_multiples_product(x, p, n);
    lemma_factorial_nonzero(n, p);
    // So x^n n! = n! modulo p, and n! cancels.
    let f = factorial(n) % p;
    let e = pow_mod(x, n, p);
    lemma_pow_positive_or_zero(x as int, n);
    lemma_mod_bound(pow(x as int, n), p as int);
    lemma_mod_bound(factorial(n) as int, p as int);
    lemma_mul_mod_noop_general(pow(x as int, n), factorial(n) as int, p as int);
    assert(mul_mod(e, f, p) == f);
    lemma_small_mod(f, p);
    lemma_small_mod(1, p);
    assert(mul_mod(1, f, p) == f) by {
        assert(1 * f == f);
    }
    assert(mul_mod(f, e, p) == mul_mod(f, 1, p)) by {
        assert(f * e == e * f) by (nonlinear_arith);
        assert(f * 1 == 1 * f);
    }
    lemma_cancel(f, e, 1, p);
}

/// In a prime field, the power `p - 2` inverts: a non-zero element times
/// its power `p - 2` is one.
pub proof fn lemma_fermat_inverse(x: nat, p: nat)
    requires
        is_prime(p),
        0 < x < p,
    ensures
        mul_mod(x, pow_mod(x, (p - 2) as nat, p), p) == 1,
{
    lemma_fermat(x, p);
    let n = (p - 2) as nat;
    lemma_pow_adds(x as int, 1, n);
    lemma_pow1(x as int);
    lemma_pow_positive_or_zero(x as int, n);
    lemma_mul_mod_noop_general(x as int, pow(x as int, n), p as int);
    lemma_small_mod(x, p);
}

} // verus!
