//! Fermat's little theorem for the field: every element is a root of
//! `x^p - x`, where `p` is the modulus.
use crate::arithmetic::field::{
    field_pow, lemma_mul_congruent, lemma_no_zero_divisors, modulus,
};
use vstd::arithmetic::div_mod::*;
use vstd::arithmetic::power::*;
use vstd::prelude::*;

verus! {

/// The product of the entries of `s`.
pub open spec fn product(s: Seq<int>) -> int
    decreases s.len(),
{
    if s.len() == 0 {
        1
    } else {
        product(s.drop_last()) * s.last()
    }
}

/// The product of the numbers from 1 to `n`.
pub open spec fn factorial(n: nat) -> int
    decreases n,
{
    if n == 0 {
        1
    } else {
        factorial((n - 1) as nat) * n
    }
}

/// Whether no two entries of `s` are equal.
pub open spec fn distinct(s: Seq<int>) -> bool {
    forall|i: int, j: int| 0 <= i < j < s.len() ==> s[i] != s[j]
}

/// Whether every entry of `s` lies between 1 and `m`.
pub open spec fn within(s: Seq<int>, m: int) -> bool {
    forall|i: int| 0 <= i < s.len() ==> 1 <= #[trigger] s[i] <= m
}

/// The residues of the first `k` multiples of `a`.
pub open spec fn multiples(a: int, k: nat) -> Seq<int> {
    Seq::new(k, |i: int| (a * (i + 1)) % modulus())
}

proof fn lemma_product_remove(s: Seq<int>, j: int)
    requires
        0 <= j < s.len(),
    ensures
        product(s) == product(s.remove(j)) * s[j],
    decreases s.len(),
{
    if j == s.len() - 1 {
        assert(s.remove(j) =~= s.drop_last());
    } else {
        let rest = s.drop_last();
        lemma_product_remove(rest, j);
        assert(s.remove(j).drop_last() =~= rest.remove(j));
        assert(s.remove(j).last() == s.last());
        let x = product(rest.remove(j));
        assert((x * s[j]) * s.last() == (x * s.last()) * s[j]) by (nonlinear_arith);
    }
}

proof fn lemma_remove_largest(s: Seq<int>, j: int, m: int)
    requires
        distinct(s),
        within(s, m),
        0 <= j < s.len(),
        s[j] == m,
    ensures
        distinct(s.remove(j)),
        within(s.remove(j), m - 1),
{
    let t = s.remove(j);
    assert forall|i: int| 0 <= i < t.len() implies 1 <= #[trigger] t[i] <= m - 1 by {
        if i < j {
            assert(t[i] == s[i]);
        } else {
            assert(t[i] == s[i + 1]);
        }
    }
    assert forall|i: int, k: int| 0 <= i < k < t.len() implies t[i] != t[k] by {
        let i0 = if i < j {
            i
        } else {
            i + 1
        };
        let k0 = if k < j {
            k
        } else {
            k + 1
        };
        assert(t[i] == s[i0] && t[k] == s[k0]);
    }
}

/// No more than `m` distinct numbers lie between 1 and `m`.
proof fn lemma_pigeonhole(s: Seq<int>, m: int)
    requires
        distinct(s),
        within(s, m),
        m >= 0,
    ensures
        s.len() <= m,
    decreases m,
{
    if s.len() > 0 {
        assert(1 <= s[0] <= m);
        if exists|j: int| 0 <= j < s.len() && s[j] == m {
            let j = choose|j: int| 0 <= j < s.len() && s[j] == m;
            lemma_remove_largest(s, j, m);
            lemma_pigeonhole(s.remove(j), m - 1);
        } else {
            assert(within(s, m - 1));
            lemma_pigeonhole(s, m - 1);
        }
    }
}

/// The product of `n` distinct numbers between 1 and `n` is `n!`.
proof fn lemma_product_of_arrangement(s: Seq<int>, n: nat)
    requires
        s.len() == n,
        distinct(s),
        within(s, n as int),
    ensures
        product(s) == factorial(n),
    decreases n,
{
    if n > 0 {
        if !exists|j: int| 0 <= j < s.len() && s[j] == n {
            assert(within(s, n - 1));
            lemma_pigeonhole(s, n - 1);
        }
        let j = choose|j: int| 0 <= j < s.len() && s[j] == n;
        lemma_remove_largest(s, j, n as int);
        lemma_product_of_arrangement(s.remove(j), (n - 1) as nat);
        lemma_product_remove(s, j);
    }
}

proof fn lemma_product_of_multiples(a: int, k: nat)
    ensures
        product(multiples(a, k)) % modulus() == (pow(a, k) * factorial(k)) % modulus(),
    decreases k,
{
    if k == 0 {
        lemma_pow0(a);
        assert(1 * 1 == 1);
    } else {
        let k0 = (k - 1) as nat;
        lemma_product_of_multiples(a, k0);
        assert(multiples(a, k).drop_last() =~= multiples(a, k0));
        let before = product(multiples(a, k0));
        let a0 = pow(a, k0);
        let f0 = factorial(k0);
        assert(multiples(a, k).last() == (a * k) % modulus());
        lemma_mod_twice(a * k, modulus());
        lemma_mul_congruent(before, a0 * f0, (a * k) % modulus(), a * k);
        assert(pow(a, k) == a * a0) by {
            reveal(pow);
        }
        assert((a0 * f0) * (a * k) == (a * a0) * (f0 * k)) by (nonlinear_arith);
    }
}

proof fn lemma_factorial_nonzero(k: nat)
    requires
        k < modulus(),
    ensures
        factorial(k) % modulus() != 0,
    decreases k,
{
    if k > 0 {
        lemma_factorial_nonzero((k - 1) as nat);
        if factorial(k) % modulus() == 0 {
            lemma_no_zero_divisors(factorial((k - 1) as nat), k as int);
        }
    }
}

proof fn lemma_multiples_arrangement(a: int)
    requires
        a % modulus() != 0,
    ensures
        distinct(multiples(a, (modulus() - 1) as nat)),
        within(multiples(a, (modulus() - 1) as nat), modulus() - 1),
{
    let p = modulus();
    let b = multiples(a, (p - 1) as nat);
    assert forall|i: int| 0 <= i < b.len() implies 1 <= #[trigger] b[i] <= p - 1 by {
        if b[i] == 0 {
            lemma_no_zero_divisors(a, i + 1);
        }
    }
    assert forall|i: int, j: int| 0 <= i < j < b.len() implies b[i] != b[j] by {
        if b[i] == b[j] {
            assert(a * (j + 1) - a * (i + 1) == a * (j - i)) by (nonlinear_arith);
            lemma_no_zero_divisors(a, j - i);
        }
    }
}

/// Fermat's little theorem: a residue other than 0, raised to the power
/// `p - 1`, is 1.
pub proof fn lemma_fermat_little(a: int)
    requires
        a % modulus() != 0,
    ensures
        pow(a, (modulus() - 1) as nat) % modulus() == 1,
{
    let p = modulus();
    let n = (p - 1) as nat;
    let b = multiples(a, n);
    let f = factorial(n);
    let x = pow(a, n);
    lemma_multiples_arrangement(a);
    lemma_product_of_arrangement(b, n);
    lemma_product_of_multiples(a, n);
    lemma_factorial_nonzero(n);
    assert(x * f - f == (x - 1) * f) by (nonlinear_arith);
    lemma_no_zero_divisors(x - 1, f);
}

/// Every integer is congruent to its `p`-th power.
pub proof fn lemma_fermat(a: int)
    ensures
        field_pow(a, modulus() as nat) == a % modulus(),
{
    let p = modulus();
    let x = pow(a, (p - 1) as nat);
    assert(pow(a, p as nat) == a * x) by {
        reveal(pow);
    }
    if a % p == 0 {
        lemma_mul_congruent(a, 0, x, x);
        assert(0 * x == 0);
    } else {
        lemma_fermat_little(a);
        lemma_mul_congruent(a, a, x, 1);
        assert(a * 1 == a);
    }
}

} // verus!
