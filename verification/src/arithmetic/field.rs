//! The mathematics of the field of integers modulo [`MODULUS`]: what the
//! operations mean, that the modulus is prime, and what follows from that.
use vstd::arithmetic::div_mod::*;
use vstd::arithmetic::mul::*;
use vstd::arithmetic::power::*;
use vstd::prelude::*;

verus! {

/// The field modulus: the largest prime below 2^32.
pub const MODULUS: u32 = 4294967291;

/// The modulus as a mathematical integer.
pub open spec fn modulus() -> int {
    4294967291
}

/// Whether `a` is the canonical representative of its residue class.
pub open spec fn is_element(a: int) -> bool {
    0 <= a < modulus()
}

/// The canonical representative of `a`.
pub open spec fn reduce(a: int) -> int {
    a % modulus()
}

/// The sum of two residues.
pub open spec fn field_add(a: int, b: int) -> int {
    (a + b) % modulus()
}

/// The difference of two residues.
pub open spec fn field_sub(a: int, b: int) -> int {
    (a - b) % modulus()
}

/// The additive inverse of a residue.
pub open spec fn field_neg(a: int) -> int {
    (-a) % modulus()
}

/// The product of two residues.
pub open spec fn field_mul(a: int, b: int) -> int {
    (a * b) % modulus()
}

/// `a` raised to the power `e`, reduced.
pub open spec fn field_pow(a: int, e: nat) -> int {
    pow(a, e) % modulus()
}

/// Whether `r` is the canonical multiplicative inverse of `a`.
pub open spec fn is_inverse(a: int, r: int) -> bool {
    is_element(r) && (a * r) % modulus() == 1
}

/// The multiplicative inverse of `a`, and 0 where `a` is congruent to 0.
pub open spec fn field_inv(a: int) -> int {
    if a % modulus() == 0 {
        0
    } else {
        choose|r: int| is_inverse(a, r)
    }
}

/// Whether `d` divides `n`.
pub open spec fn divides(d: int, n: int) -> bool {
    n % d == 0
}

#[verifier::rlimit(100)]
proof fn lemma_no_divisor_below_65536(d: u32)
    requires
        2 <= d < 65536,
    ensures
        4294967291u32 % d != 0,
{
    assert(2 <= d && d < 65536 ==> 4294967291u32 % d != 0) by (bit_vector);
}

/// The modulus is prime: nothing strictly between 1 and it divides it.
pub proof fn lemma_modulus_is_prime(d: int)
    requires
        1 < d < modulus(),
    ensures
        !divides(d, modulus()),
{
    let p = modulus();
    if d < 65536 {
        lemma_no_divisor_below_65536(d as u32);
    } else if p % d == 0 {
        let e = p / d;
        lemma_fundamental_div_mod(p, d);
        assert(p == d * e);
        assert(1 < e < 65536) by (nonlinear_arith)
            requires
                p == d * e,
                65536 <= d < p,
                p == 4294967291,
        ;
        lemma_no_divisor_below_65536(e as u32);
        lemma_mod_multiples_basic(d, e);
        assert(false);
    }
}

/// If `d` divides `x` and `y`, it divides `x + k * y`.
pub proof fn lemma_divides_combination(d: int, x: int, y: int, k: int)
    requires
        d > 0,
        divides(d, x),
        divides(d, y),
    ensures
        divides(d, x + k * y),
{
    lemma_fundamental_div_mod(x, d);
    lemma_fundamental_div_mod(y, d);
    let qx = x / d;
    let qy = y / d;
    assert(x + k * y == (qx + k * qy) * d) by (nonlinear_arith)
        requires
            x == d * qx,
            y == d * qy,
    ;
    lemma_mod_multiples_basic(qx + k * qy, d);
}

/// Bezout's identity: a common divisor `g` of `a` and `b` that is a
/// combination `a * x + b * y` of them.
pub proof fn lemma_bezout(a: int, b: int) -> (r: (int, int, int))
    requires
        0 < a,
        0 <= b,
    ensures
        r.0 > 0,
        divides(r.0, a),
        divides(r.0, b),
        r.0 == a * r.1 + b * r.2,
    decreases b,
{
    if b == 0 {
        lemma_mod_multiples_basic(1, a);
        assert(a * 1 + 0 * 0 == a);
        (a, 1, 0)
    } else {
        let q = a / b;
        let m = a % b;
        lemma_fundamental_div_mod(a, b);
        let (g, x, y) = lemma_bezout(b, m);
        // g == b * x + m * y and a == b * q + m
        lemma_divides_combination(g, m, b, q);
        assert(m + q * b == a) by (nonlinear_arith)
            requires
                a == b * q + m,
        ;
        assert(g == a * y + b * (x - q * y)) by (nonlinear_arith)
            requires
                g == b * x + m * y,
                a == b * q + m,
        ;
        (g, y, x - q * y)
    }
}

/// Every residue other than 0 has an inverse.
pub proof fn lemma_inverse_exists(a: int)
    requires
        a % modulus() != 0,
    ensures
        is_inverse(a, field_inv(a)),
{
    let p = modulus();
    let a0 = a % p;
    let (g, x, y) = lemma_bezout(a0, p);
    // g divides a0, which lies strictly between 0 and p, and g divides p
    if g > 1 {
        if g > a0 {
            lemma_small_mod(a0 as nat, g as nat);
        }
        lemma_modulus_is_prime(g);
    }
    assert(g == 1);
    let r = x % p;
    assert((a0 * x) % p == 1) by {
        lemma_mod_multiples_vanish(-y, 1, p);
        assert(p * (-y) + 1 == a0 * x) by (nonlinear_arith)
            requires
                1 == a0 * x + p * y,
        ;
    }
    lemma_mul_mod_noop_general(a, x, p);
    assert((a * r) % p == 1);
    assert(is_inverse(a, r));
}

/// A residue has at most one canonical inverse.
pub proof fn lemma_inverse_unique(a: int, r: int, s: int)
    requires
        is_inverse(a, r),
        is_inverse(a, s),
    ensures
        r == s,
{
    let p = modulus();
    // r == r * (a * s) == (r * a) * s == s, all modulo p
    lemma_mul_mod_noop_general(r, a * s, p);
    lemma_mul_mod_noop_general(a * r, s, p);
    assert(r * (a * s) == (a * r) * s) by (nonlinear_arith);
    assert((r * 1) % p == (1 * s) % p);
}

/// What [`field_inv`] is: the one inverse of `a`, or 0.
pub proof fn lemma_field_inv(a: int, r: int)
    requires
        is_element(r),
        if a % modulus() == 0 {
            r == 0
        } else {
            (a * r) % modulus() == 1
        },
    ensures
        r == field_inv(a),
{
    if a % modulus() != 0 {
        lemma_inverse_exists(a);
        lemma_inverse_unique(a, r, field_inv(a));
    }
}

/// Products of congruent factors are congruent.
pub proof fn lemma_mul_congruent(x1: int, x2: int, y1: int, y2: int)
    requires
        x1 % modulus() == x2 % modulus(),
        y1 % modulus() == y2 % modulus(),
    ensures
        (x1 * y1) % modulus() == (x2 * y2) % modulus(),
{
    lemma_mul_mod_noop_general(x1, y1, modulus());
    lemma_mul_mod_noop_general(x2, y2, modulus());
}

/// A reduced product plus a term, reduced, is congruent to the plain one.
pub proof fn lemma_field_add_mul(a: int, b: int, c: int)
    ensures
        field_add(field_mul(a, b), c) % modulus() == (a * b + c) % modulus(),
        field_add(c, field_mul(a, b)) % modulus() == (c + a * b) % modulus(),
{
    lemma_add_mod_noop_right(c, a * b, modulus());
    lemma_add_mod_noop(a * b, c, modulus());
    lemma_mod_twice(a * b + c, modulus());
    lemma_mod_twice(c + a * b, modulus());
    lemma_mod_twice(a * b, modulus());
}

/// A term less a reduced product, reduced, is congruent to the plain one.
pub proof fn lemma_field_sub_mul(c: int, a: int, b: int)
    ensures
        field_sub(c, field_mul(a, b)) % modulus() == (c - a * b) % modulus(),
{
    lemma_sub_mod_noop_right(c, a * b, modulus());
    lemma_mod_twice(c - a * b, modulus());
}

/// Sums of congruent terms are congruent.
pub proof fn lemma_add_congruent(x1: int, x2: int, y1: int, y2: int)
    requires
        x1 % modulus() == x2 % modulus(),
        y1 % modulus() == y2 % modulus(),
    ensures
        (x1 + y1) % modulus() == (x2 + y2) % modulus(),
        (x1 - y1) % modulus() == (x2 - y2) % modulus(),
{
    lemma_add_mod_noop(x1, y1, modulus());
    lemma_add_mod_noop(x2, y2, modulus());
    lemma_sub_mod_noop(x1, y1, modulus());
    lemma_sub_mod_noop(x2, y2, modulus());
}

/// One more factor: `a^(e+1)` from `a^e`, on reduced values.
pub proof fn lemma_field_pow_step(a: int, e: nat)
    ensures
        field_pow(a, e + 1) == field_mul(field_pow(a, e), a),
        field_pow(a, e + 1) == field_mul(field_pow(a, e), reduce(a)),
        field_pow(a, 0) == 1,
        field_pow(reduce(a), e) == field_pow(a, e),
{
    let p = modulus();
    reveal(pow);
    assert(pow(a, e + 1) == a * pow(a, e));
    lemma_mul_is_commutative(a, pow(a, e));
    lemma_mul_mod_noop_general(pow(a, e), a, p);
    lemma_pow_mod_noop(a, e, p);
}

/// What one round of square-and-multiply keeps: with the base squared and
/// the exponent halved, the product is unchanged once the accumulator has
/// taken up the base for an odd exponent.
pub proof fn lemma_square_and_multiply(r: int, b: int, e: nat)
    requires
        e > 0,
    ensures
        e % 2 == 1 ==> field_mul(field_mul(r, b), field_pow(field_mul(b, b), e / 2)) == field_mul(
            r,
            field_pow(b, e),
        ),
        e % 2 == 0 ==> field_mul(r, field_pow(field_mul(b, b), e / 2)) == field_mul(
            r,
            field_pow(b, e),
        ),
{
    let p = modulus();
    let h = e / 2;
    // pow(b * b % p, h) is congruent to pow(b, 2 * h)
    lemma_pow_mod_noop(b * b, h, p);
    lemma_square_is_pow2(b);
    lemma_pow_multiplies(b, 2, h);
    assert(pow(b * b, h) == pow(b, 2 * h));
    let sq = field_pow(field_mul(b, b), h);
    assert(sq == pow(b, 2 * h) % p);
    if e % 2 == 0 {
        assert(e == 2 * h);
        lemma_mul_congruent(r, r, sq, pow(b, e));
        lemma_mul_congruent(r, r, field_pow(b, e), pow(b, e));
    } else {
        assert(e == 2 * h + 1);
        lemma_pow_adds(b, 2 * h, 1);
        lemma_pow1(b);
        assert(pow(b, e) == pow(b, 2 * h) * b);
        lemma_mul_congruent(field_mul(r, b), r * b, sq, pow(b, 2 * h));
        assert((r * b) * pow(b, 2 * h) == r * (pow(b, 2 * h) * b)) by (nonlinear_arith);
        lemma_mul_congruent(r, r, field_pow(b, e), pow(b, e));
    }
}

/// What one step of the extended Euclidean algorithm keeps: where `s0 * a`
/// and `s1 * a` are congruent to the remainders `r0` and `r1`, the next
/// coefficient times `a` is congruent to the next remainder.
pub proof fn lemma_euclid_step(a: int, r0: int, r1: int, s0: int, s1: int, q: int)
    requires
        (s0 * a) % modulus() == r0 % modulus(),
        (s1 * a) % modulus() == r1 % modulus(),
    ensures
        (field_sub(s0, field_mul(reduce(q), s1)) * a) % modulus() == (r0 - q * r1) % modulus(),
{
    let p = modulus();
    let u = field_mul(reduce(q), s1);
    let t = field_sub(s0, u);
    lemma_mul_mod_noop_general(q, s1, p);
    assert(u % p == (q * s1) % p);
    lemma_mul_congruent(t, s0 - u, a, a);
    assert((s0 - u) * a == s0 * a - u * a) by (nonlinear_arith);
    lemma_mul_congruent(u, q * s1, a, a);
    assert((q * s1) * a == q * (s1 * a)) by (nonlinear_arith);
    lemma_mul_congruent(q, q, s1 * a, r1);
}

/// The field has no zero divisors.
pub proof fn lemma_no_zero_divisors(a: int, b: int)
    requires
        (a * b) % modulus() == 0,
    ensures
        a % modulus() == 0 || b % modulus() == 0,
{
    let p = modulus();
    if a % p != 0 {
        lemma_inverse_exists(a);
        let r = field_inv(a);
        // b == (r * a) * b == r * (a * b) == 0, all modulo p
        lemma_mul_mod_noop_general(a * r, b, p);
        lemma_mul_mod_noop_general(r, a * b, p);
        assert((a * r) * b == r * (a * b)) by (nonlinear_arith);
        assert((1 * b) % p == (r * 0) % p);
    }
}

} // verus!
