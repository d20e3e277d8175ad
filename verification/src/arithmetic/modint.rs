//! An element of the prime field, held as its canonical representative.
use crate::arithmetic::field::{
    divides, field_add, field_inv, field_mul, field_neg, field_pow, field_sub, is_element,
    lemma_divides_combination, lemma_euclid_step, lemma_field_inv, lemma_field_pow_step,
    lemma_modulus_is_prime, lemma_square_and_multiply, modulus, reduce, MODULUS,
};
use vstd::arithmetic::div_mod::*;
use vstd::arithmetic::mul::*;
use vstd::prelude::*;

verus! {

/// An integer modulo [`MODULUS`]. The stored value is always below the
/// modulus; every operation returns a new, reduced element.
#[derive(Clone, Copy, Debug, PartialEq, Eq, Structural)]
pub struct ModularInteger {
    value: u32,
}

impl View for ModularInteger {
    type V = int;

    closed spec fn view(&self) -> int {
        self.value as int
    }
}

/// The canonical representatives of a sequence of elements.
pub open spec fn values(s: Seq<ModularInteger>) -> Seq<int> {
    Seq::new(s.len(), |i: int| s[i]@)
}

impl ModularInteger {
    #[verifier::type_invariant]
    spec fn reduced(self) -> bool {
        self.value < MODULUS
    }

    /// The element that `n` stands for: `n` reduced modulo the modulus.
    pub fn new(n: u32) -> (r: Self)
        ensures
            r@ == reduce(n as int),
    {
        if n >= MODULUS {
            ModularInteger { value: n - MODULUS }
        } else {
            ModularInteger { value: n }
        }
    }

    /// The additive identity.
    pub fn zero() -> (r: Self)
        ensures
            r@ == 0,
    {
        ModularInteger { value: 0 }
    }

    /// The multiplicative identity.
    pub fn one() -> (r: Self)
        ensures
            r@ == 1,
    {
        ModularInteger { value: 1 }
    }

    /// The canonical representative, in `[0, MODULUS)`.
    pub fn value(self) -> (v: u32)
        ensures
            v == self@,
            is_element(v as int),
    {
        proof {
            use_type_invariant(self);
        }
        self.value
    }

    /// Whether this is the additive identity.
    pub fn is_zero(self) -> (b: bool)
        ensures
            b == (self@ == 0),
    {
        self.value == 0
    }

    /// The sum, by a widening addition and one conditional subtraction of the
    /// modulus.
    pub fn add(self, rhs: Self) -> (r: Self)
        ensures
            r@ == field_add(self@, rhs@),
    {
        proof {
            use_type_invariant(self);
            use_type_invariant(rhs);
        }
        let sum: u64 = self.value as u64 + rhs.value as u64;
        if sum >= MODULUS as u64 {
            ModularInteger { value: (sum - MODULUS as u64) as u32 }
        } else {
            ModularInteger { value: sum as u32 }
        }
    }

    /// The difference, with the modulus added where it would fall below zero.
    pub fn sub(self, rhs: Self) -> (r: Self)
        ensures
            r@ == field_sub(self@, rhs@),
    {
        proof {
            use_type_invariant(self);
            use_type_invariant(rhs);
        }
        if self.value >= rhs.value {
            ModularInteger { value: self.value - rhs.value }
        } else {
            ModularInteger { value: MODULUS - rhs.value + self.value }
        }
    }

    /// The additive inverse.
    pub fn neg(self) -> (r: Self)
        ensures
            r@ == field_neg(self@),
    {
        proof {
            use_type_invariant(self);
        }
        if self.value == 0 {
            self
        } else {
            ModularInteger { value: MODULUS - self.value }
        }
    }

    /// The product, by a widening multiplication and a reduction.
    pub fn mul(self, rhs: Self) -> (r: Self)
        ensures
            r@ == field_mul(self@, rhs@),
    {
        proof {
            use_type_invariant(self);
            use_type_invariant(rhs);
            lemma_mul_upper_bound(self.value as int, 0xffff_ffff, rhs.value as int, 0xffff_ffff);
            lemma_mul_nonnegative(self.value as int, rhs.value as int);
        }
        let product: u64 = self.value as u64 * rhs.value as u64;
        ModularInteger { value: (product % MODULUS as u64) as u32 }
    }

    /// `self` raised to the power `exponent`, by square-and-multiply.
    pub fn pow(self, exponent: u32) -> (r: Self)
        ensures
            r@ == field_pow(self@, exponent as nat),
    {
        let mut result = Self::one();
        let mut base = self;
        let mut e: u32 = exponent;
        proof {
            use_type_invariant(self);
            lemma_field_pow_step(base@, e as nat);
            lemma_small_mod(field_pow(self@, exponent as nat) as nat, modulus() as nat);
            lemma_mul_basics(field_pow(self@, exponent as nat));
        }
        while e > 0
            invariant
                field_mul(result@, field_pow(base@, e as nat)) == field_pow(self@, exponent as nat),
            decreases e,
        {
            proof {
                lemma_square_and_multiply(result@, base@, e as nat);
            }
            if e % 2 == 1 {
                result = result.mul(base);
            }
            base = base.mul(base);
            e = e / 2;
        }
        proof {
            use_type_invariant(result);
            lemma_field_pow_step(base@, 0);
            lemma_mul_basics(result@);
        }
        result
    }

    /// The multiplicative inverse, by the extended Euclidean algorithm; the
    /// inverse of zero is taken to be zero.
    pub fn inv(self) -> (r: Self)
        ensures
            r@ == field_inv(self@),
    {
        proof {
            use_type_invariant(self);
        }
        if self.value == 0 {
            return self;
        }
        let ghost a = self.value as int;
        let ghost p = modulus();
        let mut r0: u32 = MODULUS;
        let mut r1: u32 = self.value;
        let mut s0 = Self::zero();
        let mut s1 = Self::one();
        proof {
            lemma_mul_basics(a);
        }
        while r1 != 0
            invariant
                0 < a < p,
                p == modulus(),
                r1 < r0,
                is_element(s0@),
                (s0@ * a) % p == (r0 as int) % p,
                (s1@ * a) % p == (r1 as int) % p,
                forall|d: int|
                    d > 0 && #[trigger] divides(d, r0 as int) && divides(d, r1 as int) ==> divides(
                        d,
                        p,
                    ) && divides(d, a),
            decreases r1,
        {
            let q: u32 = r0 / r1;
            let m: u32 = r0 % r1;
            let next = s0.sub(Self::new(q).mul(s1));
            proof {
                lemma_euclid_step(a, r0 as int, r1 as int, s0@, s1@, q as int);
                lemma_fundamental_div_mod(r0 as int, r1 as int);
                assert(r0 - q * r1 == m) by (nonlinear_arith)
                    requires
                        r0 == r1 * q + m,
                ;
                assert forall|d: int|
                    d > 0 && #[trigger] divides(d, r1 as int) && divides(
                        d,
                        m as int,
                    ) implies divides(d, p) && divides(d, a) by {
                    lemma_divides_combination(d, m as int, r1 as int, q as int);
                    assert(m + q * r1 == r0) by (nonlinear_arith)
                        requires
                            r0 == r1 * q + m,
                    ;
                    assert(divides(d, r0 as int));
                }
                use_type_invariant(s1);
            }
            r0 = r1;
            r1 = m;
            s0 = s1;
            s1 = next;
        }
        proof {
            // r0 divides both the modulus and a, so it is 1
            let g = r0 as int;
            lemma_mod_self_0(g);
            assert(divides(g, r0 as int) && divides(g, r1 as int));
            if g > 1 {
                if g > a {
                    lemma_small_mod(a as nat, g as nat);
                }
                lemma_modulus_is_prime(g);
            }
            assert(g == 1);
            lemma_mul_is_commutative(s0@, a);
            lemma_field_inv(a, s0@);
        }
        s0
    }
}

} // verus!
