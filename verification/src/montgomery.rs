//! The sketch with its power sums kept in Montgomery form, in which a
//! product needs no division by the modulus: a field element `a` is held as
//! `a * R` reduced, with `R = 2^32`. Sums and differences are as before;
//! values come into the form on the way in and leave it once, on decoding.
use crate::arithmetic::field::{
    field_add, field_mul, field_pow, field_sub, lemma_field_pow_step, lemma_mul_congruent,
    modulus, reduce, MODULUS,
};
use crate::arithmetic::modint::{values, ModularInteger};
use crate::quack::{roots_in_log, Identifier, PowerSumQuack, Quack, QuackState};
use vstd::arithmetic::div_mod::*;
use vstd::arithmetic::mul::*;
use vstd::arithmetic::power::*;
use vstd::prelude::*;

verus! {

/// `R`, the radix of the form.
pub open spec fn radix() -> int {
    0x1_0000_0000
}

/// The inverse of `R` modulo the field modulus.
pub open spec fn radix_inverse() -> int {
    3435973833
}

/// The negative of the inverse of the field modulus, modulo `R`.
pub const MODULUS_NEGATIVE_INVERSE: u64 = 3435973837;

/// The field element that `v` stands for in Montgomery form.
pub open spec fn out_of_form(v: int) -> int {
    (v * radix_inverse()) % modulus()
}

/// What is between the modulus and the radix.
proof fn lemma_radix()
    ensures
        (radix() * radix_inverse()) % modulus() == 1,
        (modulus() * MODULUS_NEGATIVE_INVERSE + 1) == 3435973833 * radix(),
{
}

/// A number and its Montgomery reduction: the reduction times `R` is
/// congruent to the number.
proof fn lemma_reduced_stands_for(r: int, t: int)
    requires
        (r * radix()) % modulus() == (t as int) % modulus(),
    ensures
        r % modulus() == out_of_form(t),
{
    lemma_radix();
    let ri = radix_inverse();
    lemma_mul_congruent(r * radix(), t, ri, ri);
    assert((r * radix()) * ri == r * (radix() * ri)) by (nonlinear_arith);
    lemma_mul_congruent(r, r, radix() * ri, 1);
    assert(r * 1 == r);
}

/// Montgomery reduction: for `t` below `p * R`, the element `r` below the
/// modulus with `r * R` congruent to `t`.
fn montgomery_reduce(t: u64) -> (r: u32)
    requires
        t < modulus() * radix(),
    ensures
        r < modulus(),
        (r * radix()) % modulus() == (t as int) % modulus(),
{
    let low: u64 = t % 0x1_0000_0000;
    let m: u64 = (low * MODULUS_NEGATIVE_INVERSE) % 0x1_0000_0000;
    proof {
        lemma_mul_upper_bound(m as int, 0xffff_ffff, MODULUS as int, 0xffff_ffff);
        lemma_mul_nonnegative(m as int, MODULUS as int);
    }
    let sum: u128 = t as u128 + (m as u128) * (MODULUS as u128);
    let q: u128 = sum / 0x1_0000_0000;
    proof {
        let rx = radix();
        let p = modulus();
        let pp = MODULUS_NEGATIVE_INVERSE as int;
        lemma_radix();
        // m * p is congruent to -t modulo R
        lemma_mul_mod_noop_general(low * pp, p, rx);
        assert((low * pp) * p == rx * (low * 3435973833) + (0 - low)) by (nonlinear_arith)
            requires
                p * pp + 1 == 3435973833 * rx,
        ;
        lemma_mod_multiples_vanish(low * 3435973833, 0 - low, rx);
        assert((m * p) % rx == (0 - low) % rx);
        lemma_add_mod_noop(t as int, m * p, rx);
        assert((t + m * p) % rx == 0);
        assert(sum == t + m * p);
        lemma_fundamental_div_mod(sum as int, rx);
        assert(sum == rx * q);
        // q * R is congruent to t modulo p
        lemma_mod_multiples_vanish(m as int, t as int, p);
        lemma_mul_is_commutative(rx, q as int);
        assert((q * rx) % p == (t as int) % p);
        // and q is below 2 p
        assert(q < 2 * p) by (nonlinear_arith)
            requires
                rx * q == t + m * p,
                t < p * rx,
                m < rx,
                p > 0,
                rx > 0,
        ;
        lemma_mod_multiples_vanish(0 - rx, q * rx, p);
        assert(p * (0 - rx) + q * rx == (q - p) * rx) by (nonlinear_arith);
    }
    if q >= MODULUS as u128 {
        (q - MODULUS as u128) as u32
    } else {
        q as u32
    }
}

/// A field element in Montgomery form.
#[derive(Clone, Copy, Debug)]
pub struct MontgomeryInteger {
    value: u32,
}

impl View for MontgomeryInteger {
    type V = int;

    /// The field element that this stands for.
    closed spec fn view(&self) -> int {
        out_of_form(self.value as int)
    }
}

/// The field elements that a sequence in Montgomery form stands for.
pub open spec fn elements(s: Seq<MontgomeryInteger>) -> Seq<int> {
    Seq::new(s.len(), |i: int| s[i]@)
}

impl MontgomeryInteger {
    #[verifier::type_invariant]
    spec fn reduced(self) -> bool {
        self.value < MODULUS
    }

    /// The element that `n` stands for, brought into the form.
    pub fn new(n: u32) -> (r: Self)
        ensures
            r@ == reduce(n as int),
    {
        let shifted: u64 = (n as u64) * 0x1_0000_0000;
        let value = (shifted % (MODULUS as u64)) as u32;
        proof {
            let ri = radix_inverse();
            lemma_radix();
            lemma_mul_congruent(value as int, n * radix(), ri, ri);
            assert((n * radix()) * ri == n * (radix() * ri)) by (nonlinear_arith);
            lemma_mul_congruent(n as int, n as int, radix() * ri, 1);
            assert(n * 1 == n);
        }
        MontgomeryInteger { value }
    }

    /// The additive identity, which is its own form.
    pub fn zero() -> (r: Self)
        ensures
            r@ == 0,
    {
        assert(0 * radix_inverse() == 0);
        MontgomeryInteger { value: 0 }
    }

    /// The sum: the form of a sum is the sum of the forms.
    pub fn add(self, rhs: Self) -> (r: Self)
        ensures
            r@ == field_add(self@, rhs@),
    {
        proof {
            use_type_invariant(self);
            use_type_invariant(rhs);
        }
        let sum: u64 = self.value as u64 + rhs.value as u64;
        let value = if sum >= MODULUS as u64 {
            (sum - MODULUS as u64) as u32
        } else {
            sum as u32
        };
        proof {
            let ri = radix_inverse();
            let a = self.value as int;
            let b = rhs.value as int;
            lemma_mul_congruent(value as int, a + b, ri, ri);
            assert((a + b) * ri == a * ri + b * ri) by (nonlinear_arith);
            lemma_add_mod_noop(a * ri, b * ri, modulus());
        }
        MontgomeryInteger { value }
    }

    /// The difference: the form of a difference is the difference of the
    /// forms.
    pub fn sub(self, rhs: Self) -> (r: Self)
        ensures
            r@ == field_sub(self@, rhs@),
    {
        proof {
            use_type_invariant(self);
            use_type_invariant(rhs);
        }
        let value = if self.value >= rhs.value {
            self.value - rhs.value
        } else {
            MODULUS - rhs.value + self.value
        };
        proof {
            let ri = radix_inverse();
            let a = self.value as int;
            let b = rhs.value as int;
            lemma_mul_congruent(value as int, a - b, ri, ri);
            assert((a - b) * ri == a * ri - b * ri) by (nonlinear_arith);
            lemma_sub_mod_noop(a * ri, b * ri, modulus());
        }
        MontgomeryInteger { value }
    }

    /// The Montgomery product: the form of the product of what the two
    /// stand for.
    pub fn mul(self, rhs: Self) -> (r: Self)
        ensures
            r@ == field_mul(self@, rhs@),
    {
        proof {
            use_type_invariant(self);
            use_type_invariant(rhs);
            let a = self.value as int;
            let b = rhs.value as int;
            assert(0 <= a * b < 4294967291 * 0x1_0000_0000) by (nonlinear_arith)
                requires
                    0 <= a < 4294967291,
                    0 <= b < 4294967291,
            ;
        }
        let product: u64 = self.value as u64 * rhs.value as u64;
        let value = montgomery_reduce(product);
        proof {
            let ri = radix_inverse();
            let a = self.value as int;
            let b = rhs.value as int;
            lemma_reduced_stands_for(value as int, a * b);
            lemma_small_mod(value as nat, modulus() as nat);
            // value is congruent to (a b) ri, so value ri to (a ri) (b ri)
            lemma_mul_congruent(value as int, (a * b) * ri, ri, ri);
            assert(((a * b) * ri) * ri == (a * ri) * (b * ri)) by (nonlinear_arith);
            lemma_mul_mod_noop_general(a * ri, b * ri, modulus());
        }
        MontgomeryInteger { value }
    }

    /// The element that this stands for, out of the form.
    pub fn to_modular(self) -> (r: ModularInteger)
        ensures
            r@ == self@,
    {
        proof {
            use_type_invariant(self);
            assert(self.value < modulus() * radix());
        }
        let value = montgomery_reduce(self.value as u64);
        proof {
            lemma_reduced_stands_for(value as int, self.value as int);
            lemma_small_mod(value as nat, modulus() as nat);
        }
        ModularInteger::new(value)
    }
}

fn zeros(size: usize) -> (v: Vec<MontgomeryInteger>)
    ensures
        v.len() == size,
        forall|i: int| 0 <= i < size ==> (#[trigger] v[i])@ == 0,
{
    let mut v: Vec<MontgomeryInteger> = Vec::new();
    let mut i: usize = 0;
    while i < size
        invariant
            i <= size,
            v.len() == i,
            forall|k: int| 0 <= k < i ==> (#[trigger] v[k])@ == 0,
        decreases size - i,
    {
        v.push(MontgomeryInteger::zero());
        i = i + 1;
    }
    v
}

/// A power-sum quACK whose power sums are in Montgomery form.
#[derive(Debug)]
pub struct MontgomeryQuack {
    power_sums: Vec<MontgomeryInteger>,
    count: u16,
}

impl View for MontgomeryQuack {
    type V = QuackState;

    /// What the sketch stands for: its power sums out of the form, and its
    /// count.
    closed spec fn view(&self) -> QuackState {
        QuackState { power_sums: elements(self.power_sums@), count: self.count as int }
    }
}

impl MontgomeryQuack {
    /// An empty sketch that can decode up to `size` missing identifiers.
    pub fn new(size: usize) -> (r: Self)
        ensures
            r@ == QuackState::empty(size as nat),
            r@.wf(),
    {
        let r = MontgomeryQuack { power_sums: zeros(size), count: 0 };
        proof {
            assert(r@.power_sums =~= QuackState::empty(size as nat).power_sums);
        }
        r
    }

    /// Puts an identifier into the sketch. The count wraps at 2^16.
    pub fn insert(&mut self, value: Identifier)
        ensures
            final(self)@ == old(self)@.insert(value as int),
            final(self)@.wf(),
    {
        let size = self.power_sums.len();
        let x = MontgomeryInteger::new(value);
        let mut y = x;
        let mut i: usize = 0;
        proof {
            lemma_pow1(value as int);
        }
        while i < size
            invariant
                i <= size,
                size == self.power_sums.len(),
                size == old(self).power_sums.len(),
                self.count == old(self).count,
                x@ == (value as int) % modulus(),
                i < size ==> y@ == field_pow(value as int, (i + 1) as nat),
                forall|k: int|
                    0 <= k < i ==> (#[trigger] self.power_sums[k])@ == field_add(
                        old(self).power_sums[k]@,
                        field_pow(value as int, (k + 1) as nat),
                    ),
                forall|k: int| i <= k < size ==> self.power_sums[k] == old(self).power_sums[k],
            decreases size - i,
        {
            proof {
                lemma_field_pow_step(value as int, (i + 1) as nat);
            }
            let sum = self.power_sums[i].add(y);
            self.power_sums[i] = sum;
            if i + 1 < size {
                y = y.mul(x);
            }
            i = i + 1;
        }
        if self.count == u16::MAX {
            self.count = 0;
        } else {
            self.count = self.count + 1;
        }
        proof {
            assert(self@.power_sums =~= old(self)@.insert(value as int).power_sums);
        }
    }

    /// Takes an identifier out of the sketch. The count wraps at 2^16.
    pub fn remove(&mut self, value: Identifier)
        ensures
            final(self)@ == old(self)@.remove(value as int),
            final(self)@.wf(),
    {
        let size = self.power_sums.len();
        let x = MontgomeryInteger::new(value);
        let mut y = x;
        let mut i: usize = 0;
        proof {
            lemma_pow1(value as int);
        }
        while i < size
            invariant
                i <= size,
                size == self.power_sums.len(),
                size == old(self).power_sums.len(),
                self.count == old(self).count,
                x@ == (value as int) % modulus(),
                i < size ==> y@ == field_pow(value as int, (i + 1) as nat),
                forall|k: int|
                    0 <= k < i ==> (#[trigger] self.power_sums[k])@ == field_sub(
                        old(self).power_sums[k]@,
                        field_pow(value as int, (k + 1) as nat),
                    ),
                forall|k: int| i <= k < size ==> self.power_sums[k] == old(self).power_sums[k],
            decreases size - i,
        {
            proof {
                lemma_field_pow_step(value as int, (i + 1) as nat);
            }
            let rest = self.power_sums[i].sub(y);
            self.power_sums[i] = rest;
            if i + 1 < size {
                y = y.mul(x);
            }
            i = i + 1;
        }
        if self.count == 0 {
            self.count = u16::MAX;
        } else {
            self.count = self.count - 1;
        }
        proof {
            assert(self@.power_sums =~= old(self)@.remove(value as int).power_sums);
        }
    }

    /// The threshold: how many missing identifiers the sketch can decode.
    pub fn threshold(&self) -> (t: usize)
        ensures
            t == self@.threshold(),
    {
        self.power_sums.len()
    }

    /// How many identifiers were put in, less those taken out, modulo 2^16.
    pub fn count(&self) -> (n: u16)
        ensures
            n == self@.count,
    {
        self.count
    }

    /// Subtracts `rhs` from the sketch, power sum by power sum. The counts
    /// are subtracted modulo 2^16.
    pub fn sub_assign(&mut self, rhs: Self)
        requires
            old(self)@.threshold() == rhs@.threshold(),
        ensures
            final(self)@ == old(self)@.difference(rhs@),
            final(self)@.wf(),
    {
        let size = self.power_sums.len();
        let mut i: usize = 0;
        while i < size
            invariant
                i <= size,
                size == self.power_sums.len(),
                size == old(self).power_sums.len(),
                size == rhs.power_sums.len(),
                self.count == old(self).count,
                forall|k: int|
                    0 <= k < i ==> (#[trigger] self.power_sums[k])@ == field_sub(
                        old(self).power_sums[k]@,
                        rhs.power_sums[k]@,
                    ),
                forall|k: int| i <= k < size ==> self.power_sums[k] == old(self).power_sums[k],
            decreases size - i,
        {
            let rest = self.power_sums[i].sub(rhs.power_sums[i]);
            self.power_sums[i] = rest;
            i = i + 1;
        }
        if self.count >= rhs.count {
            self.count = self.count - rhs.count;
        } else {
            self.count = (u16::MAX - rhs.count) + self.count + 1;
        }
        proof {
            assert(self@.power_sums =~= old(self)@.difference(rhs@).power_sums);
        }
    }

    /// The same sketch with its power sums out of Montgomery form.
    pub fn to_power_sum_quack(&self) -> (r: PowerSumQuack)
        ensures
            r@ == self@,
    {
        let size = self.power_sums.len();
        let mut sums: Vec<ModularInteger> = Vec::new();
        let mut i: usize = 0;
        while i < size
            invariant
                i <= size,
                size == self.power_sums.len(),
                sums.len() == i,
                forall|k: int| 0 <= k < i ==> (#[trigger] sums[k])@ == self.power_sums[k]@,
            decreases size - i,
        {
            sums.push(self.power_sums[i].to_modular());
            i = i + 1;
        }
        proof {
            assert(values(sums@) =~= self@.power_sums);
        }
        PowerSumQuack::from_parts(sums, self.count)
    }

    /// The identifiers of `log`, in the order of the log, that the sketch
    /// says are missing: what the plain sketch in the same state says.
    pub fn decode_with_log(&self, log: &Vec<Identifier>) -> (missing: Vec<Identifier>)
        requires
            self@.count <= self@.threshold(),
        ensures
            missing@ == roots_in_log(self@.coefficients(), log@),
    {
        self.to_power_sum_quack().decode_with_log(log)
    }
}

impl Clone for MontgomeryQuack {
    fn clone(&self) -> (r: Self)
        ensures
            r@ == self@,
    {
        let size = self.power_sums.len();
        let mut sums: Vec<MontgomeryInteger> = Vec::new();
        let mut i: usize = 0;
        while i < size
            invariant
                i <= size,
                size == self.power_sums.len(),
                sums@ == self.power_sums@.take(i as int),
            decreases size - i,
        {
            sums.push(self.power_sums[i]);
            proof {
                assert(self.power_sums@.take(i + 1) =~= self.power_sums@.take(i as int).push(
                    self.power_sums[i as int],
                ));
            }
            i = i + 1;
        }
        proof {
            assert(self.power_sums@.take(size as int) =~= self.power_sums@);
        }
        MontgomeryQuack { power_sums: sums, count: self.count }
    }
}

impl Quack for MontgomeryQuack {
    open spec fn state(&self) -> QuackState {
        self@
    }

    fn new(size: usize) -> (r: Self) {
        MontgomeryQuack::new(size)
    }

    fn insert(&mut self, value: Identifier) {
        MontgomeryQuack::insert(self, value)
    }

    fn remove(&mut self, value: Identifier) {
        MontgomeryQuack::remove(self, value)
    }

    fn threshold(&self) -> (t: usize) {
        MontgomeryQuack::threshold(self)
    }

    fn count(&self) -> (n: u16) {
        MontgomeryQuack::count(self)
    }
}

impl vstd::std_specs::ops::SubSpecImpl for MontgomeryQuack {
    open spec fn obeys_sub_spec() -> bool {
        false
    }

    open spec fn sub_req(self, rhs: MontgomeryQuack) -> bool {
        self@.threshold() == rhs@.threshold()
    }

    open spec fn sub_spec(self, rhs: MontgomeryQuack) -> MontgomeryQuack {
        self
    }
}

impl core::ops::Sub for MontgomeryQuack {
    type Output = MontgomeryQuack;

    /// The sketch less `rhs`: of two sketches with the same threshold.
    fn sub(self, rhs: MontgomeryQuack) -> (r: MontgomeryQuack)
        ensures
            r@ == self@.difference(rhs@),
            r@.wf(),
    {
        let mut result = self;
        result.sub_assign(rhs);
        result
    }
}

} // verus!
