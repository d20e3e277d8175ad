//! The power-sum sketch: `t` running power sums of the identifiers put in,
//! and how many there are.
use crate::arithmetic::evaluator::{is_root, root_values, MonicPolynomialEvaluator};
use crate::arithmetic::field::{
    field_add, field_inv, field_pow, field_sub, is_element, lemma_field_inv, lemma_field_pow_step,
    modulus, MODULUS,
};
use crate::arithmetic::modint::{values, ModularInteger};
use crate::arithmetic::roots::{from_roots, is_factorization, splits_completely};
use crate::newton::{newton_coefficients, newton_sum};
use crate::wire::{
    be_bytes_u16, be_bytes_u32, be_u32, is_wire_length, lemma_sums_bytes, parse_sums,
    parse_wire, sums_bytes, wire_bytes,
};
use vstd::arithmetic::div_mod::*;
use vstd::arithmetic::power::*;
use vstd::prelude::*;

verus! {

/// A packet identifier.
pub type Identifier = u32;

/// What a sketch holds, as mathematics: entry `k` of `power_sums` is the sum
/// of the `(k+1)`-th powers of the identifiers put in, less those taken out,
/// modulo the field modulus; `count` is how many were put in less how many
/// were taken out, modulo 2^16.
pub struct QuackState {
    pub power_sums: Seq<int>,
    pub count: int,
}

impl QuackState {
    /// The threshold: how many power sums there are.
    pub open spec fn threshold(self) -> nat {
        self.power_sums.len()
    }

    /// Every power sum is a field element and the count fits 16 bits.
    pub open spec fn wf(self) -> bool {
        &&& 0 <= self.count < 65536
        &&& forall|k: int|
            0 <= k < self.power_sums.len() ==> is_element(#[trigger] self.power_sums[k])
    }

    /// The sketch of nothing, with the given threshold.
    pub open spec fn empty(threshold: nat) -> QuackState {
        QuackState { power_sums: Seq::new(threshold, |k: int| 0), count: 0 }
    }

    /// The sketch with `x` put in.
    pub open spec fn insert(self, x: int) -> QuackState {
        QuackState {
            power_sums: Seq::new(
                self.power_sums.len(),
                |k: int| field_add(self.power_sums[k], field_pow(x, (k + 1) as nat)),
            ),
            count: (self.count + 1) % 65536,
        }
    }

    /// The sketch with `x` taken out.
    pub open spec fn remove(self, x: int) -> QuackState {
        QuackState {
            power_sums: Seq::new(
                self.power_sums.len(),
                |k: int| field_sub(self.power_sums[k], field_pow(x, (k + 1) as nat)),
            ),
            count: (self.count - 1) % 65536,
        }
    }

    /// The sketch less `rhs`, power sum by power sum; the counts are
    /// subtracted modulo 2^16.
    pub open spec fn difference(self, rhs: QuackState) -> QuackState {
        QuackState {
            power_sums: Seq::new(
                self.power_sums.len(),
                |k: int| field_sub(self.power_sums[k], rhs.power_sums[k]),
            ),
            count: (self.count - rhs.count) % 65536,
        }
    }

    /// The sketch with every identifier of `xs` put in, first to last.
    pub open spec fn insert_all(self, xs: Seq<Identifier>) -> QuackState
        decreases xs.len(),
    {
        if xs.len() == 0 {
            self
        } else {
            self.insert_all(xs.drop_last()).insert(xs.last() as int)
        }
    }

    /// The coefficients of the polynomial that the sketch decodes to: as many
    /// as the count says.
    pub open spec fn coefficients(self) -> Seq<int> {
        newton_coefficients(self.power_sums, self.count as nat)
    }
}

/// What every kind of sketch offers, and what it means: however a kind
/// holds its power sums, its operations do to the state that it stands for
/// what the operations of [`QuackState`] say. Sketches of different kinds
/// that were given the same identifiers therefore stand for the same state,
/// and decode to the same identifiers.
pub trait Quack: Sized {
    /// The state that the sketch stands for.
    spec fn state(&self) -> QuackState;

    /// An empty sketch that can decode up to `size` missing identifiers.
    fn new(size: usize) -> (r: Self)
        ensures
            r.state() == QuackState::empty(size as nat),
    ;

    /// Puts an identifier into the sketch.
    fn insert(&mut self, value: Identifier)
        ensures
            final(self).state() == old(self).state().insert(value as int),
    ;

    /// Takes an identifier out of the sketch.
    fn remove(&mut self, value: Identifier)
        ensures
            final(self).state() == old(self).state().remove(value as int),
    ;

    /// The threshold: how many missing identifiers the sketch can decode.
    fn threshold(&self) -> (t: usize)
        ensures
            t == self.state().threshold(),
    ;

    /// How many identifiers were put in, less those taken out, modulo 2^16.
    fn count(&self) -> (n: u16)
        ensures
            n == self.state().count,
    ;
}

/// Puts every identifier of `identifiers` into a sketch of any kind, first
/// to last: whatever the kind, the sketch then stands for the same state.
pub fn insert_all<Q: Quack>(quack: &mut Q, identifiers: &Vec<Identifier>)
    ensures
        final(quack).state() == old(quack).state().insert_all(identifiers@),
{
    let mut i: usize = 0;
    while i < identifiers.len()
        invariant
            i <= identifiers.len(),
            quack.state() == old(quack).state().insert_all(identifiers@.take(i as int)),
        decreases identifiers.len() - i,
    {
        proof {
            assert(identifiers@.take(i + 1).drop_last() =~= identifiers@.take(i as int));
        }
        quack.insert(identifiers[i]);
        i = i + 1;
    }
    proof {
        assert(identifiers@.take(identifiers.len() as int) =~= identifiers@);
    }
}

/// The entries of `log`, in order, that are roots of the monic polynomial
/// with the coefficients `coeffs`.
pub open spec fn roots_in_log(coeffs: Seq<int>, log: Seq<Identifier>) -> Seq<Identifier> {
    log.filter(|x: Identifier| is_root(coeffs, x as int))
}

/// The constant polynomial 1 has no roots: decoded against it, no entry of
/// a log is found.
pub proof fn lemma_no_roots_of_one(log: Seq<Identifier>)
    ensures
        roots_in_log(Seq::empty(), log) == Seq::<Identifier>::empty(),
    decreases log.len(),
{
    reveal(Seq::filter);
    if log.len() > 0 {
        lemma_no_roots_of_one(log.drop_last());
    }
}

/// The table of the inverses of 1 up to `size`: entry `i` divides by `i + 1`.
fn modular_inverse_table(size: usize) -> (table: Vec<ModularInteger>)
    ensures
        table.len() == size,
        forall|i: int| 0 <= i < size ==> (#[trigger] table[i])@ == field_inv(i + 1),
{
    let mut table: Vec<ModularInteger> = Vec::new();
    let mut i: usize = 0;
    while i < size
        invariant
            i <= size,
            table.len() == i,
            forall|k: int| 0 <= k < i ==> (#[trigger] table[k])@ == field_inv(k + 1),
        decreases size - i,
    {
        let residue: u32 = ((i + 1) % (MODULUS as usize)) as u32;
        let inverse = ModularInteger::new(residue).inv();
        proof {
            // the inverse of a residue is the inverse of all it stands for
            let a = i + 1;
            let r = inverse@;
            assert(residue as int == a % modulus());
            assert(r == field_inv(residue as int));
            if a % modulus() != 0 {
                crate::arithmetic::field::lemma_inverse_exists(residue as int);
                lemma_mul_mod_noop_general(a as int, r, modulus());
            }
            lemma_field_inv(a as int, r);
        }
        table.push(inverse);
        i = i + 1;
    }
    table
}

fn zeros(size: usize) -> (v: Vec<ModularInteger>)
    ensures
        v.len() == size,
        forall|i: int| 0 <= i < size ==> (#[trigger] v[i])@ == 0,
{
    let mut v: Vec<ModularInteger> = Vec::new();
    let mut i: usize = 0;
    while i < size
        invariant
            i <= size,
            v.len() == i,
            forall|k: int| 0 <= k < i ==> (#[trigger] v[k])@ == 0,
        decreases size - i,
    {
        v.push(ModularInteger::zero());
        i = i + 1;
    }
    v
}

fn copy_of(source: &Vec<ModularInteger>) -> (v: Vec<ModularInteger>)
    ensures
        v@ == source@,
{
    let mut v: Vec<ModularInteger> = Vec::new();
    let mut i: usize = 0;
    while i < source.len()
        invariant
            i <= source.len(),
            v@ == source@.take(i as int),
        decreases source.len() - i,
    {
        v.push(source[i]);
        proof {
            assert(source@.take(i + 1) =~= source@.take(i as int).push(source[i as int]));
        }
        i = i + 1;
    }
    proof {
        assert(source@.take(source.len() as int) =~= source@);
    }
    v
}

/// Appends the four bytes of `v`, most significant first.
fn push_be_u32(bytes: &mut Vec<u8>, v: u32)
    ensures
        final(bytes)@ == old(bytes)@ + be_bytes_u32(v as int),
{
    bytes.push((v / 16777216) as u8);
    bytes.push(((v / 65536) % 256) as u8);
    bytes.push(((v / 256) % 256) as u8);
    bytes.push((v % 256) as u8);
    proof {
        assert(bytes@ =~= old(bytes)@ + be_bytes_u32(v as int));
    }
}

/// Reads the four bytes at `at`, most significant first.
fn read_be_u32(bytes: &[u8], at: usize) -> (v: u32)
    requires
        at + 4 <= bytes.len(),
    ensures
        v == be_u32(bytes@.subrange(at as int, at + 4)),
{
    let b0 = bytes[at] as u32;
    let b1 = bytes[at + 1] as u32;
    let b2 = bytes[at + 2] as u32;
    let b3 = bytes[at + 3] as u32;
    b0 * 16777216 + b1 * 65536 + b2 * 256 + b3
}

/// A power-sum quACK over 32-bit identifiers.
#[derive(Debug)]
pub struct PowerSumQuack {
    inverse_table: Vec<ModularInteger>,
    power_sums: Vec<ModularInteger>,
    count: u16,
}

impl View for PowerSumQuack {
    type V = QuackState;

    closed spec fn view(&self) -> QuackState {
        QuackState { power_sums: values(self.power_sums@), count: self.count as int }
    }
}

impl PowerSumQuack {
    #[verifier::type_invariant]
    spec fn inv(self) -> bool {
        &&& self.inverse_table.len() == self.power_sums.len()
        &&& forall|i: int|
            0 <= i < self.inverse_table.len() ==> (#[trigger] self.inverse_table[i])@ == field_inv(
                i + 1,
            )
    }

    /// An empty sketch that can decode up to `size` missing identifiers.
    pub fn new(size: usize) -> (r: Self)
        ensures
            r@ == QuackState::empty(size as nat),
            r@.wf(),
    {
        let r = PowerSumQuack {
            inverse_table: modular_inverse_table(size),
            power_sums: zeros(size),
            count: 0,
        };
        proof {
            assert(r@.power_sums =~= QuackState::empty(size as nat).power_sums);
        }
        r
    }

    /// The sketch with the given power sums and count.
    pub(crate) fn from_parts(power_sums: Vec<ModularInteger>, count: u16) -> (r: Self)
        ensures
            r@ == (QuackState { power_sums: values(power_sums@), count: count as int }),
    {
        PowerSumQuack { inverse_table: modular_inverse_table(power_sums.len()), power_sums, count }
    }

    /// Puts an identifier into the sketch. The count wraps at 2^16.
    pub fn insert(&mut self, value: Identifier)
        ensures
            final(self)@ == old(self)@.insert(value as int),
            final(self)@.wf(),
    {
        proof {
            use_type_invariant(&*self);
        }
        let size = self.power_sums.len();
        let x = ModularInteger::new(value);
        let mut y = x;
        let mut i: usize = 0;
        proof {
            lemma_pow1(value as int);
        }
        while i < size
            invariant
                i <= size,
                size == self.power_sums.len(),
                size == old(self).power_sums.len(),
                self.count == old(self).count,
                x@ == (value as int) % modulus(),
                i < size ==> y@ == field_pow(value as int, (i + 1) as nat),
                forall|k: int|
                    0 <= k < i ==> (#[trigger] self.power_sums[k])@ == field_add(
                        old(self).power_sums[k]@,
                        field_pow(value as int, (k + 1) as nat),
                    ),
                forall|k: int| i <= k < size ==> self.power_sums[k] == old(self).power_sums[k],
            decreases size - i,
        {
            proof {
                use_type_invariant(&*self);
                lemma_field_pow_step(value as int, (i + 1) as nat);
            }
            let sum = self.power_sums[i].add(y);
            self.power_sums[i] = sum;
            if i + 1 < size {
                y = y.mul(x);
            }
            i = i + 1;
        }
        proof {
            use_type_invariant(&*self);
        }
        if self.count == u16::MAX {
            self.count = 0;
        } else {
            self.count = self.count + 1;
        }
        proof {
            assert(self@.power_sums =~= old(self)@.insert(value as int).power_sums);
        }
    }

    /// Takes an identifier out of the sketch. The count wraps at 2^16.
    pub fn remove(&mut self, value: Identifier)
        ensures
            final(self)@ == old(self)@.remove(value as int),
            final(self)@.wf(),
    {
        proof {
            use_type_invariant(&*self);
        }
        let size = self.power_sums.len();
        let x = ModularInteger::new(value);
        let mut y = x;
        let mut i: usize = 0;
        proof {
            lemma_pow1(value as int);
        }
        while i < size
            invariant
                i <= size,
                size == self.power_sums.len(),
                size == old(self).power_sums.len(),
                self.count == old(self).count,
                x@ == (value as int) % modulus(),
                i < size ==> y@ == field_pow(value as int, (i + 1) as nat),
                forall|k: int|
                    0 <= k < i ==> (#[trigger] self.power_sums[k])@ == field_sub(
                        old(self).power_sums[k]@,
                        field_pow(value as int, (k + 1) as nat),
                    ),
                forall|k: int| i <= k < size ==> self.power_sums[k] == old(self).power_sums[k],
            decreases size - i,
        {
            proof {
                use_type_invariant(&*self);
                lemma_field_pow_step(value as int, (i + 1) as nat);
            }
            let rest = self.power_sums[i].sub(y);
            self.power_sums[i] = rest;
            if i + 1 < size {
                y = y.mul(x);
            }
            i = i + 1;
        }
        proof {
            use_type_invariant(&*self);
        }
        if self.count == 0 {
            self.count = u16::MAX;
        } else {
            self.count = self.count - 1;
        }
        proof {
            assert(self@.power_sums =~= old(self)@.remove(value as int).power_sums);
        }
    }

    /// The threshold: how many missing identifiers the sketch can decode.
    pub fn threshold(&self) -> (t: usize)
        ensures
            t == self@.threshold(),
    {
        self.power_sums.len()
    }

    /// How many identifiers were put in, less those taken out, modulo 2^16.
    pub fn count(&self) -> (n: u16)
        ensures
            n == self@.count,
    {
        self.count
    }

    /// The power sums, first to last.
    pub fn power_sums(&self) -> (sums: &Vec<ModularInteger>)
        ensures
            values(sums@) == self@.power_sums,
    {
        &self.power_sums
    }

    /// Subtracts `rhs` from the sketch, power sum by power sum. The counts
    /// are subtracted modulo 2^16.
    pub fn sub_assign(&mut self, rhs: Self)
        requires
            old(self)@.threshold() == rhs@.threshold(),
        ensures
            final(self)@ == old(self)@.difference(rhs@),
            final(self)@.wf(),
    {
        proof {
            use_type_invariant(&*self);
            use_type_invariant(&rhs);
        }
        let size = self.power_sums.len();
        let mut i: usize = 0;
        while i < size
            invariant
                i <= size,
                size == self.power_sums.len(),
                size == old(self).power_sums.len(),
                size == rhs.power_sums.len(),
                self.count == old(self).count,
                forall|k: int|
                    0 <= k < i ==> (#[trigger] self.power_sums[k])@ == field_sub(
                        old(self).power_sums[k]@,
                        rhs.power_sums[k]@,
                    ),
                forall|k: int| i <= k < size ==> self.power_sums[k] == old(self).power_sums[k],
            decreases size - i,
        {
            proof {
                use_type_invariant(&*self);
            }
            let rest = self.power_sums[i].sub(rhs.power_sums[i]);
            self.power_sums[i] = rest;
            i = i + 1;
        }
        proof {
            use_type_invariant(&*self);
        }
        if self.count >= rhs.count {
            self.count = self.count - rhs.count;
        } else {
            self.count = (u16::MAX - rhs.count) + self.count + 1;
        }
        proof {
            assert(self@.power_sums =~= old(self)@.difference(rhs@).power_sums);
        }
    }

    /// The sketch less `rhs`, if the two have the same threshold.
    pub fn checked_sub(self, rhs: Self) -> (r: Option<Self>)
        ensures
            match r {
                Some(rest) => self@.threshold() == rhs@.threshold() && rest@ == self@.difference(
                    rhs@,
                ) && rest@.wf(),
                None => self@.threshold() != rhs@.threshold(),
            },
    {
        if self.power_sums.len() != rhs.power_sums.len() {
            return None;
        }
        let mut rest = self;
        rest.sub_assign(rhs);
        Some(rest)
    }

    /// The coefficients, below the leading one, of the monic polynomial whose
    /// roots are the identifiers in the sketch: as many as the count says.
    pub fn to_coeffs(&self) -> (coeffs: Vec<ModularInteger>)
        requires
            self@.count <= self@.threshold(),
        ensures
            values(coeffs@) == self@.coefficients(),
    {
        let mut coeffs = zeros(self.count as usize);
        self.to_coeffs_preallocated(&mut coeffs);
        coeffs
    }

    /// Writes into `coeffs` the first `coeffs.len()` coefficients that
    /// Newton's identities give for the power sums. What the buffer held
    /// before does not matter.
    pub fn to_coeffs_preallocated(&self, coeffs: &mut Vec<ModularInteger>)
        requires
            old(coeffs).len() <= self@.threshold(),
        ensures
            values(final(coeffs)@) == newton_coefficients(
                self@.power_sums,
                old(coeffs).len() as nat,
            ),
    {
        proof {
            use_type_invariant(self);
        }
        let size = coeffs.len();
        let ghost sums = self@.power_sums;
        let mut i: usize = 0;
        while i < size
            invariant
                i <= size,
                size == coeffs.len(),
                size <= self.power_sums.len(),
                self.inverse_table.len() == self.power_sums.len(),
                sums == values(self.power_sums@),
                forall|k: int|
                    0 <= k < self.inverse_table.len() ==> (#[trigger] self.inverse_table[k])@
                        == field_inv(k + 1),
                values(coeffs@).take(i as int) == newton_coefficients(sums, i as nat),
            decreases size - i,
        {
            let ghost before = values(coeffs@).take(i as int);
            let mut sum = ModularInteger::zero();
            let mut j: usize = 0;
            while j < i
                invariant
                    j <= i < size,
                    size == coeffs.len(),
                    size <= self.power_sums.len(),
                    sums == values(self.power_sums@),
                    before == values(coeffs@).take(i as int),
                    sum@ == newton_sum(sums, before, i as int, j as nat),
                decreases i - j,
            {
                sum = sum.add(self.power_sums[j].mul(coeffs[i - j - 1]));
                j = j + 1;
            }
            let c = self.power_sums[i].neg().sub(sum).mul(self.inverse_table[i]);
            coeffs.set(i, c);
            proof {
                assert(values(coeffs@).take(i + 1) =~= before.push(c@));
            }
            i = i + 1;
        }
        proof {
            assert(values(coeffs@).take(size as int) =~= values(coeffs@));
        }
    }

    /// The identifiers that the sketch says are missing, found without a log
    /// by factoring its polynomial: each is the canonical representative of
    /// a missing identifier, and occurs as often as that one is missing.
    /// `None` where the polynomial is not a product of linear factors, which
    /// shows that the sketch is not that of as many identifiers as its count.
    pub fn decode_by_factorization(&self) -> (missing: Option<Vec<Identifier>>)
        requires
            self@.count <= self@.threshold(),
        ensures
            match missing {
                Some(roots) => is_factorization(self@.coefficients(), root_values(roots@)),
                None => !splits_completely(self@.coefficients()),
            },
    {
        if self.count == 0 {
            proof {
                assert(root_values(Seq::<u32>::empty()) =~= Seq::<int>::empty());
                assert(from_roots(Seq::<int>::empty()) =~= self@.coefficients());
            }
            return Some(Vec::new());
        }
        let coeffs = self.to_coeffs();
        match MonicPolynomialEvaluator::factor(&coeffs) {
            Ok(roots) => Some(roots),
            Err(_) => None,
        }
    }

    /// The identifiers of `log`, in the order of the log, that the sketch
    /// says are missing: those that are roots of its polynomial. An identifier
    /// that occurs several times in the log, or that collides with a missing
    /// one modulo the field modulus, is returned each time.
    pub fn decode_with_log(&self, log: &Vec<Identifier>) -> (missing: Vec<Identifier>)
        requires
            self@.count <= self@.threshold(),
        ensures
            missing@ == roots_in_log(self@.coefficients(), log@),
    {
        if self.count == 0 {
            proof {
                lemma_no_roots_of_one(log@);
            }
            return Vec::new();
        }
        let coeffs = self.to_coeffs();
        let ghost c = self@.coefficients();
        let mut missing: Vec<Identifier> = Vec::new();
        let mut i: usize = 0;
        proof {
            reveal(Seq::filter);
        }
        while i < log.len()
            invariant
                i <= log.len(),
                values(coeffs@) == c,
                missing@ == roots_in_log(c, log@.take(i as int)),
            decreases log.len() - i,
        {
            let x = log[i];
            proof {
                reveal(Seq::filter);
                assert(log@.take(i + 1).drop_last() =~= log@.take(i as int));
            }
            if MonicPolynomialEvaluator::eval(&coeffs, x).is_zero() {
                missing.push(x);
            }
            i = i + 1;
        }
        proof {
            assert(log@.take(log.len() as int) =~= log@);
        }
        missing
    }
}

impl PowerSumQuack {
    /// The sketch as bytes to send: each power sum as four bytes, most
    /// significant first, then the count as two.
    pub fn serialize(&self) -> (bytes: Vec<u8>)
        ensures
            bytes@ == wire_bytes(self@),
            bytes.len() == 4 * self@.threshold() + 2,
            parse_wire(bytes@) == Some(self@),
    {
        let size = self.power_sums.len();
        let ghost sums = self@.power_sums;
        let mut bytes: Vec<u8> = Vec::new();
        let mut i: usize = 0;
        while i < size
            invariant
                i <= size,
                size == self.power_sums.len(),
                sums == values(self.power_sums@),
                bytes@ == sums_bytes(sums.take(i as int)),
                forall|k: int| 0 <= k < i ==> is_element(#[trigger] sums[k]),
            decreases size - i,
        {
            let v = self.power_sums[i].value();
            proof {
                assert(sums.take(i + 1).drop_last() =~= sums.take(i as int));
            }
            push_be_u32(&mut bytes, v);
            i = i + 1;
        }
        proof {
            assert(sums.take(size as int) =~= sums);
            lemma_sums_bytes(sums);
            assert(self@.wf());
            crate::wire::lemma_wire_roundtrip(self@);
        }
        bytes.push((self.count / 256) as u8);
        bytes.push((self.count % 256) as u8);
        proof {
            assert(bytes@ =~= sums_bytes(sums) + be_bytes_u16(self.count as int));
        }
        bytes
    }

    /// The sketch that `bytes` stand for: `None` unless they are a whole
    /// number of four-byte power sums and a two-byte count. A power sum that
    /// is not below the field modulus is reduced.
    pub fn deserialize(bytes: &[u8]) -> (r: Option<Self>)
        ensures
            match r {
                Some(quack) => parse_wire(bytes@) == Some(quack@) && quack@.wf(),
                None => !is_wire_length(bytes@.len()),
            },
    {
        let len = bytes.len();
        if len < 2 || (len - 2) % 4 != 0 {
            return None;
        }
        let size = (len - 2) / 4;
        let ghost body = bytes@.take(len - 2);
        let mut power_sums: Vec<ModularInteger> = Vec::new();
        let mut i: usize = 0;
        while i < size
            invariant
                i <= size,
                size == (len - 2) / 4,
                (len - 2) % 4 == 0,
                len == bytes.len(),
                len >= 2,
                body == bytes@.take(len - 2),
                power_sums.len() == i,
                forall|k: int| 0 <= k < i ==> (#[trigger] power_sums[k])@ == parse_sums(body)[k],
            decreases size - i,
        {
            let v = read_be_u32(bytes, 4 * i);
            proof {
                assert(bytes@.subrange(4 * i, 4 * i + 4) =~= body.subrange(4 * i, 4 * i + 4));
            }
            power_sums.push(ModularInteger::new(v));
            i = i + 1;
        }
        let count: u16 = (bytes[len - 2] as u16) * 256 + bytes[len - 1] as u16;
        let quack = PowerSumQuack {
            inverse_table: modular_inverse_table(size),
            power_sums,
            count,
        };
        proof {
            assert(quack@.power_sums =~= parse_sums(body));
        }
        Some(quack)
    }
}

impl Quack for PowerSumQuack {
    open spec fn state(&self) -> QuackState {
        self@
    }

    fn new(size: usize) -> (r: Self) {
        PowerSumQuack::new(size)
    }

    fn insert(&mut self, value: Identifier) {
        PowerSumQuack::insert(self, value)
    }

    fn remove(&mut self, value: Identifier) {
        PowerSumQuack::remove(self, value)
    }

    fn threshold(&self) -> (t: usize) {
        PowerSumQuack::threshold(self)
    }

    fn count(&self) -> (n: u16) {
        PowerSumQuack::count(self)
    }
}

impl Clone for PowerSumQuack {
    fn clone(&self) -> (r: Self)
        ensures
            r@ == self@,
    {
        proof {
            use_type_invariant(self);
        }
        PowerSumQuack {
            inverse_table: copy_of(&self.inverse_table),
            power_sums: copy_of(&self.power_sums),
            count: self.count,
        }
    }
}

impl vstd::std_specs::ops::SubSpecImpl for PowerSumQuack {
    open spec fn obeys_sub_spec() -> bool {
        false
    }

    open spec fn sub_req(self, rhs: PowerSumQuack) -> bool {
        self@.threshold() == rhs@.threshold()
    }

    open spec fn sub_spec(self, rhs: PowerSumQuack) -> PowerSumQuack {
        self
    }
}

impl core::ops::Sub for PowerSumQuack {
    type Output = PowerSumQuack;

    /// The sketch less `rhs`: of two sketches with the same threshold.
    fn sub(self, rhs: PowerSumQuack) -> (r: PowerSumQuack)
        ensures
            r@ == self@.difference(rhs@),
            r@.wf(),
    {
        let mut result = self;
        result.sub_assign(rhs);
        result
    }
}

} // verus!
