//! The sketch with a table of powers: for every identifier below
//! [`TABLE_SIZE`], the powers that putting it in adds to the power sums are
//! worked out once, when the sketch is made, and looked up after that.
use crate::arithmetic::field::{
    field_add, field_pow, field_sub, lemma_field_pow_step, modulus,
};
use crate::arithmetic::modint::{values, ModularInteger};
use crate::quack::{roots_in_log, Identifier, PowerSumQuack, Quack, QuackState};
use vstd::arithmetic::power::*;
use vstd::prelude::*;

verus! {

/// How many identifiers the table covers: those below 2^16.
pub const TABLE_SIZE: usize = 65536;

/// Whether `row` holds the first powers of `x`: entry `k` is `x^(k+1)`.
pub open spec fn is_power_row(row: Seq<ModularInteger>, x: int) -> bool {
    forall|k: int| 0 <= k < row.len() ==> (#[trigger] row[k])@ == field_pow(x, (k + 1) as nat)
}

/// The first `size` powers of `x`.
fn power_row(x: u32, size: usize) -> (row: Vec<ModularInteger>)
    ensures
        row.len() == size,
        is_power_row(row@, x as int),
{
    let base = ModularInteger::new(x);
    let mut y = base;
    let mut row: Vec<ModularInteger> = Vec::new();
    let mut k: usize = 0;
    proof {
        lemma_pow1(x as int);
    }
    while k < size
        invariant
            k <= size,
            row.len() == k,
            base@ == (x as int) % modulus(),
            y@ == field_pow(x as int, (k + 1) as nat),
            is_power_row(row@, x as int),
        decreases size - k,
    {
        proof {
            lemma_field_pow_step(x as int, (k + 1) as nat);
        }
        row.push(y);
        y = y.mul(base);
        k = k + 1;
    }
    row
}

fn zeros(size: usize) -> (v: Vec<ModularInteger>)
    ensures
        v.len() == size,
        forall|i: int| 0 <= i < size ==> (#[trigger] v[i])@ == 0,
{
    let mut v: Vec<ModularInteger> = Vec::new();
    let mut i: usize = 0;
    while i < size
        invariant
            i <= size,
            v.len() == i,
            forall|k: int| 0 <= k < i ==> (#[trigger] v[k])@ == 0,
        decreases size - i,
    {
        v.push(ModularInteger::zero());
        i = i + 1;
    }
    v
}

fn copy_of(source: &Vec<ModularInteger>) -> (v: Vec<ModularInteger>)
    ensures
        v@ == source@,
{
    let mut v: Vec<ModularInteger> = Vec::new();
    let mut i: usize = 0;
    while i < source.len()
        invariant
            i <= source.len(),
            v@ == source@.take(i as int),
        decreases source.len() - i,
    {
        v.push(source[i]);
        proof {
            assert(source@.take(i + 1) =~= source@.take(i as int).push(source[i as int]));
        }
        i = i + 1;
    }
    proof {
        assert(source@.take(source.len() as int) =~= source@);
    }
    v
}

/// A power-sum quACK with a table of the powers of the small identifiers.
#[derive(Debug)]
pub struct PowerTableQuack {
    table: Vec<Vec<ModularInteger>>,
    power_sums: Vec<ModularInteger>,
    count: u16,
}

impl View for PowerTableQuack {
    type V = QuackState;

    closed spec fn view(&self) -> QuackState {
        QuackState { power_sums: values(self.power_sums@), count: self.count as int }
    }
}

impl PowerTableQuack {
    #[verifier::type_invariant]
    spec fn tabulated(self) -> bool {
        forall|x: int|
            0 <= x < self.table.len() ==> (#[trigger] self.table[x]).len() == self.power_sums.len()
                && is_power_row(self.table[x]@, x)
    }

    /// An empty sketch that can decode up to `size` missing identifiers.
    pub fn new(size: usize) -> (r: Self)
        ensures
            r@ == QuackState::empty(size as nat),
            r@.wf(),
    {
        let mut table: Vec<Vec<ModularInteger>> = Vec::new();
        let mut x: usize = 0;
        while x < TABLE_SIZE
            invariant
                x <= TABLE_SIZE,
                table.len() == x,
                forall|i: int|
                    0 <= i < x ==> (#[trigger] table[i]).len() == size && is_power_row(
                        table[i]@,
                        i,
                    ),
            decreases TABLE_SIZE - x,
        {
            table.push(power_row(x as u32, size));
            x = x + 1;
        }
        let r = PowerTableQuack { table, power_sums: zeros(size), count: 0 };
        proof {
            assert(r@.power_sums =~= QuackState::empty(size as nat).power_sums);
        }
        r
    }

    /// Puts an identifier into the sketch: from the table where the table
    /// covers it, by a running product where it does not. The count wraps
    /// at 2^16.
    pub fn insert(&mut self, value: Identifier)
        ensures
            final(self)@ == old(self)@.insert(value as int),
            final(self)@.wf(),
    {
        proof {
            use_type_invariant(&*self);
        }
        let size = self.power_sums.len();
        let tabulated = (value as usize) < self.table.len();
        let x = ModularInteger::new(value);
        let mut y = x;
        let mut i: usize = 0;
        proof {
            lemma_pow1(value as int);
        }
        while i < size
            invariant
                i <= size,
                size == self.power_sums.len(),
                size == old(self).power_sums.len(),
                self.count == old(self).count,
                self.table == old(self).table,
                tabulated == ((value as usize) < self.table.len()),
                x@ == (value as int) % modulus(),
                !tabulated && i < size ==> y@ == field_pow(value as int, (i + 1) as nat),
                forall|k: int|
                    0 <= k < i ==> (#[trigger] self.power_sums[k])@ == field_add(
                        old(self).power_sums[k]@,
                        field_pow(value as int, (k + 1) as nat),
                    ),
                forall|k: int| i <= k < size ==> self.power_sums[k] == old(self).power_sums[k],
            decreases size - i,
        {
            proof {
                use_type_invariant(&*self);
                lemma_field_pow_step(value as int, (i + 1) as nat);
            }
            if tabulated {
                let row = &self.table[value as usize];
                let power = row[i];
                proof {
                    assert(is_power_row(self.table[value as int]@, value as int));
                }
                let sum = self.power_sums[i].add(power);
                self.power_sums[i] = sum;
            } else {
                let sum = self.power_sums[i].add(y);
                self.power_sums[i] = sum;
                if i + 1 < size {
                    y = y.mul(x);
                }
            }
            i = i + 1;
        }
        if self.count == u16::MAX {
            self.count = 0;
        } else {
            self.count = self.count + 1;
        }
        proof {
            assert(self@.power_sums =~= old(self)@.insert(value as int).power_sums);
        }
    }

    /// Takes an identifier out of the sketch. The count wraps at 2^16.
    pub fn remove(&mut self, value: Identifier)
        ensures
            final(self)@ == old(self)@.remove(value as int),
            final(self)@.wf(),
    {
        proof {
            use_type_invariant(&*self);
        }
        let size = self.power_sums.len();
        let tabulated = (value as usize) < self.table.len();
        let x = ModularInteger::new(value);
        let mut y = x;
        let mut i: usize = 0;
        proof {
            lemma_pow1(value as int);
        }
        while i < size
            invariant
                i <= size,
                size == self.power_sums.len(),
                size == old(self).power_sums.len(),
                self.count == old(self).count,
                self.table == old(self).table,
                tabulated == ((value as usize) < self.table.len()),
                x@ == (value as int) % modulus(),
                !tabulated && i < size ==> y@ == field_pow(value as int, (i + 1) as nat),
                forall|k: int|
                    0 <= k < i ==> (#[trigger] self.power_sums[k])@ == field_sub(
                        old(self).power_sums[k]@,
                        field_pow(value as int, (k + 1) as nat),
                    ),
                forall|k: int| i <= k < size ==> self.power_sums[k] == old(self).power_sums[k],
            decreases size - i,
        {
            proof {
                use_type_invariant(&*self);
                lemma_field_pow_step(value as int, (i + 1) as nat);
            }
            if tabulated {
                let row = &self.table[value as usize];
                let power = row[i];
                proof {
                    assert(is_power_row(self.table[value as int]@, value as int));
                }
                let rest = self.power_sums[i].sub(power);
                self.power_sums[i] = rest;
            } else {
                let rest = self.power_sums[i].sub(y);
                self.power_sums[i] = rest;
                if i + 1 < size {
                    y = y.mul(x);
                }
            }
            i = i + 1;
        }
        if self.count == 0 {
            self.count = u16::MAX;
        } else {
            self.count = self.count - 1;
        }
        proof {
            assert(self@.power_sums =~= old(self)@.remove(value as int).power_sums);
        }
    }

    /// The threshold: how many missing identifiers the sketch can decode.
    pub fn threshold(&self) -> (t: usize)
        ensures
            t == self@.threshold(),
    {
        self.power_sums.len()
    }

    /// How many identifiers were put in, less those taken out, modulo 2^16.
    pub fn count(&self) -> (n: u16)
        ensures
            n == self@.count,
    {
        self.count
    }

    /// Subtracts `rhs` from the sketch, power sum by power sum. The counts
    /// are subtracted modulo 2^16.
    pub fn sub_assign(&mut self, rhs: Self)
        requires
            old(self)@.threshold() == rhs@.threshold(),
        ensures
            final(self)@ == old(self)@.difference(rhs@),
            final(self)@.wf(),
    {
        let size = self.power_sums.len();
        let mut i: usize = 0;
        while i < size
            invariant
                i <= size,
                size == self.power_sums.len(),
                size == old(self).power_sums.len(),
                size == rhs.power_sums.len(),
                self.count == old(self).count,
                self.table == old(self).table,
                forall|k: int|
                    0 <= k < i ==> (#[trigger] self.power_sums[k])@ == field_sub(
                        old(self).power_sums[k]@,
                        rhs.power_sums[k]@,
                    ),
                forall|k: int| i <= k < size ==> self.power_sums[k] == old(self).power_sums[k],
            decreases size - i,
        {
            proof {
                use_type_invariant(&*self);
            }
            let rest = self.power_sums[i].sub(rhs.power_sums[i]);
            self.power_sums[i] = rest;
            i = i + 1;
        }
        proof {
            use_type_invariant(&*self);
        }
        if self.count >= rhs.count {
            self.count = self.count - rhs.count;
        } else {
            self.count = (u16::MAX - rhs.count) + self.count + 1;
        }
        proof {
            assert(self@.power_sums =~= old(self)@.difference(rhs@).power_sums);
        }
    }

    /// The same sketch without the table.
    pub fn to_power_sum_quack(&self) -> (r: PowerSumQuack)
        ensures
            r@ == self@,
    {
        PowerSumQuack::from_parts(copy_of(&self.power_sums), self.count)
    }

    /// The identifiers of `log`, in the order of the log, that the sketch
    /// says are missing: what the plain sketch in the same state says.
    pub fn decode_with_log(&self, log: &Vec<Identifier>) -> (missing: Vec<Identifier>)
        requires
            self@.count <= self@.threshold(),
        ensures
            missing@ == roots_in_log(self@.coefficients(), log@),
    {
        self.to_power_sum_quack().decode_with_log(log)
    }
}

impl Quack for PowerTableQuack {
    open spec fn state(&self) -> QuackState {
        self@
    }

    fn new(size: usize) -> (r: Self) {
        PowerTableQuack::new(size)
    }

    fn insert(&mut self, value: Identifier) {
        PowerTableQuack::insert(self, value)
    }

    fn remove(&mut self, value: Identifier) {
        PowerTableQuack::remove(self, value)
    }

    fn threshold(&self) -> (t: usize) {
        PowerTableQuack::threshold(self)
    }

    fn count(&self) -> (n: u16) {
        PowerTableQuack::count(self)
    }
}

impl vstd::std_specs::ops::SubSpecImpl for PowerTableQuack {
    open spec fn obeys_sub_spec() -> bool {
        false
    }

    open spec fn sub_req(self, rhs: PowerTableQuack) -> bool {
        self@.threshold() == rhs@.threshold()
    }

    open spec fn sub_spec(self, rhs: PowerTableQuack) -> PowerTableQuack {
        self
    }
}

impl core::ops::Sub for PowerTableQuack {
    type Output = PowerTableQuack;

    /// The sketch less `rhs`: of two sketches with the same threshold.
    fn sub(self, rhs: PowerTableQuack) -> (r: PowerTableQuack)
        ensures
            r@ == self@.difference(rhs@),
            r@.wf(),
    {
        let mut result = self;
        result.sub_assign(rhs);
        result
    }
}

} // verus!
