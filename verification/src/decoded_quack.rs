//! The result of decoding a sketch against a log: where in the log the
//! missing identifiers are, and how many of them are its tail.
use crate::arithmetic::evaluator::{is_root, MonicPolynomialEvaluator};
use crate::arithmetic::modint::values;
use crate::quack::{roots_in_log, Identifier, PowerSumQuack, QuackState};
use vstd::prelude::*;
use vstd::slice::slice_subrange;

verus! {

/// The identifiers that a sender has sent, in the order in which it sent
/// them. An identifier may occur more than once.
pub type IdentifierLog = Vec<Identifier>;

/// The indexes `0, 1, .., n - 1`.
pub open spec fn indexes_below(n: nat) -> Seq<usize> {
    Seq::new(n, |i: int| i as usize)
}

/// The indexes into `log`, in increasing order, of the entries that are
/// roots of the monic polynomial with the coefficients `coeffs`.
pub open spec fn root_indexes(coeffs: Seq<int>, log: Seq<Identifier>) -> Seq<usize> {
    indexes_below(log.len()).filter(|i: usize| is_root(coeffs, log[i as int] as int))
}

/// How many of the last entries of `indexes` are the last indexes into a log
/// of `log_len` entries: the length of the run `.., log_len - 2, log_len - 1`
/// that `indexes` ends with.
pub open spec fn suffix_length(indexes: Seq<usize>, log_len: nat) -> nat
    decreases indexes.len(),
{
    if indexes.len() > 0 && indexes.last() + 1 == log_len {
        1 + suffix_length(indexes.drop_last(), (log_len - 1) as nat)
    } else {
        0
    }
}

/// Whether the last `len` entries of `indexes` are exactly the last `len`
/// indexes into a log of `log_len` entries, in order.
pub open spec fn ends_with_tail(indexes: Seq<usize>, log_len: nat, len: nat) -> bool {
    &&& len <= indexes.len()
    &&& forall|j: int|
        0 <= j < len ==> #[trigger] indexes[indexes.len() - len + j] == log_len - len + j
}

/// The run that [`suffix_length`] measures is a tail of the log's indexes.
pub proof fn lemma_suffix_is_tail(indexes: Seq<usize>, log_len: nat)
    ensures
        ends_with_tail(indexes, log_len, suffix_length(indexes, log_len)),
    decreases indexes.len(),
{
    if indexes.len() > 0 && indexes.last() + 1 == log_len {
        let rest = indexes.drop_last();
        let m = suffix_length(rest, (log_len - 1) as nat);
        lemma_suffix_is_tail(rest, (log_len - 1) as nat);
        assert forall|j: int| 0 <= j < m + 1 implies #[trigger] indexes[indexes.len() - (m + 1) + j]
            == log_len - (m + 1) + j by {
            if j < m {
                assert(rest[rest.len() - m + j] == log_len - 1 - m + j);
            }
        }
    }
}

/// No tail of the log's indexes that `indexes` ends with is longer than the
/// run that [`suffix_length`] measures.
pub proof fn lemma_suffix_is_longest(indexes: Seq<usize>, log_len: nat, len: nat)
    requires
        ends_with_tail(indexes, log_len, len),
    ensures
        len <= suffix_length(indexes, log_len),
    decreases indexes.len(),
{
    if len > 0 {
        assert(indexes[indexes.len() - len + (len - 1)] == log_len - len + (len - 1));
        let rest = indexes.drop_last();
        assert forall|j: int| 0 <= j < len - 1 implies #[trigger] rest[rest.len() - (len - 1) + j]
            == (log_len - 1) - (len - 1) + j by {
            assert(indexes[indexes.len() - len + j] == log_len - len + j);
        }
        lemma_suffix_is_longest(rest, (log_len - 1) as nat, (len - 1) as nat);
    }
}

/// Filters that agree on every entry of a sequence keep the same entries.
proof fn lemma_filter_agree<A>(s: Seq<A>, p: spec_fn(A) -> bool, q: spec_fn(A) -> bool)
    requires
        forall|i: int| 0 <= i < s.len() ==> p(#[trigger] s[i]) == q(s[i]),
    ensures
        s.filter(p) == s.filter(q),
    decreases s.len(),
{
    reveal(Seq::filter);
    if s.len() > 0 {
        let rest = s.drop_last();
        assert forall|i: int| 0 <= i < rest.len() implies p(#[trigger] rest[i]) == q(rest[i]) by {
            assert(rest[i] == s[i]);
        }
        lemma_filter_agree(rest, p, q);
        assert(p(s[s.len() - 1]) == q(s[s.len() - 1]));
    }
}

/// The indexes found are those of the entries found: decoding to indexes
/// and decoding to identifiers find the same entries of the log, in the
/// same order.
pub proof fn lemma_indexes_of_roots(coeffs: Seq<int>, log: Seq<Identifier>)
    requires
        log.len() <= usize::MAX,
    ensures
        root_indexes(coeffs, log).len() == roots_in_log(coeffs, log).len(),
        forall|k: int|
            0 <= k < root_indexes(coeffs, log).len() ==> 0 <= #[trigger] root_indexes(
                coeffs,
                log,
            )[k] < log.len() && roots_in_log(coeffs, log)[k] == log[root_indexes(
                coeffs,
                log,
            )[k] as int],
    decreases log.len(),
{
    reveal(Seq::filter);
    if log.len() > 0 {
        let rest = log.drop_last();
        let n = log.len();
        lemma_indexes_of_roots(coeffs, rest);
        let all = indexes_below(n);
        let fewer = indexes_below((n - 1) as nat);
        let here = |i: usize| is_root(coeffs, log[i as int] as int);
        let there = |i: usize| is_root(coeffs, rest[i as int] as int);
        assert(all.drop_last() =~= fewer);
        assert forall|i: int| 0 <= i < fewer.len() implies here(#[trigger] fewer[i]) == there(
            fewer[i],
        ) by {
            assert(log[i] == rest[i]);
        }
        lemma_filter_agree(fewer, here, there);
        assert(root_indexes(coeffs, rest) == fewer.filter(there));
        assert(all.last() == (n - 1) as usize);
        assert(here(all.last()) == is_root(coeffs, log[n - 1] as int));
        assert(root_indexes(coeffs, log) == if is_root(coeffs, log[n - 1] as int) {
            fewer.filter(here).push((n - 1) as usize)
        } else {
            fewer.filter(here)
        });
        assert(roots_in_log(coeffs, log) == if is_root(coeffs, log[n - 1] as int) {
            roots_in_log(coeffs, rest).push(log[n - 1])
        } else {
            roots_in_log(coeffs, rest)
        });
    }
}

/// What a decoded sketch stands for.
pub struct DecodedState {
    /// The sketch that was decoded.
    pub quack: QuackState,
    /// The log that it was decoded against.
    pub log: Seq<Identifier>,
    /// The indexes into the log of the identifiers found missing.
    pub indexes: Seq<usize>,
}

/// A sketch decoded against a log.
#[derive(Debug)]
pub struct DecodedQuack<'a> {
    quack: &'a PowerSumQuack,
    log: &'a IdentifierLog,
    // Indexes of the missing packets in the identifier log.
    indexes: Vec<usize>,
}

impl<'a> View for DecodedQuack<'a> {
    type V = DecodedState;

    closed spec fn view(&self) -> DecodedState {
        DecodedState { quack: self.quack@, log: self.log@, indexes: self.indexes@ }
    }
}

impl<'a> DecodedQuack<'a> {
    /// Decodes `quack` against `log`: finds the entries of the log that are
    /// roots of the sketch's polynomial.
    pub fn decode(quack: &'a PowerSumQuack, log: &'a IdentifierLog) -> (r: Self)
        requires
            quack@.count <= quack@.threshold(),
        ensures
            r@.quack == quack@,
            r@.log == log@,
            r@.indexes == root_indexes(quack@.coefficients(), log@),
    {
        let num_packets = log.len();
        let coeffs = quack.to_coeffs();
        let ghost c = quack@.coefficients();
        let mut indexes: Vec<usize> = Vec::new();
        let mut i: usize = 0;
        proof {
            reveal(Seq::filter);
            assert(indexes_below(0) =~= Seq::<usize>::empty());
        }
        while i < num_packets
            invariant
                i <= num_packets,
                num_packets == log.len(),
                values(coeffs@) == c,
                indexes@ == indexes_below(i as nat).filter(
                    |k: usize| is_root(c, log@[k as int] as int),
                ),
            decreases num_packets - i,
        {
            proof {
                reveal(Seq::filter);
                assert(indexes_below((i + 1) as nat).drop_last() =~= indexes_below(i as nat));
            }
            if MonicPolynomialEvaluator::eval(&coeffs, log[i]).is_zero() {
                indexes.push(i);
            }
            i = i + 1;
        }
        DecodedQuack { quack, log, indexes }
    }

    /// The indexes into the log of all the identifiers found missing, in
    /// increasing order.
    pub fn indexes(&self) -> (r: &Vec<usize>)
        ensures
            r@ == self@.indexes,
    {
        &self.indexes
    }

    /// The number of consecutive missing packets at the end of the identifier
    /// log. These packets were likely in transit when the quACK was sent.
    pub fn num_suffix(&self) -> (n: usize)
        ensures
            n == suffix_length(self@.indexes, self@.log.len()),
    {
        let mut end: usize = self.log.len();
        let mut count: usize = 0;
        let mut i: usize = self.indexes.len();
        proof {
            assert(self.indexes@.take(i as int) =~= self.indexes@);
        }
        while i > 0 && end > 0 && self.indexes[i - 1] == end - 1
            invariant
                i <= self.indexes.len(),
                count + i == self.indexes.len(),
                count + suffix_length(self.indexes@.take(i as int), end as nat) == suffix_length(
                    self.indexes@,
                    self.log@.len(),
                ),
            decreases i,
        {
            proof {
                assert(self.indexes@.take(i as int).drop_last() =~= self.indexes@.take(i - 1));
            }
            end = end - 1;
            count = count + 1;
            i = i - 1;
        }
        count
    }

    /// The number of missing packets outside of the suffix of missing packets.
    /// It is more likely that these were dropped.
    pub fn num_missing(&self) -> (n: usize)
        ensures
            n == self@.indexes.len() - suffix_length(self@.indexes, self@.log.len()),
    {
        proof {
            lemma_suffix_is_tail(self@.indexes, self@.log.len());
        }
        self.total_num_missing() - self.num_suffix()
    }

    /// The total number of missing packets = num_suffix() + num_missing().
    pub fn total_num_missing(&self) -> (n: usize)
        ensures
            n == self@.indexes.len(),
    {
        self.indexes.len()
    }

    /// The indexes of the missing packets outside of the suffix of the missing
    /// packets. Note that the total number of missing of packets plus the
    /// number of missing packets in the suffix may exceed the count in the
    /// quACK due to false positives.
    pub fn missing(&self) -> (r: &[usize])
        ensures
            r@ == self@.indexes.take(
                self@.indexes.len() - suffix_length(self@.indexes, self@.log.len()),
            ),
    {
        proof {
            lemma_suffix_is_tail(self@.indexes, self@.log.len());
        }
        let end = self.total_num_missing() - self.num_suffix();
        slice_subrange(self.indexes.as_slice(), 0, end)
    }
}

} // verus!
