//! The algebra of sketches: that putting in and taking out undo each other,
//! that the order of the identifiers does not matter, and that subtracting
//! the sketch of a part leaves the sketch of the rest.
use crate::arithmetic::evaluator::is_root;
use crate::arithmetic::field::modulus;
use crate::arithmetic::roots::{
    from_roots, is_factorization, is_one_of, lemma_factorization_unique,
    lemma_from_roots_len, lemma_from_roots_of_residues, lemma_roots_of_product, residues,
};
use crate::newton::{are_power_sums_of, int_power_sum, lemma_newton_recovers_polynomial};
use crate::quack::{roots_in_log, Identifier, QuackState};
use vstd::arithmetic::div_mod::*;
use vstd::arithmetic::power::pow;
use vstd::prelude::*;
use vstd::seq_lib::*;

verus! {

/// The sum of the `e`-th powers of the identifiers of `xs`, as an integer.
pub open spec fn power_sum(xs: Seq<Identifier>, e: nat) -> int
    decreases xs.len(),
{
    if xs.len() == 0 {
        0
    } else {
        power_sum(xs.drop_last(), e) + pow(xs.last() as int, e)
    }
}

/// The sketch `s` with the power sums of `xs` added to its own, and the
/// number of them to its count.
pub open spec fn with_power_sums(s: QuackState, xs: Seq<Identifier>) -> QuackState {
    QuackState {
        power_sums: Seq::new(
            s.power_sums.len(),
            |k: int| (s.power_sums[k] + power_sum(xs, (k + 1) as nat)) % modulus(),
        ),
        count: (s.count + xs.len()) % 65536,
    }
}

/// Putting an identifier in and taking it out again, in either order, leaves
/// every power sum and the count as they were.
pub proof fn lemma_insert_remove_inverse(s: QuackState, x: Identifier)
    requires
        s.wf(),
    ensures
        s.insert(x as int).remove(x as int) == s,
        s.remove(x as int).insert(x as int) == s,
{
    assert(s.insert(x as int).remove(x as int).power_sums =~= s.power_sums);
    assert(s.remove(x as int).insert(x as int).power_sums =~= s.power_sums);
}

/// Entry `k` of a sketch is the sum of the `(k+1)`-th powers of what was put
/// in, reduced: after putting `xs` into `s`, each power sum of `s` has grown
/// by the power sum of `xs`, and the count by the length of `xs`.
pub proof fn lemma_insert_all_adds_power_sums(s: QuackState, xs: Seq<Identifier>)
    requires
        s.wf(),
    ensures
        s.insert_all(xs) == with_power_sums(s, xs),
        s.insert_all(xs).wf(),
    decreases xs.len(),
{
    if xs.len() == 0 {
        assert(with_power_sums(s, xs).power_sums =~= s.power_sums);
    } else {
        let rest = xs.drop_last();
        let x = xs.last() as int;
        lemma_insert_all_adds_power_sums(s, rest);
        let before = s.insert_all(rest);
        assert forall|k: int| 0 <= k < s.power_sums.len() implies #[trigger] before.insert(
            x,
        ).power_sums[k] == with_power_sums(s, xs).power_sums[k] by {
            let e = (k + 1) as nat;
            lemma_add_mod_noop(s.power_sums[k] + power_sum(rest, e), pow(x, e), modulus());
        }
        assert(before.insert(x).power_sums =~= with_power_sums(s, xs).power_sums);
    }
}

/// The power sum of a sequence is that of the sequence without one entry,
/// plus that entry's power.
pub proof fn lemma_power_sum_remove(xs: Seq<Identifier>, i: int, e: nat)
    requires
        0 <= i < xs.len(),
    ensures
        power_sum(xs, e) == power_sum(xs.remove(i), e) + pow(xs[i] as int, e),
    decreases xs.len(),
{
    if i == xs.len() - 1 {
        assert(xs.remove(i) =~= xs.drop_last());
    } else {
        lemma_power_sum_remove(xs.drop_last(), i, e);
        assert(xs.remove(i).drop_last() =~= xs.drop_last().remove(i));
    }
}

/// The power sum of a concatenation is the sum of the power sums.
pub proof fn lemma_power_sum_concat(xs: Seq<Identifier>, ys: Seq<Identifier>, e: nat)
    ensures
        power_sum(xs + ys, e) == power_sum(xs, e) + power_sum(ys, e),
    decreases ys.len(),
{
    if ys.len() == 0 {
        assert(xs + ys =~= xs);
    } else {
        lemma_power_sum_concat(xs, ys.drop_last(), e);
        assert((xs + ys).drop_last() =~= xs + ys.drop_last());
    }
}

/// Power sums do not depend on the order of the identifiers.
pub proof fn lemma_power_sum_permutation(xs: Seq<Identifier>, ys: Seq<Identifier>, e: nat)
    requires
        xs.to_multiset() == ys.to_multiset(),
    ensures
        power_sum(xs, e) == power_sum(ys, e),
    decreases xs.len(),
{
    to_multiset_len(xs);
    to_multiset_len(ys);
    if xs.len() > 0 {
        let x = xs.last();
        let last = xs.len() - 1;
        assert(xs.contains(x)) by {
            assert(xs[last] == x);
        }
        to_multiset_contains(xs, x);
        to_multiset_contains(ys, x);
        let j = choose|j: int| 0 <= j < ys.len() && ys[j] == x;
        to_multiset_remove(xs, last);
        to_multiset_remove(ys, j);
        assert(xs.remove(last) =~= xs.drop_last());
        lemma_power_sum_permutation(xs.drop_last(), ys.remove(j), e);
        lemma_power_sum_remove(ys, j, e);
    }
}

/// The state of a sketch after putting in a multiset of identifiers does not
/// depend on the order in which they were put in.
pub proof fn lemma_insert_all_commutes(s: QuackState, xs: Seq<Identifier>, ys: Seq<Identifier>)
    requires
        s.wf(),
        xs.to_multiset() == ys.to_multiset(),
    ensures
        s.insert_all(xs) == s.insert_all(ys),
{
    lemma_insert_all_adds_power_sums(s, xs);
    lemma_insert_all_adds_power_sums(s, ys);
    to_multiset_len(xs);
    to_multiset_len(ys);
    assert forall|k: int| 0 <= k < s.power_sums.len() implies #[trigger] with_power_sums(
        s,
        xs,
    ).power_sums[k] == with_power_sums(s, ys).power_sums[k] by {
        lemma_power_sum_permutation(xs, ys, (k + 1) as nat);
    }
    assert(with_power_sums(s, xs).power_sums =~= with_power_sums(s, ys).power_sums);
}

/// The sketch of a union less the sketch of one part is the sketch of the
/// other: where `all` holds the identifiers of `part` and of `rest`
/// together, in any order, and the three sketches start empty with one
/// threshold. The counts are subtracted modulo 2^16.
pub proof fn lemma_difference_of_union(
    threshold: nat,
    all: Seq<Identifier>,
    part: Seq<Identifier>,
    rest: Seq<Identifier>,
)
    requires
        all.to_multiset() == rest.to_multiset().add(part.to_multiset()),
    ensures
        QuackState::empty(threshold).insert_all(all).difference(
            QuackState::empty(threshold).insert_all(part),
        ) == QuackState::empty(threshold).insert_all(rest),
{
    let empty = QuackState::empty(threshold);
    lemma_multiset_commutative(rest, part);
    lemma_insert_all_commutes(empty, all, rest + part);
    lemma_insert_all_adds_power_sums(empty, rest + part);
    lemma_insert_all_adds_power_sums(empty, part);
    lemma_insert_all_adds_power_sums(empty, rest);
    let lhs = with_power_sums(empty, rest + part).difference(with_power_sums(empty, part));
    let rhs = with_power_sums(empty, rest);
    assert forall|k: int| 0 <= k < threshold implies #[trigger] lhs.power_sums[k]
        == rhs.power_sums[k] by {
        let e = (k + 1) as nat;
        lemma_power_sum_concat(rest, part, e);
        lemma_sub_mod_noop(power_sum(rest + part, e), power_sum(part, e), modulus());
    }
    assert(lhs.power_sums =~= rhs.power_sums);
}

/// The identifiers of `xs` as integers.
pub open spec fn as_ints(xs: Seq<Identifier>) -> Seq<int> {
    Seq::new(xs.len(), |i: int| xs[i] as int)
}

proof fn lemma_power_sum_as_ints(xs: Seq<Identifier>, e: nat)
    ensures
        power_sum(xs, e) == int_power_sum(as_ints(xs), e),
    decreases xs.len(),
{
    if xs.len() > 0 {
        lemma_power_sum_as_ints(xs.drop_last(), e);
        assert(as_ints(xs).drop_last() =~= as_ints(xs.drop_last()));
    }
}

/// The polynomial of a sketch is the one whose roots are what was put in:
/// where no more identifiers than the threshold, and fewer than 2^16, were
/// put into an empty sketch, its count is their number and its coefficients
/// are those of the product of the linear factors `x - xs[i]`.
pub proof fn lemma_sketch_polynomial(threshold: nat, xs: Seq<Identifier>)
    requires
        xs.len() <= threshold,
        xs.len() < 65536,
    ensures
        QuackState::empty(threshold).insert_all(xs).count == xs.len(),
        QuackState::empty(threshold).insert_all(xs).coefficients() == from_roots(as_ints(xs)),
{
    let empty = QuackState::empty(threshold);
    let q = empty.insert_all(xs);
    lemma_insert_all_adds_power_sums(empty, xs);
    assert forall|j: int| 0 <= j < q.power_sums.len() implies #[trigger] q.power_sums[j]
        == int_power_sum(as_ints(xs), (j + 1) as nat) % modulus() by {
        lemma_power_sum_as_ints(xs, (j + 1) as nat);
    }
    assert(are_power_sums_of(q.power_sums, as_ints(xs)));
    lemma_newton_recovers_polynomial(q.power_sums, as_ints(xs));
}

/// Decoding finds what is in the sketch, and nothing else but what collides
/// with it: where no more identifiers than the threshold, and fewer than
/// 2^16, were put into an empty sketch, `x` is a root of the sketch's
/// polynomial exactly if it is congruent to one of them modulo the field
/// modulus.
pub proof fn lemma_roots_are_the_identifiers(threshold: nat, xs: Seq<Identifier>, x: Identifier)
    requires
        xs.len() <= threshold,
        xs.len() < 65536,
    ensures
        is_root(QuackState::empty(threshold).insert_all(xs).coefficients(), x as int)
            <==> is_one_of(as_ints(xs), x as int),
{
    lemma_sketch_polynomial(threshold, xs);
    lemma_roots_of_product(as_ints(xs), x as int);
}

/// Every identifier in a sketch is a root of its polynomial.
pub proof fn lemma_identifiers_are_roots(threshold: nat, xs: Seq<Identifier>, i: int)
    requires
        xs.len() <= threshold,
        xs.len() < 65536,
        0 <= i < xs.len(),
    ensures
        is_root(QuackState::empty(threshold).insert_all(xs).coefficients(), xs[i] as int),
{
    lemma_roots_are_the_identifiers(threshold, xs, xs[i]);
    assert((xs[i] as int - as_ints(xs)[i]) % modulus() == 0);
}

/// The entries of `log`, in order, that are congruent to one of `xs` modulo
/// the field modulus.
pub open spec fn entries_among(xs: Seq<Identifier>, log: Seq<Identifier>) -> Seq<Identifier> {
    log.filter(|x: Identifier| is_one_of(as_ints(xs), x as int))
}

/// Decoding against a log returns the entries of the log that are in the
/// sketch, or collide with one that is: where no more identifiers than the
/// threshold, and fewer than 2^16, were put into an empty sketch.
pub proof fn lemma_decode_with_log_finds_the_identifiers(
    threshold: nat,
    xs: Seq<Identifier>,
    log: Seq<Identifier>,
)
    requires
        xs.len() <= threshold,
        xs.len() < 65536,
    ensures
        roots_in_log(QuackState::empty(threshold).insert_all(xs).coefficients(), log)
            == entries_among(xs, log),
    decreases log.len(),
{
    reveal(Seq::filter);
    if log.len() > 0 {
        lemma_decode_with_log_finds_the_identifiers(threshold, xs, log.drop_last());
        lemma_roots_are_the_identifiers(threshold, xs, log.last());
    }
}

/// Decoding the difference of two sketches against a log returns the
/// entries of the log that are in the one and not in the other, or collide
/// with one that is: where `all` holds the identifiers of `part` and of
/// `rest` together, and `rest` no more than the threshold and fewer than
/// 2^16.
pub proof fn lemma_difference_decodes_to_the_rest(
    threshold: nat,
    all: Seq<Identifier>,
    part: Seq<Identifier>,
    rest: Seq<Identifier>,
    log: Seq<Identifier>,
)
    requires
        all.to_multiset() == rest.to_multiset().add(part.to_multiset()),
        rest.len() <= threshold,
        rest.len() < 65536,
    ensures
        roots_in_log(
            QuackState::empty(threshold).insert_all(all).difference(
                QuackState::empty(threshold).insert_all(part),
            ).coefficients(),
            log,
        ) == entries_among(rest, log),
{
    lemma_difference_of_union(threshold, all, part, rest);
    lemma_decode_with_log_finds_the_identifiers(threshold, rest, log);
}

/// Factoring finds what is in the sketch: where no more identifiers than
/// the threshold, and fewer than 2^16, were put into an empty sketch, their
/// residues are a factorization of its polynomial, and every factorization
/// of it holds the same roots as often.
pub proof fn lemma_factorization_finds_the_identifiers(
    threshold: nat,
    xs: Seq<Identifier>,
    roots: Seq<int>,
)
    requires
        xs.len() <= threshold,
        xs.len() < 65536,
    ensures
        is_factorization(
            QuackState::empty(threshold).insert_all(xs).coefficients(),
            residues(as_ints(xs)),
        ),
        is_factorization(QuackState::empty(threshold).insert_all(xs).coefficients(), roots)
            ==> roots.to_multiset() == residues(as_ints(xs)).to_multiset(),
{
    let coeffs = QuackState::empty(threshold).insert_all(xs).coefficients();
    lemma_sketch_polynomial(threshold, xs);
    lemma_from_roots_of_residues(as_ints(xs));
    lemma_from_roots_len(as_ints(xs));
    if is_factorization(coeffs, roots) {
        lemma_factorization_unique(coeffs, roots, residues(as_ints(xs)));
    }
}

} // verus!
