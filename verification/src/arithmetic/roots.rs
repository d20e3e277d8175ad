//! Monic polynomials that are products of linear factors: what their
//! coefficients are, and that their roots are exactly the roots of the
//! factors.
use crate::arithmetic::evaluator::{eval_monic, is_root};
use crate::arithmetic::field::{
    field_add, field_mul, field_sub, is_element, lemma_add_congruent, lemma_field_add_mul,
    lemma_field_sub_mul, lemma_mul_congruent, lemma_no_zero_divisors, modulus,
};
use vstd::prelude::*;

verus! {

/// The coefficients of `(x - r) * f(x)`, where `f` is the monic polynomial
/// with the coefficients `coeffs`: coefficient `k` is `c[k] - r * c[k-1]`,
/// with 1 before the first coefficient and 0 after the last.
pub open spec fn times_linear(coeffs: Seq<int>, r: int) -> Seq<int> {
    Seq::new(
        coeffs.len() + 1,
        |k: int|
            field_sub(
                if k < coeffs.len() {
                    coeffs[k]
                } else {
                    0
                },
                field_mul(
                    r,
                    if k > 0 {
                        coeffs[k - 1]
                    } else {
                        1
                    },
                ),
            ),
    )
}

/// The coefficients of the monic polynomial `(x - r0) (x - r1) ..` whose
/// roots, each as often as it occurs, are `roots`.
pub open spec fn from_roots(roots: Seq<int>) -> Seq<int>
    decreases roots.len(),
{
    if roots.len() == 0 {
        Seq::empty()
    } else {
        times_linear(from_roots(roots.drop_last()), roots.last())
    }
}

/// Whether `x` is congruent to one of `roots`.
pub open spec fn is_one_of(roots: Seq<int>, x: int) -> bool {
    exists|i: int| 0 <= i < roots.len() && (x - #[trigger] roots[i]) % modulus() == 0
}

/// A product of linear factors has as many coefficients as factors.
pub proof fn lemma_from_roots_len(roots: Seq<int>)
    ensures
        from_roots(roots).len() == roots.len(),
    decreases roots.len(),
{
    if roots.len() > 0 {
        lemma_from_roots_len(roots.drop_last());
    }
}

/// The step of [`lemma_eval_times_linear_prefix`], on plain integers.
proof fn lemma_times_linear_step(
    d1: int,
    dk: int,
    e0: int,
    e1: int,
    c0: int,
    ck: int,
    x: int,
    r: int,
)
    requires
        d1 % modulus() == (e0 * (x - r) + c0) % modulus(),
        e1 % modulus() == (e0 * x + c0) % modulus(),
        dk % modulus() == (ck - r * c0) % modulus(),
    ensures
        (d1 * x + dk) % modulus() == (e1 * (x - r) + ck) % modulus(),
{
    lemma_mul_congruent(d1, e0 * (x - r) + c0, x, x);
    lemma_mul_congruent(e1, e0 * x + c0, x - r, x - r);
    lemma_add_congruent(d1 * x, (e0 * (x - r) + c0) * x, dk, ck - r * c0);
    lemma_add_congruent(e1 * (x - r), (e0 * x + c0) * (x - r), ck, ck);
    assert((e0 * (x - r) + c0) * x + (ck - r * c0) == (e0 * x + c0) * (x - r) + ck)
        by (nonlinear_arith);
}

/// Horner's rule on the first `k + 1` coefficients of `(x - r) * f` gives
/// `(x - r)` times Horner's rule on the first `k` coefficients of `f`, plus
/// coefficient `k` of `f`.
proof fn lemma_eval_times_linear_prefix(coeffs: Seq<int>, r: int, x: int, k: int)
    requires
        0 <= k <= coeffs.len(),
    ensures
        eval_monic(times_linear(coeffs, r).take(k + 1), x) % modulus() == (eval_monic(
            coeffs.take(k),
            x,
        ) * (x - r) + if k < coeffs.len() {
            coeffs[k]
        } else {
            0
        }) % modulus(),
    decreases k,
{
    let p = modulus();
    let d = times_linear(coeffs, r);
    let ck = if k < coeffs.len() {
        coeffs[k]
    } else {
        0
    };
    let c0 = if k > 0 {
        coeffs[k - 1]
    } else {
        1
    };
    let d1 = eval_monic(d.take(k), x);
    let e1 = eval_monic(coeffs.take(k), x);
    assert(d.take(k + 1).drop_last() =~= d.take(k));
    assert(d.take(k + 1).last() == d[k]);
    assert(eval_monic(d.take(k + 1), x) == field_add(field_mul(d1, x), d[k]));
    lemma_field_add_mul(d1, x, d[k]);
    assert(d[k] == field_sub(ck, field_mul(r, c0)));
    lemma_field_sub_mul(ck, r, c0);
    if k == 0 {
        assert(d1 == 1 && e1 == 1);
        lemma_add_congruent(1 * x, 1 * x, d[k], ck - r * 1);
        assert(1 * x + (ck - r * 1) == 1 * (x - r) + ck) by (nonlinear_arith);
    } else {
        lemma_eval_times_linear_prefix(coeffs, r, x, k - 1);
        let e0 = eval_monic(coeffs.take(k - 1), x);
        assert(coeffs.take(k).drop_last() =~= coeffs.take(k - 1));
        assert(coeffs.take(k).last() == c0);
        assert(e1 == field_add(field_mul(e0, x), c0));
        lemma_field_add_mul(e0, x, c0);
        assert(d.take(k - 1 + 1) =~= d.take(k));
        lemma_times_linear_step(d1, d[k], e0, e1, c0, ck, x, r);
    }
}

/// The value of `(x - r) * f` is `(x - r)` times the value of `f`.
pub proof fn lemma_eval_times_linear(coeffs: Seq<int>, r: int, x: int)
    ensures
        eval_monic(times_linear(coeffs, r), x) == field_mul(eval_monic(coeffs, x), x - r),
{
    let d = times_linear(coeffs, r);
    lemma_eval_times_linear_prefix(coeffs, r, x, coeffs.len() as int);
    assert(d.take(coeffs.len() as int + 1) =~= d);
    assert(coeffs.take(coeffs.len() as int) =~= coeffs);
    assert(eval_monic(d, x) % modulus() == eval_monic(d, x));
}

/// The roots of `(x - r0) (x - r1) ..` are the field elements congruent to
/// one of `r0, r1, ..`, and no others.
pub proof fn lemma_roots_of_product(roots: Seq<int>, x: int)
    ensures
        is_root(from_roots(roots), x) <==> is_one_of(roots, x),
    decreases roots.len(),
{
    let p = modulus();
    if roots.len() > 0 {
        let rest = roots.drop_last();
        let r = roots.last();
        let e = eval_monic(from_roots(rest), x);
        lemma_roots_of_product(rest, x);
        lemma_eval_times_linear(from_roots(rest), r, x);
        if is_root(from_roots(roots), x) {
            lemma_no_zero_divisors(e, x - r);
            if (x - r) % p == 0 {
                assert((x - roots[roots.len() - 1]) % p == 0);
            } else {
                let i = choose|i: int| 0 <= i < rest.len() && (x - #[trigger] rest[i]) % p == 0;
                assert((x - roots[i]) % p == 0);
            }
        }
        if is_one_of(roots, x) {
            let i = choose|i: int| 0 <= i < roots.len() && (x - #[trigger] roots[i]) % p == 0;
            if i < rest.len() {
                assert((x - rest[i]) % p == 0);
                lemma_mul_congruent(e, 0, x - r, x - r);
            } else {
                lemma_mul_congruent(e, e, x - r, 0);
            }
            assert(e * 0 == 0 && 0 * (x - r) == 0) by (nonlinear_arith);
        }
    }
}

/// Whether every entry of `s` is a field element.
pub open spec fn all_elements(s: Seq<int>) -> bool {
    forall|k: int| 0 <= k < s.len() ==> is_element(#[trigger] s[k])
}

/// Whether `roots` are field elements whose linear factors multiply to the
/// monic polynomial with the coefficients `coeffs`.
pub open spec fn is_factorization(coeffs: Seq<int>, roots: Seq<int>) -> bool {
    &&& roots.len() == coeffs.len()
    &&& all_elements(roots)
    &&& from_roots(roots) == coeffs
}

/// Whether the monic polynomial with the coefficients `coeffs` is a product
/// of linear factors over the field.
pub open spec fn splits_completely(coeffs: Seq<int>) -> bool {
    exists|roots: Seq<int>| is_factorization(coeffs, roots)
}

/// The coefficients of `f(x) (x - r0) (x - r1) ..`, where `f` is the monic
/// polynomial with the coefficients `coeffs`.
pub open spec fn product_with(coeffs: Seq<int>, roots: Seq<int>) -> Seq<int>
    decreases roots.len(),
{
    if roots.len() == 0 {
        coeffs
    } else {
        times_linear(product_with(coeffs, roots.drop_last()), roots.last())
    }
}

/// The quotient of the monic polynomial with the coefficients `coeffs` by
/// `x - r`: its coefficients are what Horner's rule passes through on the
/// way to the value at `r`.
pub open spec fn deflated(coeffs: Seq<int>, r: int) -> Seq<int> {
    Seq::new((coeffs.len() - 1) as nat, |k: int| eval_monic(coeffs.take(k + 1), r))
}

/// Coefficient `k`, with the leading 1 at `-1` and zeros beyond the ends.
pub open spec fn coefficient_at(coeffs: Seq<int>, k: int) -> int {
    if k == -1 {
        1
    } else if 0 <= k < coeffs.len() {
        coeffs[k]
    } else {
        0
    }
}

proof fn lemma_times_linear_at(coeffs: Seq<int>, r: int, k: int)
    requires
        k >= -1,
    ensures
        coefficient_at(times_linear(coeffs, r), k) % modulus() == (coefficient_at(coeffs, k) - r
            * coefficient_at(coeffs, k - 1)) % modulus(),
{
    let c0 = coefficient_at(coeffs, k);
    let c1 = coefficient_at(coeffs, k - 1);
    if 0 <= k <= coeffs.len() {
        lemma_field_sub_mul(c0, r, c1);
    } else {
        assert(c1 == 0);
        assert(r * c1 == 0) by (nonlinear_arith)
            requires
                c1 == 0,
        ;
    }
}

/// Linear factors may be multiplied on in either order.
pub proof fn lemma_times_linear_commutes(coeffs: Seq<int>, a: int, b: int)
    ensures
        times_linear(times_linear(coeffs, a), b) == times_linear(times_linear(coeffs, b), a),
{
    let p = modulus();
    let da = times_linear(coeffs, a);
    let db = times_linear(coeffs, b);
    let ab = times_linear(da, b);
    let ba = times_linear(db, a);
    assert forall|k: int| 0 <= k < ab.len() implies ab[k] == ba[k] by {
        let c0 = coefficient_at(coeffs, k);
        let c1 = coefficient_at(coeffs, k - 1);
        let c2 = coefficient_at(coeffs, k - 2);
        lemma_times_linear_at(da, b, k);
        lemma_times_linear_at(db, a, k);
        lemma_times_linear_at(coeffs, a, k);
        lemma_times_linear_at(coeffs, a, k - 1);
        lemma_times_linear_at(coeffs, b, k);
        lemma_times_linear_at(coeffs, b, k - 1);
        lemma_mul_congruent(b, b, coefficient_at(da, k - 1), c1 - a * c2);
        lemma_mul_congruent(a, a, coefficient_at(db, k - 1), c1 - b * c2);
        lemma_add_congruent(
            coefficient_at(da, k),
            c0 - a * c1,
            b * coefficient_at(da, k - 1),
            b * (c1 - a * c2),
        );
        lemma_add_congruent(
            coefficient_at(db, k),
            c0 - b * c1,
            a * coefficient_at(db, k - 1),
            a * (c1 - b * c2),
        );
        assert((c0 - a * c1) - b * (c1 - a * c2) == (c0 - b * c1) - a * (c1 - b * c2))
            by (nonlinear_arith);
        assert(ab[k] % p == ab[k] && ba[k] % p == ba[k]);
    }
    assert(ab =~= ba);
}

/// A linear factor multiplied on first may as well be multiplied on last.
pub proof fn lemma_product_with_inner(coeffs: Seq<int>, r: int, roots: Seq<int>)
    ensures
        product_with(times_linear(coeffs, r), roots) == product_with(coeffs, roots.push(r)),
        product_with(coeffs, roots).len() == coeffs.len() + roots.len(),
    decreases roots.len(),
{
    assert(roots.push(r).drop_last() =~= roots);
    assert(roots.push(r).last() == r);
    assert(product_with(coeffs, roots.push(r)) == times_linear(product_with(coeffs, roots), r));
    if roots.len() > 0 {
        let rest = roots.drop_last();
        let last = roots.last();
        lemma_product_with_inner(coeffs, r, rest);
        assert(rest.push(r).drop_last() =~= rest);
        assert(rest.push(r).last() == r);
        assert(product_with(coeffs, rest.push(r)) == times_linear(product_with(coeffs, rest), r));
        assert(product_with(times_linear(coeffs, r), roots) == times_linear(
            product_with(times_linear(coeffs, r), rest),
            last,
        ));
        lemma_times_linear_commutes(product_with(coeffs, rest), r, last);
    }
}

/// The product of linear factors is the product with the polynomial 1.
pub proof fn lemma_from_roots_is_product(roots: Seq<int>)
    ensures
        from_roots(roots) == product_with(Seq::empty(), roots),
    decreases roots.len(),
{
    if roots.len() > 0 {
        lemma_from_roots_is_product(roots.drop_last());
    }
}

/// Any one of the linear factors of a product may be taken to be the last.
pub proof fn lemma_from_roots_remove(roots: Seq<int>, i: int)
    requires
        0 <= i < roots.len(),
    ensures
        from_roots(roots) == times_linear(from_roots(roots.remove(i)), roots[i]),
    decreases roots.len(),
{
    if i == roots.len() - 1 {
        assert(roots.remove(i) =~= roots.drop_last());
    } else {
        let rest = roots.drop_last();
        lemma_from_roots_remove(rest, i);
        lemma_times_linear_commutes(from_roots(rest.remove(i)), roots[i], roots.last());
        assert(roots.remove(i).drop_last() =~= rest.remove(i));
        assert(roots.remove(i).last() == roots.last());
    }
}

/// A linear factor can be cancelled: two polynomials with field elements
/// for coefficients that give the same product with `x - r` are the same.
pub proof fn lemma_times_linear_injective(q1: Seq<int>, q2: Seq<int>, r: int)
    requires
        all_elements(q1),
        all_elements(q2),
        times_linear(q1, r) == times_linear(q2, r),
    ensures
        q1 == q2,
{
    let d1 = times_linear(q1, r);
    let d2 = times_linear(q2, r);
    assert(q1.len() == q2.len()) by {
        assert(d1.len() == q1.len() + 1);
        assert(d2.len() == q2.len() + 1);
    }
    assert forall|k: int| 0 <= k < q1.len() implies q1[k] == q2[k] by {
        lemma_times_linear_injective_at(q1, q2, r, k);
    }
    assert(q1 =~= q2);
}

proof fn lemma_times_linear_injective_at(q1: Seq<int>, q2: Seq<int>, r: int, k: int)
    requires
        all_elements(q1),
        all_elements(q2),
        q1.len() == q2.len(),
        times_linear(q1, r) == times_linear(q2, r),
        0 <= k < q1.len(),
    ensures
        q1[k] == q2[k],
    decreases k,
{
    let before = if k > 0 {
        lemma_times_linear_injective_at(q1, q2, r, k - 1);
        q1[k - 1]
    } else {
        1
    };
    assert(times_linear(q1, r)[k] == field_sub(q1[k], field_mul(r, before)));
    assert(times_linear(q2, r)[k] == field_sub(q2[k], field_mul(r, before)));
    lemma_field_sub_mul(q1[k], r, before);
    lemma_field_sub_mul(q2[k], r, before);
    lemma_add_congruent(q1[k] - r * before, q2[k] - r * before, 0 - r * before, 0 - r * before);
    assert(is_element(q1[k]) && is_element(q2[k]));
}

/// Dividing by `x - r` where `r` is a root leaves no remainder: the quotient
/// times `x - r` is the polynomial again.
pub proof fn lemma_deflated(coeffs: Seq<int>, r: int)
    requires
        coeffs.len() >= 1,
        all_elements(coeffs),
        is_root(coeffs, r),
    ensures
        times_linear(deflated(coeffs, r), r) == coeffs,
        all_elements(deflated(coeffs, r)),
{
    let p = modulus();
    let q = deflated(coeffs, r);
    let t = times_linear(q, r);
    let n = coeffs.len() as int;
    assert forall|k: int| 0 <= k < n implies t[k] == coeffs[k] by {
        let before = eval_monic(coeffs.take(k), r);
        let here = eval_monic(coeffs.take(k + 1), r);
        assert(coeffs.take(k + 1).drop_last() =~= coeffs.take(k));
        assert(here == field_add(field_mul(before, r), coeffs[k]));
        lemma_field_add_mul(before, r, coeffs[k]);
        assert(before * r == r * before) by (nonlinear_arith);
        let q1 = if k > 0 {
            q[k - 1]
        } else {
            1
        };
        assert(q1 == before) by {
            if k > 0 {
                assert(coeffs.take(k - 1 + 1) =~= coeffs.take(k));
            }
        }
        let q0 = if k < q.len() {
            q[k]
        } else {
            0
        };
        assert(q0 == here) by {
            if k == n - 1 {
                assert(coeffs.take(n) =~= coeffs);
            }
        }
        assert(t[k] == field_sub(q0, field_mul(r, q1)));
        lemma_field_sub_mul(q0, r, q1);
        lemma_add_congruent(here, before * r + coeffs[k], r * before, r * before);
        assert(is_element(coeffs[k]));
    }
    assert(t =~= coeffs);
}

/// The value of a product with linear factors is 0 at each of their roots.
proof fn lemma_root_of_last_factor(coeffs: Seq<int>, r: int)
    ensures
        is_root(times_linear(coeffs, r), r),
{
    lemma_eval_times_linear(coeffs, r, r);
    let e = eval_monic(coeffs, r);
    assert(e * (r - r) == 0) by (nonlinear_arith);
}

/// A polynomial with a factor that has no root in the field, and is not
/// constant, is no product of linear factors.
pub proof fn lemma_rootless_factor(factor: Seq<int>, found: Seq<int>)
    requires
        factor.len() >= 1,
        all_elements(factor),
        all_elements(found),
        forall|s: int| is_element(s) ==> !is_root(factor, s),
    ensures
        !splits_completely(product_with(factor, found)),
    decreases found.len(),
{
    let f = product_with(factor, found);
    if splits_completely(f) {
        let roots = choose|roots: Seq<int>| is_factorization(f, roots);
        lemma_product_with_inner(factor, 0, found);
        if found.len() == 0 {
            // the first of the roots would be a root of the factor
            lemma_roots_of_product(roots, roots[0]);
            assert((roots[0] - roots[0]) % modulus() == 0);
            assert(is_element(roots[0]));
        } else {
            let rest = found.drop_last();
            let r = found.last();
            let g = product_with(factor, rest);
            lemma_product_with_inner(factor, 0, rest);
            lemma_root_of_last_factor(g, r);
            lemma_roots_of_product(roots, r);
            let i = choose|i: int|
                0 <= i < roots.len() && (r - #[trigger] roots[i]) % modulus() == 0;
            assert(is_element(r) && is_element(roots[i]));
            assert(r == roots[i]);
            lemma_from_roots_remove(roots, i);
            let others = roots.remove(i);
            lemma_from_roots_len(others);
            assert(all_elements(from_roots(others))) by {
                if others.len() > 0 {
                    assert(from_roots(others) == times_linear(
                        from_roots(others.drop_last()),
                        others.last(),
                    ));
                }
            }
            assert(all_elements(g)) by {
                if rest.len() > 0 {
                    assert(g == times_linear(
                        product_with(factor, rest.drop_last()),
                        rest.last(),
                    ));
                }
            }
            lemma_times_linear_injective(g, from_roots(others), r);
            assert(is_factorization(g, others));
            lemma_rootless_factor(factor, rest);
        }
    }
}

/// The canonical representatives of `roots`.
pub open spec fn residues(roots: Seq<int>) -> Seq<int> {
    Seq::new(roots.len(), |i: int| roots[i] % modulus())
}

/// The product of linear factors depends on the roots only through their
/// residues.
pub proof fn lemma_from_roots_of_residues(roots: Seq<int>)
    ensures
        from_roots(residues(roots)) == from_roots(roots),
        all_elements(residues(roots)),
    decreases roots.len(),
{
    if roots.len() > 0 {
        let rest = roots.drop_last();
        let r = roots.last();
        lemma_from_roots_of_residues(rest);
        assert(residues(roots).drop_last() =~= residues(rest));
        let c = from_roots(rest);
        assert forall|k: int| 0 <= k < c.len() + 1 implies times_linear(c, r % modulus())[k]
            == times_linear(c, r)[k] by {
            let before = if k > 0 {
                c[k - 1]
            } else {
                1
            };
            lemma_mul_congruent(r % modulus(), r, before, before);
        }
        assert(times_linear(c, r % modulus()) =~= times_linear(c, r));
    }
}

/// A polynomial has one factorization at most, up to the order of the
/// roots.
pub proof fn lemma_factorization_unique(coeffs: Seq<int>, first: Seq<int>, second: Seq<int>)
    requires
        is_factorization(coeffs, first),
        is_factorization(coeffs, second),
    ensures
        first.to_multiset() == second.to_multiset(),
    decreases first.len(),
{
    if first.len() == 0 {
        assert(first =~= second);
    } else {
        let rest = first.drop_last();
        let r = first.last();
        lemma_root_of_last_factor(from_roots(rest), r);
        lemma_roots_of_product(second, r);
        let i = choose|i: int|
            0 <= i < second.len() && (r - #[trigger] second[i]) % modulus() == 0;
        assert(is_element(r) && is_element(second[i]));
        assert(r == second[i]);
        let others = second.remove(i);
        lemma_from_roots_remove(second, i);
        lemma_from_roots_len(rest);
        lemma_from_roots_len(others);
        lemma_from_roots_elements(rest);
        lemma_from_roots_elements(others);
        lemma_times_linear_injective(from_roots(rest), from_roots(others), r);
        lemma_factorization_unique(from_roots(rest), rest, others);
        vstd::seq_lib::to_multiset_remove(second, i);
        vstd::seq_lib::to_multiset_remove(first, first.len() - 1);
        assert(first.remove(first.len() - 1) =~= rest);
        vstd::seq_lib::to_multiset_contains(first, r);
        vstd::seq_lib::to_multiset_contains(second, r);
        assert(first.contains(r)) by {
            assert(first[first.len() - 1] == r);
        }
        assert(second.contains(r)) by {
            assert(second[i] == r);
        }
        let m1 = first.to_multiset();
        let m2 = second.to_multiset();
        assert(m1 =~= m1.remove(r).insert(r));
        assert(m2 =~= m2.remove(r).insert(r));
    }
}

/// The coefficients of a product of linear factors are field elements.
pub proof fn lemma_from_roots_elements(roots: Seq<int>)
    ensures
        all_elements(from_roots(roots)),
{
    if roots.len() > 0 {
        assert(from_roots(roots) == times_linear(from_roots(roots.drop_last()), roots.last()));
    }
}

} // verus!
