//! Newton's identities: from the power sums of a multiset of field elements
//! to the coefficients of the monic polynomial whose roots they are.
use crate::arithmetic::field::{
    field_add, field_inv, field_mul, field_neg, field_sub, lemma_add_congruent,
    lemma_field_add_mul, lemma_field_sub_mul, lemma_inverse_exists, lemma_mul_congruent, modulus,
};
use crate::arithmetic::roots::{from_roots, lemma_from_roots_len};
use vstd::arithmetic::div_mod::lemma_mod_twice;
use vstd::arithmetic::power::*;
use vstd::prelude::*;

verus! {

/// The sum of `sums[l] * coeffs[i - l - 1]` over `l` in `[0, j)`, reduced.
pub open spec fn newton_sum(sums: Seq<int>, coeffs: Seq<int>, i: int, j: nat) -> int
    decreases j,
{
    if j == 0 {
        0
    } else {
        field_add(
            newton_sum(sums, coeffs, i, (j - 1) as nat),
            field_mul(sums[j - 1], coeffs[i - j]),
        )
    }
}

/// The first `n` coefficients that Newton's identities give for the power
/// sums `sums`: with `p_k = sums[k - 1]`, coefficient `i` (from 0) is
/// `(-p_(i+1) - (p_1 c[i-1] + .. + p_i c[0])) / (i + 1)`.
pub open spec fn newton_coefficients(sums: Seq<int>, n: nat) -> Seq<int>
    decreases n,
{
    if n == 0 {
        Seq::empty()
    } else {
        let i = n - 1;
        let before = newton_coefficients(sums, i as nat);
        before.push(
            field_mul(
                field_sub(field_neg(sums[i]), newton_sum(sums, before, i, i as nat)),
                field_inv(i + 1),
            ),
        )
    }
}

/// Newton's identities give as many coefficients as they are asked for.
pub proof fn lemma_newton_coefficients_len(sums: Seq<int>, n: nat)
    ensures
        newton_coefficients(sums, n).len() == n,
    decreases n,
{
    if n > 0 {
        lemma_newton_coefficients_len(sums, (n - 1) as nat);
    }
}

/// Coefficient `k` of `(x - xs[0]) (x - xs[1]) ..` multiplied out over the
/// integers, counted from the leading coefficient, which is coefficient 0.
pub open spec fn expanded_coefficient(xs: Seq<int>, k: int) -> int
    decreases xs.len(),
{
    if k < 0 {
        0
    } else if xs.len() == 0 {
        if k == 0 {
            1
        } else {
            0
        }
    } else {
        expanded_coefficient(xs.drop_last(), k) - xs.last() * expanded_coefficient(
            xs.drop_last(),
            k - 1,
        )
    }
}

/// The sum of the `e`-th powers of `xs`, over the integers.
pub open spec fn int_power_sum(xs: Seq<int>, e: nat) -> int
    decreases xs.len(),
{
    if xs.len() == 0 {
        0
    } else {
        int_power_sum(xs.drop_last(), e) + pow(xs.last(), e)
    }
}

/// The sum over `j` in `[1, m]` of the `j`-th power sum of `xs` times
/// coefficient `k - j` of its expansion.
pub open spec fn convolution(xs: Seq<int>, k: int, m: nat) -> int
    decreases m,
{
    if m == 0 {
        0
    } else {
        convolution(xs, k, (m - 1) as nat) + int_power_sum(xs, m) * expanded_coefficient(
            xs,
            k - m,
        )
    }
}

proof fn lemma_expanded_coefficient_bounds(xs: Seq<int>, k: int)
    ensures
        k == 0 ==> expanded_coefficient(xs, k) == 1,
        k > xs.len() ==> expanded_coefficient(xs, k) == 0,
    decreases xs.len(),
{
    if xs.len() > 0 && k >= 0 {
        let rest = xs.drop_last();
        let a = xs.last();
        lemma_expanded_coefficient_bounds(rest, k);
        lemma_expanded_coefficient_bounds(rest, k - 1);
        let c0 = expanded_coefficient(rest, k);
        let c1 = expanded_coefficient(rest, k - 1);
        assert(expanded_coefficient(xs, k) == c0 - a * c1);
        if k == 0 || k > xs.len() {
            assert(c1 == 0);
            assert(a * c1 == 0) by (nonlinear_arith)
                requires
                    c1 == 0,
            ;
        }
    }
}

proof fn lemma_convolution_of_nothing(k: int, m: nat)
    ensures
        convolution(Seq::<int>::empty(), k, m) == 0,
    decreases m,
{
    if m > 0 {
        lemma_convolution_of_nothing(k, (m - 1) as nat);
        assert(int_power_sum(Seq::<int>::empty(), m) == 0);
        assert(0 * expanded_coefficient(Seq::<int>::empty(), k - m) == 0);
    }
}

/// How the convolution changes when one more root `a` joins `rest`.
proof fn lemma_convolution_with_one_more(rest: Seq<int>, a: int, k: int, m: nat)
    ensures
        convolution(rest.push(a), k, m) == convolution(rest, k, m) - a * convolution(
            rest,
            k - 1,
            m,
        ) + a * expanded_coefficient(rest, k - 1) - pow(a, m + 1) * expanded_coefficient(
            rest,
            k - m - 1,
        ),
    decreases m,
{
    let xs = rest.push(a);
    assert(xs.drop_last() =~= rest);
    assert(xs.last() == a);
    let ck1 = expanded_coefficient(rest, k - 1);
    if m == 0 {
        lemma_pow1(a);
    } else {
        let m0 = (m - 1) as nat;
        lemma_convolution_with_one_more(rest, a, k, m0);
        let pm = int_power_sum(rest, m);
        let am = pow(a, m);
        let ckm = expanded_coefficient(rest, k - m);
        let ckm1 = expanded_coefficient(rest, k - m - 1);
        let g0 = convolution(rest, k, m0);
        let h0 = convolution(rest, k - 1, m0);
        let f0 = convolution(xs, k, m0);
        assert(pow(a, m + 1) == a * am) by {
            reveal(pow);
        }
        assert(int_power_sum(xs, m) == pm + am);
        assert(expanded_coefficient(xs, k - m) == ckm - a * ckm1);
        assert(expanded_coefficient(rest, k - 1 - m) == ckm1);
        assert(expanded_coefficient(rest, k - m0 - 1) == ckm);
        assert(pow(a, m0 + 1) == am);
        let t1 = pm * ckm;
        let t2 = pm * ckm1;
        let t3 = am * ckm;
        let t4 = am * ckm1;
        assert((pm + am) * (ckm - a * ckm1) == t1 - a * t2 + t3 - a * t4) by (nonlinear_arith)
            requires
                t1 == pm * ckm,
                t2 == pm * ckm1,
                t3 == am * ckm,
                t4 == am * ckm1,
        ;
        assert(a * (h0 + t2) == a * h0 + a * t2) by (nonlinear_arith);
        assert((a * am) * ckm1 == a * t4) by (nonlinear_arith)
            requires
                t4 == am * ckm1,
        ;
    }
}

/// Newton's identity, for the expansion with signs: `k` times coefficient
/// `k`, plus the power sums against the coefficients before it, is 0.
pub proof fn lemma_newton_identity(xs: Seq<int>, k: nat)
    ensures
        k * expanded_coefficient(xs, k as int) + convolution(xs, k as int, k) == 0,
    decreases xs.len(),
{
    let cx = expanded_coefficient(xs, k as int);
    let fx = convolution(xs, k as int, k);
    if k == 0 {
        assert(k * cx == 0) by (nonlinear_arith)
            requires
                k == 0,
        ;
    } else if xs.len() == 0 {
        lemma_convolution_of_nothing(k as int, k);
        assert(xs =~= Seq::<int>::empty());
        assert(cx == 0);
        assert(k * cx == 0) by (nonlinear_arith)
            requires
                cx == 0,
        ;
    } else {
        let rest = xs.drop_last();
        let a = xs.last();
        let k1 = (k - 1) as nat;
        assert(rest.push(a) =~= xs);
        lemma_newton_identity(rest, k);
        lemma_newton_identity(rest, k1);
        lemma_convolution_with_one_more(rest, a, k as int, k);
        let ck = expanded_coefficient(rest, k as int);
        let ck1 = expanded_coefficient(rest, k - 1);
        let gk = convolution(rest, k as int, k);
        let hk = convolution(rest, k - 1, k);
        let hk1 = convolution(rest, k - 1, k1);
        let z = expanded_coefficient(rest, k - k - 1);
        let t = pow(a, k + 1);
        let pk = int_power_sum(rest, k);
        assert(z == 0);
        assert(expanded_coefficient(rest, k - 1 - k) == 0);
        assert(hk == hk1 + pk * expanded_coefficient(rest, k - 1 - k));
        assert(hk == hk1) by (nonlinear_arith)
            requires
                hk == hk1 + pk * 0,
        ;
        assert(cx == ck - a * ck1);
        assert(fx == gk - a * hk + a * ck1 - t * z);
        let u = k * ck1;
        assert(t * z == 0) by (nonlinear_arith)
            requires
                z == 0,
        ;
        assert((k - 1) * ck1 == u - ck1) by (nonlinear_arith)
            requires
                u == k * ck1,
        ;
        assert(k * (ck - a * ck1) == k * ck - a * u) by (nonlinear_arith)
            requires
                u == k * ck1,
        ;
        assert(a * (ck1 - u) == a * ck1 - a * u) by (nonlinear_arith);
        assert(hk1 == ck1 - u);
        assert(k * cx + fx == 0);
    }
}

/// The coefficients of the product of linear factors are the coefficients
/// of the expansion over the integers, reduced.
pub proof fn lemma_from_roots_expands(xs: Seq<int>, i: int)
    requires
        0 <= i < xs.len(),
    ensures
        from_roots(xs).len() == xs.len(),
        from_roots(xs)[i] == expanded_coefficient(xs, i + 1) % modulus(),
    decreases xs.len(),
{
    let rest = xs.drop_last();
    let a = xs.last();
    let fr = from_roots(rest);
    lemma_from_roots_len(xs);
    lemma_from_roots_len(rest);
    let ck = if i < rest.len() {
        fr[i]
    } else {
        0
    };
    let ck1 = if i > 0 {
        fr[i - 1]
    } else {
        1
    };
    assert(from_roots(xs)[i] == field_sub(ck, field_mul(a, ck1)));
    lemma_field_sub_mul(ck, a, ck1);
    if i < rest.len() {
        lemma_from_roots_expands(rest, i);
    } else {
        lemma_expanded_coefficient_bounds(rest, i + 1);
    }
    if i > 0 {
        lemma_from_roots_expands(rest, i - 1);
    } else {
        lemma_expanded_coefficient_bounds(rest, 0);
    }
    lemma_mul_congruent(a, a, ck1, expanded_coefficient(rest, i as int));
    lemma_add_congruent(
        ck,
        expanded_coefficient(rest, i + 1),
        a * ck1,
        a * expanded_coefficient(rest, i as int),
    );
}

/// Whether entry `j` of `sums` is the `(j+1)`-th power sum of `xs`, reduced,
/// for every `j`.
pub open spec fn are_power_sums_of(sums: Seq<int>, xs: Seq<int>) -> bool {
    forall|j: int|
        0 <= j < sums.len() ==> #[trigger] sums[j] == int_power_sum(xs, (j + 1) as nat)
            % modulus()
}

proof fn lemma_newton_sum_is_convolution(
    sums: Seq<int>,
    xs: Seq<int>,
    before: Seq<int>,
    i: int,
    j: nat,
)
    requires
        are_power_sums_of(sums, xs),
        0 <= j <= i < sums.len(),
        before.len() == i,
        forall|l: int|
            0 <= l < i ==> #[trigger] before[l] == expanded_coefficient(xs, l + 1) % modulus(),
    ensures
        newton_sum(sums, before, i, j) % modulus() == convolution(xs, i + 1, j) % modulus(),
    decreases j,
{
    if j > 0 {
        let j0 = (j - 1) as nat;
        lemma_newton_sum_is_convolution(sums, xs, before, i, j0);
        let s = sums[j - 1];
        let c = before[i - j];
        let pj = int_power_sum(xs, j);
        let cj = expanded_coefficient(xs, i + 1 - j);
        assert(s == int_power_sum(xs, ((j - 1) + 1) as nat) % modulus());
        assert(c == expanded_coefficient(xs, (i - j) + 1) % modulus());
        lemma_field_add_mul(s, c, newton_sum(sums, before, i, j0));
        lemma_mul_congruent(s, pj, c, cj);
        lemma_add_congruent(
            newton_sum(sums, before, i, j0),
            convolution(xs, i + 1, j0),
            s * c,
            pj * cj,
        );
    }
}

/// The last step of solving Newton's identity for coefficient `k`, on plain
/// integers: dividing `-p_k - (sum)` by `k`.
proof fn lemma_solve_for_coefficient(
    k: int,
    ck: int,
    pk: int,
    conv: int,
    s: int,
    ns: int,
    inverse: int,
)
    requires
        k * ck + conv + pk == 0,
        s % modulus() == pk % modulus(),
        ns % modulus() == conv % modulus(),
        (k * inverse) % modulus() == 1,
    ensures
        field_mul(field_sub(field_neg(s), ns), inverse) == ck % modulus(),
{
    let p = modulus();
    let v = field_sub(field_neg(s), ns);
    lemma_add_congruent(0, 0, s, pk);
    assert(field_neg(s) == (0 - s) % p);
    lemma_mod_twice(0 - s, p);
    lemma_add_congruent(field_neg(s), 0 - pk, ns, conv);
    lemma_mod_twice(field_neg(s) - ns, p);
    assert(v % p == (0 - pk - conv) % p);
    assert(0 - pk - conv == k * ck);
    lemma_mul_congruent(v, k * ck, inverse, inverse);
    assert((k * ck) * inverse == ck * (k * inverse)) by (nonlinear_arith);
    lemma_mul_congruent(ck, ck, k * inverse, 1);
    assert(ck * 1 == ck);
}

/// Newton's identities recover the polynomial: from the power sums of `xs`,
/// reduced, come the coefficients of `(x - xs[0]) (x - xs[1]) ..`, reduced,
/// as far as there are power sums and up to the field's characteristic.
pub proof fn lemma_newton_coefficients_expand(sums: Seq<int>, xs: Seq<int>, n: nat, i: int)
    requires
        are_power_sums_of(sums, xs),
        n <= sums.len(),
        n < modulus(),
        0 <= i < n,
    ensures
        newton_coefficients(sums, n).len() == n,
        newton_coefficients(sums, n)[i] == expanded_coefficient(xs, i + 1) % modulus(),
    decreases n,
{
    let last = n - 1;
    let before = newton_coefficients(sums, last as nat);
    lemma_newton_coefficients_len(sums, n);
    lemma_newton_coefficients_len(sums, last as nat);
    if i < last {
        lemma_newton_coefficients_expand(sums, xs, last as nat, i);
    } else {
        assert forall|l: int| 0 <= l < last implies #[trigger] before[l] == expanded_coefficient(
            xs,
            l + 1,
        ) % modulus() by {
            lemma_newton_coefficients_expand(sums, xs, last as nat, l);
        }
        lemma_newton_sum_is_convolution(sums, xs, before, last, last as nat);
        lemma_newton_identity(xs, n);
        lemma_expanded_coefficient_bounds(xs, 0);
        let pk = int_power_sum(xs, n);
        assert(convolution(xs, n as int, n) == convolution(xs, n as int, last as nat) + pk * 1);
        assert(sums[last] == int_power_sum(xs, (last + 1) as nat) % modulus());
        lemma_inverse_exists(n as int);
        lemma_solve_for_coefficient(
            n as int,
            expanded_coefficient(xs, n as int),
            pk,
            convolution(xs, n as int, last as nat),
            sums[last],
            newton_sum(sums, before, last, last as nat),
            field_inv(n as int),
        );
    }
}

/// From the power sums of `xs`, Newton's identities give the coefficients
/// of the monic polynomial whose roots are `xs`.
pub proof fn lemma_newton_recovers_polynomial(sums: Seq<int>, xs: Seq<int>)
    requires
        are_power_sums_of(sums, xs),
        xs.len() <= sums.len(),
        xs.len() < modulus(),
    ensures
        newton_coefficients(sums, xs.len()) == from_roots(xs),
{
    let n = xs.len();
    lemma_newton_coefficients_len(sums, n);
    lemma_from_roots_len(xs);
    assert forall|i: int| 0 <= i < n implies newton_coefficients(sums, n)[i] == from_roots(
        xs,
    )[i] by {
        lemma_newton_coefficients_expand(sums, xs, n, i);
        lemma_from_roots_expands(xs, i);
    }
    assert(newton_coefficients(sums, n) =~= from_roots(xs));
}

} // verus!
