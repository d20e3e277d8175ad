//! Polynomials modulo a monic polynomial `m` of degree `n`: a residue is a
//! list of `n` field elements, the coefficient of `x^(n-1)` first. What a
//! residue is worth shows at the roots of `m`: there its value is the value
//! of every polynomial that it stands for.
use crate::arithmetic::evaluator::{eval_monic, is_root};
use crate::arithmetic::field::{
    field_add, field_mul, field_pow, field_sub, is_element, lemma_add_congruent,
    lemma_field_add_mul, lemma_field_pow_step, lemma_field_sub_mul, lemma_inverse_exists,
    lemma_mul_congruent, lemma_square_and_multiply, modulus,
};
use crate::arithmetic::modint::{values, ModularInteger};
use vstd::arithmetic::div_mod::*;
use vstd::arithmetic::mul::*;
use vstd::prelude::*;

verus! {

/// The value at `s` of the polynomial with the coefficients `coeffs`, the
/// highest power first, by Horner's rule.
pub open spec fn eval_poly(coeffs: Seq<int>, s: int) -> int
    decreases coeffs.len(),
{
    if coeffs.len() == 0 {
        0
    } else {
        field_add(field_mul(eval_poly(coeffs.drop_last(), s), s), coeffs.last())
    }
}

/// The residue of `x * c(x)` modulo `m`: the coefficients move up by one,
/// and the one that leaves at the top takes `m` with it.
pub open spec fn shifted_reduced(c: Seq<int>, m: Seq<int>) -> Seq<int> {
    Seq::new(
        c.len(),
        |k: int|
            field_sub(
                if k + 1 < c.len() {
                    c[k + 1]
                } else {
                    0
                },
                field_mul(c[0], m[k]),
            ),
    )
}

/// The residue `acc + a * b`, coefficient by coefficient.
pub open spec fn plus_scaled(acc: Seq<int>, a: int, b: Seq<int>) -> Seq<int> {
    Seq::new(acc.len(), |k: int| field_add(acc[k], field_mul(a, b[k])))
}

/// The residue of the constant 1: zeros, and a one at the end.
pub open spec fn unit_residue(n: nat) -> Seq<int> {
    Seq::new(
        n,
        |k: int|
            if k == n - 1 {
                1int
            } else {
                0int
            },
    )
}

proof fn lemma_eval_zeros(c: Seq<int>, s: int)
    requires
        forall|k: int| 0 <= k < c.len() ==> c[k] == 0,
    ensures
        eval_poly(c, s) == 0,
    decreases c.len(),
{
    if c.len() > 0 {
        lemma_eval_zeros(c.drop_last(), s);
        assert(0 * s == 0);
    }
}

/// The residue of 1 is worth 1 everywhere.
pub proof fn lemma_eval_unit(n: nat, s: int)
    requires
        n >= 1,
    ensures
        eval_poly(unit_residue(n), s) == 1,
{
    lemma_eval_zeros(unit_residue(n).drop_last(), s);
    assert(0 * s == 0);
}

proof fn lemma_shift_step(
    o0: int,
    ok: int,
    a0: int,
    a1: int,
    m0: int,
    m1: int,
    z: int,
    mk: int,
    lead: int,
    s: int,
)
    requires
        o0 % modulus() == (a0 - lead * m0) % modulus(),
        a1 % modulus() == (a0 * s + z) % modulus(),
        m1 % modulus() == (m0 * s + mk) % modulus(),
        ok % modulus() == (z - lead * mk) % modulus(),
    ensures
        (o0 * s + ok) % modulus() == (a1 - lead * m1) % modulus(),
{
    lemma_mul_congruent(o0, a0 - lead * m0, s, s);
    lemma_mul_congruent(lead, lead, m1, m0 * s + mk);
    lemma_add_congruent(o0 * s, (a0 - lead * m0) * s, ok, z - lead * mk);
    lemma_add_congruent(a1, a0 * s + z, lead * m1, lead * (m0 * s + mk));
    assert((a0 - lead * m0) * s + (z - lead * mk) == (a0 * s + z) - lead * (m0 * s + mk))
        by (nonlinear_arith);
}

proof fn lemma_eval_shifted_prefix(c: Seq<int>, m: Seq<int>, s: int, k: int)
    requires
        c.len() == m.len(),
        0 <= k <= c.len(),
        c.len() >= 1,
    ensures
        eval_poly(shifted_reduced(c, m).take(k), s) % modulus() == (eval_poly(
            c.push(0).take(k + 1),
            s,
        ) - c[0] * eval_monic(m.take(k), s)) % modulus(),
    decreases k,
{
    let p = modulus();
    let out = shifted_reduced(c, m);
    let cz = c.push(0);
    let lead = c[0];
    if k == 0 {
        assert(cz.take(1).drop_last() =~= Seq::<int>::empty());
        assert(cz.take(1).last() == lead);
        assert(eval_poly(cz.take(1).drop_last(), s) == 0);
        assert(eval_poly(cz.take(1), s) == field_add(field_mul(0, s), lead));
        assert(0 * s == 0);
        assert(lead * 1 == lead);
        assert(eval_monic(m.take(0), s) == 1);
        assert(eval_poly(out.take(0), s) == 0);
    } else {
        let j = k - 1;
        lemma_eval_shifted_prefix(c, m, s, j);
        let o0 = eval_poly(out.take(j), s);
        let a0 = eval_poly(cz.take(j + 1), s);
        let a1 = eval_poly(cz.take(k + 1), s);
        let m0 = eval_monic(m.take(j), s);
        let m1 = eval_monic(m.take(k), s);
        let z = cz[k];
        assert(out.take(k).drop_last() =~= out.take(j));
        assert(cz.take(k + 1).drop_last() =~= cz.take(j + 1));
        assert(m.take(k).drop_last() =~= m.take(j));
        assert(eval_poly(out.take(k), s) == field_add(field_mul(o0, s), out[j]));
        assert(a1 == field_add(field_mul(a0, s), z));
        assert(m1 == field_add(field_mul(m0, s), m[j]));
        assert(out[j] == field_sub(z, field_mul(lead, m[j])));
        lemma_field_add_mul(o0, s, out[j]);
        lemma_field_add_mul(a0, s, z);
        lemma_field_add_mul(m0, s, m[j]);
        lemma_field_sub_mul(z, lead, m[j]);
        lemma_shift_step(o0, out[j], a0, a1, m0, m1, z, m[j], lead, s);
    }
}

/// The value of `x * c(x)` reduced modulo `m` is `s` times the value of
/// `c`, less the leading coefficient of `c` times the value of `m`.
pub proof fn lemma_eval_shifted_reduced(c: Seq<int>, m: Seq<int>, s: int)
    requires
        c.len() == m.len(),
        c.len() >= 1,
    ensures
        eval_poly(shifted_reduced(c, m), s) == field_sub(
            field_mul(eval_poly(c, s), s),
            field_mul(c[0], eval_monic(m, s)),
        ),
{
    let n = c.len() as int;
    let out = shifted_reduced(c, m);
    let cz = c.push(0);
    lemma_eval_shifted_prefix(c, m, s, n);
    assert(out.take(n) =~= out);
    assert(cz.take(n + 1) =~= cz);
    assert(cz.drop_last() =~= c);
    assert(m.take(n) =~= m);
    let e = eval_poly(c, s);
    let em = eval_monic(m, s);
    assert(eval_poly(cz, s) == field_add(field_mul(e, s), 0));
    lemma_field_add_mul(e, s, 0);
    lemma_field_sub_mul(field_mul(e, s), c[0], em);
    lemma_add_congruent(eval_poly(cz, s), e * s, c[0] * em, c[0] * em);
    lemma_add_congruent(field_mul(e, s), e * s, c[0] * em, c[0] * em);
    assert(eval_poly(out, s) % modulus() == eval_poly(out, s));
}

proof fn lemma_scale_step(
    o0: int,
    ok: int,
    e0: int,
    e1: int,
    b0: int,
    b1: int,
    ck: int,
    bk: int,
    a: int,
    s: int,
)
    requires
        o0 % modulus() == (e0 + a * b0) % modulus(),
        e1 % modulus() == (e0 * s + ck) % modulus(),
        b1 % modulus() == (b0 * s + bk) % modulus(),
        ok % modulus() == (ck + a * bk) % modulus(),
    ensures
        (o0 * s + ok) % modulus() == (e1 + a * b1) % modulus(),
{
    lemma_mul_congruent(o0, e0 + a * b0, s, s);
    lemma_mul_congruent(a, a, b1, b0 * s + bk);
    lemma_add_congruent(o0 * s, (e0 + a * b0) * s, ok, ck + a * bk);
    lemma_add_congruent(e1, e0 * s + ck, 0 - a * b1, 0 - a * (b0 * s + bk));
    assert((e0 + a * b0) * s + (ck + a * bk) == (e0 * s + ck) - (0 - a * (b0 * s + bk)))
        by (nonlinear_arith);
}

proof fn lemma_eval_plus_scaled_prefix(acc: Seq<int>, a: int, b: Seq<int>, s: int, k: int)
    requires
        acc.len() == b.len(),
        0 <= k <= acc.len(),
    ensures
        eval_poly(plus_scaled(acc, a, b).take(k), s) % modulus() == (eval_poly(acc.take(k), s)
            + a * eval_poly(b.take(k), s)) % modulus(),
    decreases k,
{
    let out = plus_scaled(acc, a, b);
    if k == 0 {
        assert(a * 0 == 0);
    } else {
        let j = k - 1;
        lemma_eval_plus_scaled_prefix(acc, a, b, s, j);
        let o0 = eval_poly(out.take(j), s);
        let e0 = eval_poly(acc.take(j), s);
        let e1 = eval_poly(acc.take(k), s);
        let b0 = eval_poly(b.take(j), s);
        let b1 = eval_poly(b.take(k), s);
        assert(out.take(k).drop_last() =~= out.take(j));
        assert(acc.take(k).drop_last() =~= acc.take(j));
        assert(b.take(k).drop_last() =~= b.take(j));
        assert(eval_poly(out.take(k), s) == field_add(field_mul(o0, s), out[j]));
        assert(e1 == field_add(field_mul(e0, s), acc[j]));
        assert(b1 == field_add(field_mul(b0, s), b[j]));
        assert(out[j] == field_add(acc[j], field_mul(a, b[j])));
        lemma_field_add_mul(o0, s, out[j]);
        lemma_field_add_mul(e0, s, acc[j]);
        lemma_field_add_mul(b0, s, b[j]);
        lemma_field_add_mul(a, b[j], acc[j]);
        lemma_scale_step(o0, out[j], e0, e1, b0, b1, acc[j], b[j], a, s);
    }
}

/// The value of `acc + a * b` is the value of `acc` plus `a` times the
/// value of `b`.
pub proof fn lemma_eval_plus_scaled(acc: Seq<int>, a: int, b: Seq<int>, s: int)
    requires
        acc.len() == b.len(),
    ensures
        eval_poly(plus_scaled(acc, a, b), s) == field_add(
            eval_poly(acc, s),
            field_mul(a, eval_poly(b, s)),
        ),
{
    let n = acc.len() as int;
    let out = plus_scaled(acc, a, b);
    lemma_eval_plus_scaled_prefix(acc, a, b, s, n);
    assert(out.take(n) =~= out);
    assert(acc.take(n) =~= acc);
    assert(b.take(n) =~= b);
    lemma_field_add_mul(a, eval_poly(b, s), eval_poly(acc, s));
    if n == 0 {
        assert(a * 0 == 0);
    }
    assert(eval_poly(out, s) % modulus() == eval_poly(out, s)) by {
        if n == 0 {
        }
    }
}

/// The residue of 0 modulo a polynomial of degree `n`.
pub(crate) fn zero_residue(n: usize) -> (r: Vec<ModularInteger>)
    ensures
        r.len() == n,
        forall|k: int| 0 <= k < n ==> (#[trigger] r[k])@ == 0,
{
    let mut r: Vec<ModularInteger> = Vec::new();
    let mut k: usize = 0;
    while k < n
        invariant
            k <= n,
            r.len() == k,
            forall|j: int| 0 <= j < k ==> (#[trigger] r[j])@ == 0,
        decreases n - k,
    {
        r.push(ModularInteger::zero());
        k = k + 1;
    }
    r
}

/// The residue of 1 modulo a polynomial of degree `n`.
pub(crate) fn one_residue(n: usize) -> (r: Vec<ModularInteger>)
    requires
        n >= 1,
    ensures
        r.len() == n,
        values(r@) == unit_residue(n as nat),
{
    let mut r = zero_residue(n);
    r.set(n - 1, ModularInteger::one());
    proof {
        assert(values(r@) =~= unit_residue(n as nat));
    }
    r
}

/// The residue of `x * c(x)` modulo the monic polynomial with the
/// coefficients `m`.
pub(crate) fn times_x(
    c: &Vec<ModularInteger>,
    m: &Vec<ModularInteger>,
) -> (r: Vec<ModularInteger>)
    requires
        c.len() == m.len(),
        c.len() >= 1,
    ensures
        r.len() == c.len(),
        values(r@) == shifted_reduced(values(c@), values(m@)),
{
    let n = c.len();
    let lead = c[0];
    let mut r: Vec<ModularInteger> = Vec::new();
    let mut k: usize = 0;
    while k < n
        invariant
            k <= n,
            n == c.len(),
            n == m.len(),
            n >= 1,
            lead == c[0],
            r.len() == k,
            forall|j: int|
                0 <= j < k ==> (#[trigger] r[j])@ == shifted_reduced(values(c@), values(m@))[j],
        decreases n - k,
    {
        let next = if k + 1 < n {
            c[k + 1]
        } else {
            ModularInteger::zero()
        };
        r.push(next.sub(lead.mul(m[k])));
        k = k + 1;
    }
    proof {
        assert(values(r@) =~= shifted_reduced(values(c@), values(m@)));
    }
    r
}

/// The residue `acc + a * b`.
pub(crate) fn add_scaled(
    acc: &Vec<ModularInteger>,
    a: ModularInteger,
    b: &Vec<ModularInteger>,
) -> (r: Vec<ModularInteger>)
    requires
        acc.len() == b.len(),
    ensures
        r.len() == acc.len(),
        values(r@) == plus_scaled(values(acc@), a@, values(b@)),
{
    let n = acc.len();
    let mut r: Vec<ModularInteger> = Vec::new();
    let mut k: usize = 0;
    while k < n
        invariant
            k <= n,
            n == acc.len(),
            n == b.len(),
            r.len() == k,
            forall|j: int|
                0 <= j < k ==> (#[trigger] r[j])@ == plus_scaled(
                    values(acc@),
                    a@,
                    values(b@),
                )[j],
        decreases n - k,
    {
        r.push(acc[k].add(a.mul(b[k])));
        k = k + 1;
    }
    proof {
        assert(values(r@) =~= plus_scaled(values(acc@), a@, values(b@)));
    }
    r
}

proof fn lemma_multiply_step(e0: int, e1: int, e2: int, ea: int, ea1: int, eb: int, ai: int, s: int)
    requires
        e0 % modulus() == (ea * eb) % modulus(),
        e1 % modulus() == (e0 * s) % modulus(),
        e2 % modulus() == (e1 + ai * eb) % modulus(),
        ea1 % modulus() == (ea * s + ai) % modulus(),
    ensures
        e2 % modulus() == (ea1 * eb) % modulus(),
{
    lemma_mul_congruent(e0, ea * eb, s, s);
    lemma_mul_congruent(ea1, ea * s + ai, eb, eb);
    lemma_add_congruent(e1, (ea * eb) * s, ai * eb, ai * eb);
    assert((ea * eb) * s + ai * eb == (ea * s + ai) * eb) by (nonlinear_arith);
}

/// What one step of a Horner scheme modulo `m` makes of the value at a
/// root of `m`: `s` times the value before, plus `a` times the value of `b`.
proof fn lemma_horner_step_at_root(
    acc: Seq<int>,
    m: Seq<int>,
    a: int,
    b: Seq<int>,
    s: int,
)
    requires
        acc.len() == m.len(),
        acc.len() == b.len(),
        acc.len() >= 1,
        is_root(m, s),
    ensures
        eval_poly(plus_scaled(shifted_reduced(acc, m), a, b), s) % modulus() == (eval_poly(acc, s)
            * s + a * eval_poly(b, s)) % modulus(),
{
    let e0 = eval_poly(acc, s);
    let e1 = eval_poly(shifted_reduced(acc, m), s);
    lemma_eval_shifted_reduced(acc, m, s);
    lemma_eval_plus_scaled(shifted_reduced(acc, m), a, b, s);
    assert(acc[0] * 0 == 0);
    lemma_field_sub_mul(field_mul(e0, s), acc[0], 0);
    assert(e1 % modulus() == (e0 * s) % modulus()) by {
        lemma_mod_twice(e0 * s, modulus());
    }
    lemma_field_add_mul(a, eval_poly(b, s), e1);
    lemma_add_congruent(e1, e0 * s, a * eval_poly(b, s), a * eval_poly(b, s));
}

/// The residue of the product of two residues: at every root of `m`, its
/// value is the product of their values.
pub(crate) fn multiply(
    a: &Vec<ModularInteger>,
    b: &Vec<ModularInteger>,
    m: &Vec<ModularInteger>,
) -> (r: Vec<ModularInteger>)
    requires
        a.len() == m.len(),
        b.len() == m.len(),
        m.len() >= 1,
    ensures
        r.len() == m.len(),
        forall|s: int|
            is_root(values(m@), s) ==> #[trigger] eval_poly(values(r@), s) == field_mul(
                eval_poly(values(a@), s),
                eval_poly(values(b@), s),
            ),
{
    let n = m.len();
    let mut acc = zero_residue(n);
    let mut i: usize = 0;
    proof {
        assert forall|s: int| is_root(values(m@), s) implies #[trigger] eval_poly(
            values(acc@),
            s,
        ) == field_mul(eval_poly(values(a@).take(0), s), eval_poly(values(b@), s)) by {
            lemma_eval_zeros(values(acc@), s);
            assert(0 * eval_poly(values(b@), s) == 0);
        }
    }
    while i < n
        invariant
            i <= n,
            n == m.len(),
            n == a.len(),
            n == b.len(),
            n >= 1,
            acc.len() == n,
            forall|s: int|
                is_root(values(m@), s) ==> #[trigger] eval_poly(values(acc@), s) == field_mul(
                    eval_poly(values(a@).take(i as int), s),
                    eval_poly(values(b@), s),
                ),
        decreases n - i,
    {
        let shifted = times_x(&acc, m);
        let next = add_scaled(&shifted, a[i], b);
        proof {
            assert forall|s: int| is_root(values(m@), s) implies #[trigger] eval_poly(
                values(next@),
                s,
            ) == field_mul(eval_poly(values(a@).take(i + 1), s), eval_poly(values(b@), s)) by {
                let e0 = eval_poly(values(acc@), s);
                let ea = eval_poly(values(a@).take(i as int), s);
                let ea1 = eval_poly(values(a@).take(i + 1), s);
                let eb = eval_poly(values(b@), s);
                let e2 = eval_poly(values(next@), s);
                lemma_horner_step_at_root(values(acc@), values(m@), a[i as int]@, values(b@), s);
                assert(values(a@).take(i + 1).drop_last() =~= values(a@).take(i as int));
                assert(ea1 == field_add(field_mul(ea, s), a[i as int]@));
                lemma_field_add_mul(ea, s, a[i as int]@);
                assert(e0 == field_mul(ea, eb));
                lemma_mod_twice(ea * eb, modulus());
                lemma_multiply_step(e0, e0 * s, e2, ea, ea1, eb, a[i as int]@, s);
                assert(e2 % modulus() == e2) by {
                    lemma_eval_plus_scaled(values(shifted@), a[i as int]@, values(b@), s);
                }
            }
        }
        acc = next;
        i = i + 1;
    }
    proof {
        assert(values(a@).take(n as int) =~= values(a@));
    }
    acc
}

/// A power of a residue, by square-and-multiply: at every root of `m`, its
/// value is that power of the residue's value.
pub(crate) fn power(
    base: &Vec<ModularInteger>,
    exponent: u32,
    m: &Vec<ModularInteger>,
) -> (r: Vec<ModularInteger>)
    requires
        base.len() == m.len(),
        m.len() >= 1,
    ensures
        r.len() == m.len(),
        forall|s: int|
            is_root(values(m@), s) ==> #[trigger] eval_poly(values(r@), s) == field_pow(
                eval_poly(values(base@), s),
                exponent as nat,
            ),
{
    let n = m.len();
    let mut result = one_residue(n);
    let mut square = multiply(base, &one_residue(n), m);
    let mut e: u32 = exponent;
    proof {
        assert forall|s: int| is_root(values(m@), s) implies field_mul(
            #[trigger] eval_poly(values(result@), s),
            field_pow(eval_poly(values(square@), s), e as nat),
        ) == field_pow(eval_poly(values(base@), s), exponent as nat) by {
            let eb = eval_poly(values(base@), s);
            lemma_eval_unit(n as nat, s);
            assert(eb * 1 == eb);
            assert(eval_poly(values(square@), s) == eb % modulus());
            lemma_field_pow_step(eb, e as nat);
            assert(1 * field_pow(eb, e as nat) == field_pow(eb, e as nat));
        }
    }
    while e > 0
        invariant
            n == m.len(),
            n >= 1,
            result.len() == n,
            square.len() == n,
            forall|s: int|
                is_root(values(m@), s) ==> field_mul(
                    #[trigger] eval_poly(values(result@), s),
                    field_pow(eval_poly(values(square@), s), e as nat),
                ) == field_pow(eval_poly(values(base@), s), exponent as nat),
        decreases e,
    {
        let next_result = if e % 2 == 1 {
            multiply(&result, &square, m)
        } else {
            multiply(&result, &one_residue(n), m)
        };
        let next_square = multiply(&square, &square, m);
        proof {
            assert forall|s: int| is_root(values(m@), s) implies field_mul(
                #[trigger] eval_poly(values(next_result@), s),
                field_pow(eval_poly(values(next_square@), s), (e / 2) as nat),
            ) == field_pow(eval_poly(values(base@), s), exponent as nat) by {
                let er = eval_poly(values(result@), s);
                let es = eval_poly(values(square@), s);
                lemma_square_and_multiply(er, es, e as nat);
                lemma_eval_unit(n as nat, s);
                assert(field_mul(er, field_pow(es, e as nat)) == field_pow(
                    eval_poly(values(base@), s),
                    exponent as nat,
                ));
                if e % 2 == 0 {
                    // the accumulator keeps its value, up to reduction
                    assert(er * 1 == er);
                    lemma_mul_congruent(
                        er % modulus(),
                        er,
                        field_pow(field_mul(es, es), (e / 2) as nat),
                        field_pow(field_mul(es, es), (e / 2) as nat),
                    );
                    lemma_mod_twice(er, modulus());
                }
            }
        }
        result = next_result;
        square = next_square;
        e = e / 2;
    }
    proof {
        assert forall|s: int| is_root(values(m@), s) implies #[trigger] eval_poly(
            values(result@),
            s,
        ) == field_pow(eval_poly(values(base@), s), exponent as nat) by {
            let er = eval_poly(values(result@), s);
            let es = eval_poly(values(square@), s);
            lemma_field_pow_step(es, 0);
            assert(er * 1 == er);
            assert(field_mul(er, field_pow(es, 0)) == er % modulus());
            lemma_eval_canonical(values(result@), s);
        }
    }
    result
}

/// The value of a polynomial is a field element.
pub proof fn lemma_eval_canonical(c: Seq<int>, s: int)
    ensures
        is_element(eval_poly(c, s)),
        is_element(eval_monic(c, s)),
{
}

/// The residue of the monic polynomial with the coefficients `a` modulo
/// `m`: at every root of `m`, its value is the value of the polynomial.
pub(crate) fn remainder(
    a: &Vec<ModularInteger>,
    m: &Vec<ModularInteger>,
) -> (r: Vec<ModularInteger>)
    requires
        m.len() >= 1,
    ensures
        r.len() == m.len(),
        forall|s: int|
            is_root(values(m@), s) ==> #[trigger] eval_poly(values(r@), s) == eval_monic(
                values(a@),
                s,
            ),
{
    let n = m.len();
    let unit = one_residue(n);
    let mut acc = one_residue(n);
    let mut i: usize = 0;
    proof {
        assert forall|s: int| is_root(values(m@), s) implies #[trigger] eval_poly(
            values(acc@),
            s,
        ) == eval_monic(values(a@).take(0), s) by {
            lemma_eval_unit(n as nat, s);
        }
    }
    while i < a.len()
        invariant
            i <= a.len(),
            n == m.len(),
            n >= 1,
            acc.len() == n,
            unit.len() == n,
            values(unit@) == unit_residue(n as nat),
            forall|s: int|
                is_root(values(m@), s) ==> #[trigger] eval_poly(values(acc@), s) == eval_monic(
                    values(a@).take(i as int),
                    s,
                ),
        decreases a.len() - i,
    {
        let shifted = times_x(&acc, m);
        let next = add_scaled(&shifted, a[i], &unit);
        proof {
            assert forall|s: int| is_root(values(m@), s) implies #[trigger] eval_poly(
                values(next@),
                s,
            ) == eval_monic(values(a@).take(i + 1), s) by {
                let e0 = eval_poly(values(acc@), s);
                let ai = a[i as int]@;
                lemma_horner_step_at_root(values(acc@), values(m@), ai, values(unit@), s);
                lemma_eval_unit(n as nat, s);
                assert(ai * 1 == ai);
                assert(values(a@).take(i + 1).drop_last() =~= values(a@).take(i as int));
                assert(eval_monic(values(a@).take(i + 1), s) == field_add(field_mul(e0, s), ai));
                lemma_field_add_mul(e0, s, ai);
                lemma_eval_canonical(values(next@), s);
            }
        }
        acc = next;
        i = i + 1;
    }
    proof {
        assert(values(a@).take(a.len() as int) =~= values(a@));
    }
    acc
}

/// Zeros at the top of a polynomial do not change its value.
proof fn lemma_eval_leading_zeros(c: Seq<int>, z: int, s: int)
    requires
        0 <= z <= c.len(),
        forall|k: int| 0 <= k < z ==> c[k] == 0,
    ensures
        eval_poly(c, s) == eval_poly(c.skip(z), s),
    decreases c.len(),
{
    if z == c.len() {
        lemma_eval_zeros(c, s);
        assert(c.skip(z) =~= Seq::<int>::empty());
    } else {
        lemma_eval_leading_zeros(c.drop_last(), z, s);
        assert(c.skip(z).drop_last() =~= c.drop_last().skip(z));
        assert(c.skip(z).last() == c.last());
    }
}

/// The polynomial `tail` made monic: each coefficient below the leading one
/// times the inverse of the leading one.
pub open spec fn made_monic(tail: Seq<int>, inverse: int) -> Seq<int> {
    Seq::new((tail.len() - 1) as nat, |k: int| field_mul(tail[k + 1], inverse))
}

proof fn lemma_made_monic_step(
    e0: int,
    e1: int,
    a0: int,
    a1: int,
    mk: int,
    t: int,
    inverse: int,
    s: int,
)
    requires
        e0 % modulus() == (inverse * a0) % modulus(),
        e1 % modulus() == (e0 * s + mk) % modulus(),
        mk % modulus() == (t * inverse) % modulus(),
        a1 % modulus() == (a0 * s + t) % modulus(),
    ensures
        e1 % modulus() == (inverse * a1) % modulus(),
{
    lemma_mul_congruent(e0, inverse * a0, s, s);
    lemma_mul_congruent(inverse, inverse, a1, a0 * s + t);
    lemma_add_congruent(e0 * s, (inverse * a0) * s, mk, t * inverse);
    assert((inverse * a0) * s + t * inverse == inverse * (a0 * s + t)) by (nonlinear_arith);
}

proof fn lemma_eval_made_monic_prefix(tail: Seq<int>, inverse: int, s: int, k: int)
    requires
        tail.len() >= 1,
        (tail[0] * inverse) % modulus() == 1,
        0 <= k < tail.len(),
    ensures
        eval_monic(made_monic(tail, inverse).take(k), s) % modulus() == (inverse * eval_poly(
            tail.take(k + 1),
            s,
        )) % modulus(),
    decreases k,
{
    let mp = made_monic(tail, inverse);
    if k == 0 {
        assert(tail.take(1).drop_last() =~= Seq::<int>::empty());
        assert(eval_poly(tail.take(1).drop_last(), s) == 0);
        assert(eval_poly(tail.take(1), s) == field_add(field_mul(0, s), tail[0]));
        assert(0 * s == 0);
        lemma_mul_congruent(inverse, inverse, eval_poly(tail.take(1), s), tail[0]);
        lemma_mul_is_commutative(inverse, tail[0]);
        assert(eval_monic(mp.take(0), s) == 1);
    } else {
        let j = k - 1;
        lemma_eval_made_monic_prefix(tail, inverse, s, j);
        let e0 = eval_monic(mp.take(j), s);
        let e1 = eval_monic(mp.take(k), s);
        let a0 = eval_poly(tail.take(j + 1), s);
        let a1 = eval_poly(tail.take(k + 1), s);
        assert(mp.take(k).drop_last() =~= mp.take(j));
        assert(tail.take(k + 1).drop_last() =~= tail.take(j + 1));
        assert(e1 == field_add(field_mul(e0, s), mp[j]));
        assert(a1 == field_add(field_mul(a0, s), tail[k]));
        assert(mp[j] == field_mul(tail[k], inverse));
        lemma_field_add_mul(e0, s, mp[j]);
        lemma_field_add_mul(a0, s, tail[k]);
        lemma_mod_twice(tail[k] * inverse, modulus());
        lemma_made_monic_step(e0, e1, a0, a1, mp[j], tail[k], inverse, s);
    }
}

/// Where a polynomial is 0, so is the monic polynomial made from it.
proof fn lemma_made_monic_keeps_roots(tail: Seq<int>, inverse: int, s: int)
    requires
        tail.len() >= 1,
        (tail[0] * inverse) % modulus() == 1,
        eval_poly(tail, s) == 0,
    ensures
        is_root(made_monic(tail, inverse), s),
{
    let mp = made_monic(tail, inverse);
    let n = tail.len() as int;
    lemma_eval_made_monic_prefix(tail, inverse, s, n - 1);
    assert(mp.take(n - 1) =~= mp);
    assert(tail.take(n) =~= tail);
    assert(inverse * 0 == 0);
    lemma_eval_canonical(mp, s);
}

/// The monic polynomial with the roots of the polynomial with the
/// coefficients `b`, the highest power first; `None` where `b` is zero.
pub(crate) fn monic_part(b: &Vec<ModularInteger>) -> (r: Option<Vec<ModularInteger>>)
    ensures
        match r {
            Some(monic) => monic.len() < b.len() && forall|s: int|
                #[trigger] eval_poly(values(b@), s) == 0 ==> is_root(values(monic@), s),
            None => forall|k: int| 0 <= k < b.len() ==> (#[trigger] b[k])@ == 0,
        },
{
    let n = b.len();
    let mut z: usize = 0;
    while z < n && b[z].is_zero()
        invariant
            z <= n,
            n == b.len(),
            forall|k: int| 0 <= k < z ==> (#[trigger] b[k])@ == 0,
        decreases n - z,
    {
        z = z + 1;
    }
    if z == n {
        return None;
    }
    let lead = b[z];
    let inverse = lead.inv();
    let _ = lead.value();
    let ghost tail = values(b@).skip(z as int);
    let mut monic: Vec<ModularInteger> = Vec::new();
    let mut k: usize = z + 1;
    while k < n
        invariant
            z < k <= n,
            n == b.len(),
            monic.len() == k - z - 1,
            tail == values(b@).skip(z as int),
            forall|j: int|
                0 <= j < monic.len() ==> (#[trigger] monic[j])@ == made_monic(tail, inverse@)[j],
        decreases n - k,
    {
        monic.push(b[k].mul(inverse));
        k = k + 1;
    }
    proof {
        assert(values(monic@) =~= made_monic(tail, inverse@));
        assert(tail[0] == lead@);
        lemma_small_mod(lead@ as nat, modulus() as nat);
        lemma_inverse_exists(lead@);
        assert forall|s: int| #[trigger] eval_poly(values(b@), s) == 0 implies is_root(
            values(monic@),
            s,
        ) by {
            lemma_eval_leading_zeros(values(b@), z as int, s);
            lemma_made_monic_keeps_roots(tail, inverse@, s);
        }
    }
    Some(monic)
}

/// A monic polynomial that vanishes wherever both the monic polynomial with
/// the coefficients `u` and the residue `w` modulo it do: their greatest
/// common divisor, by Euclid's algorithm.
pub(crate) fn common_factor(
    u: &Vec<ModularInteger>,
    w: Vec<ModularInteger>,
) -> (g: Vec<ModularInteger>)
    requires
        w.len() == u.len(),
    ensures
        g.len() <= u.len(),
        forall|s: int|
            #[trigger] is_root(values(u@), s) && eval_poly(values(w@), s) == 0 ==> is_root(
                values(g@),
                s,
            ),
{
    let mut a = copy_residue(u);
    let mut b = w;
    loop
        invariant
            a.len() <= u.len(),
            b.len() == a.len(),
            forall|s: int|
                #[trigger] is_root(values(u@), s) && eval_poly(values(w@), s) == 0 ==> is_root(
                    values(a@),
                    s,
                ) && eval_poly(values(b@), s) == 0,
        decreases a.len(),
    {
        match monic_part(&b) {
            None => {
                return a;
            },
            Some(monic) => {
                if monic.len() == 0 {
                    proof {
                        assert forall|s: int|
                            #[trigger] is_root(values(u@), s) && eval_poly(values(w@), s)
                                == 0 implies is_root(values(monic@), s) by {
                            assert(eval_poly(values(b@), s) == 0);
                        }
                    }
                    return monic;
                }
                let r = remainder(&a, &monic);
                proof {
                    assert forall|s: int|
                        #[trigger] is_root(values(u@), s) && eval_poly(values(w@), s)
                            == 0 implies is_root(values(monic@), s) && eval_poly(values(r@), s)
                        == 0 by {
                        assert(eval_poly(values(b@), s) == 0);
                        assert(is_root(values(monic@), s));
                        assert(eval_poly(values(r@), s) == eval_monic(values(a@), s));
                    }
                }
                a = monic;
                b = r;
            },
        }
    }
}

/// A copy of a residue.
pub(crate) fn copy_residue(source: &Vec<ModularInteger>) -> (v: Vec<ModularInteger>)
    ensures
        v@ == source@,
{
    let mut v: Vec<ModularInteger> = Vec::new();
    let mut i: usize = 0;
    while i < source.len()
        invariant
            i <= source.len(),
            v@ == source@.take(i as int),
        decreases source.len() - i,
    {
        v.push(source[i]);
        proof {
            assert(source@.take(i + 1) =~= source@.take(i as int).push(source[i as int]));
        }
        i = i + 1;
    }
    proof {
        assert(source@.take(source.len() as int) =~= source@);
    }
    v
}

} // verus!
