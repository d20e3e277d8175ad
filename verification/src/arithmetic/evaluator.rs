//! Monic polynomials over the field, given by their coefficients below the
//! leading one: `[c1, .., ct]` stands for `x^t + c1 x^(t-1) + .. + ct`.
use crate::arithmetic::fermat::lemma_fermat;
use crate::arithmetic::field::{field_add, field_mul, is_element, modulus, MODULUS};
use crate::arithmetic::modint::{values, ModularInteger};
use crate::arithmetic::residue::{
    add_scaled, common_factor, copy_residue, eval_poly, lemma_eval_plus_scaled,
    lemma_eval_shifted_reduced, lemma_eval_unit, one_residue, power, times_x,
};
use crate::arithmetic::roots::{
    all_elements, deflated, is_factorization, lemma_deflated, lemma_from_roots_is_product,
    lemma_product_with_inner, lemma_rootless_factor, product_with, splits_completely,
};
use vstd::arithmetic::div_mod::*;
use vstd::arithmetic::mul::*;
use vstd::prelude::*;

verus! {

/// The value at `x` of the monic polynomial with the coefficients `coeffs`,
/// by Horner's rule from the implicit leading 1.
pub open spec fn eval_monic(coeffs: Seq<int>, x: int) -> int
    decreases coeffs.len(),
{
    if coeffs.len() == 0 {
        1
    } else {
        field_add(field_mul(eval_monic(coeffs.drop_last(), x), x), coeffs.last())
    }
}

/// Whether `x` is a root of the monic polynomial with the coefficients
/// `coeffs`.
pub open spec fn is_root(coeffs: Seq<int>, x: int) -> bool {
    eval_monic(coeffs, x) == 0
}

/// The numbers that `roots` hold, as integers.
pub open spec fn root_values(roots: Seq<u32>) -> Seq<int> {
    Seq::new(roots.len(), |i: int| roots[i] as int)
}

/// A copy of `source`, known to hold field elements.
fn checked_copy(source: &Vec<ModularInteger>) -> (v: Vec<ModularInteger>)
    ensures
        v@ == source@,
        all_elements(values(source@)),
{
    let mut v: Vec<ModularInteger> = Vec::new();
    let mut i: usize = 0;
    while i < source.len()
        invariant
            i <= source.len(),
            v@ == source@.take(i as int),
            forall|k: int| 0 <= k < i ==> is_element(#[trigger] values(source@)[k]),
        decreases source.len() - i,
    {
        let element = source[i];
        let _ = element.value();
        v.push(element);
        proof {
            assert(source@.take(i + 1) =~= source@.take(i as int).push(source[i as int]));
        }
        i = i + 1;
    }
    proof {
        assert(source@.take(source.len() as int) =~= source@);
    }
    v
}

/// Divides the monic polynomial with the coefficients `coeffs` by
/// `x - root`, by Horner's rule, and drops the remainder.
fn deflate(coeffs: &Vec<ModularInteger>, root: ModularInteger) -> (quotient: Vec<ModularInteger>)
    requires
        coeffs.len() >= 1,
    ensures
        values(quotient@) == deflated(values(coeffs@), root@),
{
    let size = coeffs.len() - 1;
    let ghost c = values(coeffs@);
    let mut quotient: Vec<ModularInteger> = Vec::new();
    let mut partial = ModularInteger::one();
    let mut k: usize = 0;
    while k < size
        invariant
            k <= size,
            size == coeffs.len() - 1,
            c == values(coeffs@),
            quotient.len() == k,
            partial@ == eval_monic(c.take(k as int), root@),
            forall|j: int|
                0 <= j < k ==> (#[trigger] quotient[j])@ == eval_monic(c.take(j + 1), root@),
        decreases size - k,
    {
        proof {
            assert(c.take(k + 1).drop_last() =~= c.take(k as int));
        }
        partial = partial.mul(root).add(coeffs[k]);
        quotient.push(partial);
        k = k + 1;
    }
    proof {
        assert(values(quotient@) =~= deflated(c, root@));
    }
    quotient
}

/// Looks for a root by trying every field element in turn.
fn scan_for_root(coeffs: &Vec<ModularInteger>) -> (found: Option<ModularInteger>)
    ensures
        match found {
            Some(root) => is_root(values(coeffs@), root@) && is_element(root@),
            None => forall|s: int| is_element(s) ==> !is_root(values(coeffs@), s),
        },
{
    let mut x: u32 = 0;
    while x < MODULUS
        invariant
            x <= MODULUS,
            forall|s: int| 0 <= s < x ==> !is_root(values(coeffs@), s),
        decreases MODULUS - x,
    {
        if MonicPolynomialEvaluator::eval(coeffs, x).is_zero() {
            let root = ModularInteger::new(x);
            return Some(root);
        }
        x = x + 1;
    }
    None
}

/// Evaluates and factors monic polynomials over the field.
pub struct MonicPolynomialEvaluator;

impl MonicPolynomialEvaluator {
    /// Evaluates the monic polynomial with the coefficients `coeffs` at `x`.
    pub fn eval(coeffs: &Vec<ModularInteger>, x: u32) -> (r: ModularInteger)
        ensures
            r@ == eval_monic(values(coeffs@), x as int),
    {
        let size = coeffs.len();
        let point = ModularInteger::new(x);
        let mut result = ModularInteger::one();
        let mut i: usize = 0;
        while i < size
            invariant
                i <= size,
                size == coeffs.len(),
                point@ == (x as int) % modulus(),
                result@ == eval_monic(values(coeffs@).take(i as int), x as int),
            decreases size - i,
        {
            proof {
                let next = values(coeffs@).take(i + 1);
                assert(next.drop_last() =~= values(coeffs@).take(i as int));
                assert(next.last() == coeffs[i as int]@);
                lemma_mul_mod_noop_general(result@, x as int, modulus());
            }
            result = result.mul(point).add(coeffs[i]);
            i = i + 1;
        }
        proof {
            assert(values(coeffs@).take(size as int) =~= values(coeffs@));
        }
        result
    }

    /// The roots of the monic polynomial with the coefficients `coeffs`,
    /// each as often as it occurs, if the polynomial is a product of linear
    /// factors over the field; an error if it is not.
    pub fn factor(coeffs: &Vec<ModularInteger>) -> (r: Result<Vec<u32>, String>)
        ensures
            match r {
                Ok(roots) => is_factorization(values(coeffs@), root_values(roots@)),
                Err(_) => !splits_completely(values(coeffs@)),
            },
    {
        let mut rest = checked_copy(coeffs);
        let mut roots: Vec<u32> = Vec::new();
        let ghost f = values(coeffs@);
        while rest.len() > 0
            invariant
                f == values(coeffs@),
                f == product_with(values(rest@), root_values(roots@)),
                all_elements(values(rest@)),
                all_elements(root_values(roots@)),
            decreases rest.len(),
        {
            match find_root(&rest) {
                None => {
                    proof {
                        lemma_rootless_factor(values(rest@), root_values(roots@));
                    }
                    return Err("could not factor polynomial".to_owned());
                },
                Some(root) => {
                    let quotient = deflate(&rest, root);
                    proof {
                        lemma_deflated(values(rest@), root@);
                        lemma_product_with_inner(values(quotient@), root@, root_values(roots@));
                        assert(root_values(roots@).push(root@) =~= root_values(
                            roots@.push(root@ as u32),
                        ));
                    }
                    roots.push(root.value());
                    rest = quotient;
                },
            }
        }
        proof {
            lemma_from_roots_is_product(root_values(roots@));
            assert(values(rest@) =~= Seq::<int>::empty());
            lemma_product_with_inner(values(rest@), 0, root_values(roots@));
        }
        Ok(roots)
    }
}

/// Finds a root of the monic polynomial with the coefficients `factor`, or
/// finds that it has none. Meant for a product of distinct linear factors,
/// which it splits with the greatest common divisors of it and
/// `(x + a)^((p - 1) / 2) - 1` for `a` from 0 up, until one part is linear;
/// the root of that part is tried on the polynomial. Where that does not
/// give a root within 128 steps, every field element is tried.
fn narrow(factor: Vec<ModularInteger>) -> (found: Option<ModularInteger>)
    requires
        factor.len() >= 1,
    ensures
        match found {
            Some(root) => is_root(values(factor@), root@) && is_element(root@),
            None => forall|s: int| is_element(s) ==> !is_root(values(factor@), s),
        },
{
    let mut g = copy_residue(&factor);
    let mut shift: u32 = 0;
    while g.len() > 1 && shift < 128
        invariant
            g.len() >= 1,
            shift <= 128,
        decreases 128 - shift,
    {
        let n = g.len();
        let unit = one_residue(n);
        let x = times_x(&unit, &g);
        let shifted = add_scaled(&x, ModularInteger::new(shift), &unit);
        let half = power(&shifted, (MODULUS - 1) / 2, &g);
        let less_one = add_scaled(&half, ModularInteger::one().neg(), &unit);
        let part = common_factor(&g, less_one);
        if part.len() >= 1 && part.len() < n {
            g = part;
        }
        shift = shift + 1;
    }
    if g.len() == 1 {
        let root = g[0].neg();
        if MonicPolynomialEvaluator::eval(&factor, root.value()).is_zero() {
            proof {
                lemma_small_mod(root@ as nat, modulus() as nat);
            }
            return Some(root);
        }
    }
    scan_for_root(&factor)
}

/// Finds a root of the monic polynomial with the coefficients `coeffs`, or
/// finds that it has none. Every root of the polynomial is a root of its
/// greatest common divisor with `x^p - x`, so the search is made there; a
/// root found there is tried on the polynomial itself.
fn find_root(coeffs: &Vec<ModularInteger>) -> (found: Option<ModularInteger>)
    requires
        coeffs.len() >= 1,
    ensures
        match found {
            Some(root) => is_root(values(coeffs@), root@) && is_element(root@),
            None => forall|s: int| is_element(s) ==> !is_root(values(coeffs@), s),
        },
{
    let n = coeffs.len();
    if n == 1 {
        let root = coeffs[0].neg();
        proof {
            let c = values(coeffs@);
            assert(c.drop_last() =~= Seq::<int>::empty());
            assert(eval_monic(c.drop_last(), root@) == 1);
            assert(1 * root@ == root@);
        }
        return Some(root);
    }
    let unit = one_residue(n);
    let x = times_x(&unit, coeffs);
    let raised = power(&x, MODULUS, coeffs);
    let minus_one = ModularInteger::one().neg();
    let difference = add_scaled(&raised, minus_one, &x);
    let g = common_factor(coeffs, difference);
    proof {
        let c = values(coeffs@);
        assert forall|s: int| is_element(s) && is_root(c, s) implies is_root(values(g@), s) by {
            // at a root, x is worth s and x^p is worth s^p, which is s
            lemma_eval_shifted_reduced(values(unit@), c, s);
            lemma_eval_unit(n as nat, s);
            assert(1 * s == s);
            assert(values(unit@)[0] * 0 == 0);
            let ex = eval_poly(values(x@), s);
            assert(ex == s);
            lemma_fermat(s);
            let er = eval_poly(values(raised@), s);
            assert(er == s);
            lemma_eval_plus_scaled(values(raised@), minus_one@, values(x@), s);
            assert(minus_one@ == modulus() - 1);
            assert(eval_poly(values(difference@), s) == 0) by {
                assert((modulus() - 1) * s == modulus() * s - s) by (nonlinear_arith);
                lemma_mod_multiples_basic(s, modulus());
                lemma_mul_is_commutative(s, modulus());
            }
        }
    }
    if g.len() == 0 {
        proof {
            assert(values(g@) =~= Seq::<int>::empty());
        }
        return None;
    }
    match narrow(g) {
        Some(root) => {
            if MonicPolynomialEvaluator::eval(coeffs, root.value()).is_zero() {
                proof {
                    lemma_small_mod(root@ as nat, modulus() as nat);
                }
                Some(root)
            } else {
                scan_for_root(coeffs)
            }
        },
        None => None,
    }
}

} // verus!
