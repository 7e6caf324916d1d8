use vstd::prelude::*;
use vstd::arithmetic::div_mod::{
    lemma_add_mod_noop, lemma_fundamental_div_mod, lemma_fundamental_div_mod_converse,
    lemma_mod_bound, lemma_mod_multiples_basic, lemma_mul_mod_noop_general, lemma_small_mod,
};

verus! {

/// The three-valued abstract domain of gate expressions.
///
/// `Zero` claims that the expression is zero under every assignment, `NonZero`
/// that it is never zero, and `Variable` claims nothing.
#[derive(Debug, Clone, Copy, PartialEq, Eq, Structural, PartialOrd, Ord)]
pub enum AbsResult {
    Variable,
    NonZero,
    Zero,
}

/// Abstract addition: a sum of two non-zero values may cancel.
pub open spec fn sum_abs(a: AbsResult, b: AbsResult) -> AbsResult {
    match (a, b) {
        (AbsResult::Variable, _) => AbsResult::Variable,
        (_, AbsResult::Variable) => AbsResult::Variable,
        (AbsResult::NonZero, AbsResult::NonZero) => AbsResult::Variable,
        (AbsResult::Zero, AbsResult::Zero) => AbsResult::Zero,
        _ => AbsResult::NonZero,
    }
}

/// Abstract multiplication: zero absorbs, and a field has no zero divisors.
pub open spec fn product_abs(a: AbsResult, b: AbsResult) -> AbsResult {
    match (a, b) {
        (AbsResult::Zero, _) => AbsResult::Zero,
        (_, AbsResult::Zero) => AbsResult::Zero,
        (AbsResult::NonZero, AbsResult::NonZero) => AbsResult::NonZero,
        _ => AbsResult::Variable,
    }
}

/// Abstract scaling by a constant whose zero-ness is `scale_is_zero`.
pub open spec fn scaled_abs(a: AbsResult, scale_is_zero: bool) -> AbsResult {
    if scale_is_zero {
        AbsResult::Zero
    } else {
        a
    }
}

/// Combines the abstract values of the two operands of a sum.
pub fn combine_sum(a: AbsResult, b: AbsResult) -> (r: AbsResult)
    ensures
        r == sum_abs(a, b),
{
    match (a, b) {
        (AbsResult::Variable, _) => AbsResult::Variable,
        (_, AbsResult::Variable) => AbsResult::Variable,
        (AbsResult::NonZero, AbsResult::NonZero) => AbsResult::Variable,
        (AbsResult::Zero, AbsResult::Zero) => AbsResult::Zero,
        (AbsResult::Zero, AbsResult::NonZero) => AbsResult::NonZero,
        (AbsResult::NonZero, AbsResult::Zero) => AbsResult::NonZero,
    }
}

/// Combines the abstract values of the two operands of a product.
pub fn combine_product(a: AbsResult, b: AbsResult) -> (r: AbsResult)
    ensures
        r == product_abs(a, b),
{
    match (a, b) {
        (AbsResult::Zero, _) => AbsResult::Zero,
        (_, AbsResult::Zero) => AbsResult::Zero,
        (AbsResult::NonZero, AbsResult::NonZero) => AbsResult::NonZero,
        _ => AbsResult::Variable,
    }
}

/// `p` is a prime, the order of a prime field.
pub open spec fn is_prime(p: int) -> bool {
    &&& p > 1
    &&& forall|d: int| 1 < d < p ==> #[trigger] (p % d) != 0
}

/// The field element `v mod p` is zero.
pub open spec fn is_zero_mod(v: int, p: int) -> bool {
    v % p == 0
}

/// The abstract value `r` is a true description of the field element `v mod p`.
pub open spec fn describes(r: AbsResult, v: int, p: int) -> bool {
    match r {
        AbsResult::Zero => is_zero_mod(v, p),
        AbsResult::NonZero => !is_zero_mod(v, p),
        AbsResult::Variable => true,
    }
}

/// The most precise abstract value of a single field element.
pub open spec fn abstract_of(v: int, p: int) -> AbsResult {
    if is_zero_mod(v, p) {
        AbsResult::Zero
    } else {
        AbsResult::NonZero
    }
}

proof fn lemma_reduced_product_nonzero(a: int, b: int, p: int)
    requires
        is_prime(p),
        0 < a < p,
        0 < b < p,
    ensures
        (a * b) % p != 0,
    decreases a,
{
    if a == 1 {
        lemma_small_mod(b as nat, p as nat);
    } else {
        let r = p % a;
        let q = p / a;
        assert(p % a != 0);
        lemma_mod_bound(p, a);
        lemma_fundamental_div_mod(p, a);
        lemma_reduced_product_nonzero(r, b, p);
        if (a * b) % p == 0 {
            let m = (a * b) / p;
            lemma_fundamental_div_mod(a * b, p);
            assert(a * b == p * m);
            assert(p == a * q + r);
            assert(r * b == (b - q * m) * p) by (nonlinear_arith)
                requires
                    p == a * q + r,
                    a * b == p * m,
            ;
            lemma_mod_multiples_basic(b - q * m, p);
        }
    }
}

/// A prime field has no zero divisors.
pub proof fn lemma_no_zero_divisors(a: int, b: int, p: int)
    requires
        is_prime(p),
        !is_zero_mod(a, p),
        !is_zero_mod(b, p),
    ensures
        !is_zero_mod(a * b, p),
{
    lemma_mod_bound(a, p);
    lemma_mod_bound(b, p);
    lemma_mul_mod_noop_general(a, b, p);
    lemma_reduced_product_nonzero(a % p, b % p, p);
}

/// Negation keeps zero-ness: `-v` is zero exactly when `v` is.
pub proof fn lemma_negation_keeps_zeroness(v: int, p: int)
    requires
        p > 1,
    ensures
        is_zero_mod(-v, p) == is_zero_mod(v, p),
{
    lemma_mod_bound(v, p);
    lemma_fundamental_div_mod(v, p);
    let t = v % p;
    let q = v / p;
    if t == 0 {
        assert(-v == (-q) * p + 0) by (nonlinear_arith)
            requires
                v == p * q + t,
                t == 0,
        ;
        lemma_fundamental_div_mod_converse(-v, p, -q, 0);
    } else {
        assert(-v == (-q - 1) * p + (p - t)) by (nonlinear_arith)
            requires
                v == p * q + t,
        ;
        lemma_fundamental_div_mod_converse(-v, p, -q - 1, p - t);
    }
}

/// Abstract addition is sound: whatever field elements the operands describe,
/// the combined value describes their sum (it never claims `NonZero` for a sum
/// of two non-zero values, which may cancel).
pub proof fn lemma_sum_sound(ra: AbsResult, rb: AbsResult, a: int, b: int, p: int)
    requires
        p > 1,
        describes(ra, a, p),
        describes(rb, b, p),
    ensures
        describes(sum_abs(ra, rb), a + b, p),
{
    lemma_add_mod_noop(a, b, p);
    lemma_mod_bound(a, p);
    lemma_mod_bound(b, p);
    if ra == AbsResult::Zero && rb == AbsResult::NonZero {
        lemma_small_mod((b % p) as nat, p as nat);
    } else if ra == AbsResult::NonZero && rb == AbsResult::Zero {
        lemma_small_mod((a % p) as nat, p as nat);
    } else if ra == AbsResult::Zero && rb == AbsResult::Zero {
        lemma_small_mod(0, p as nat);
    }
}

/// Abstract multiplication is sound over a prime field.
pub proof fn lemma_product_sound(ra: AbsResult, rb: AbsResult, a: int, b: int, p: int)
    requires
        is_prime(p),
        describes(ra, a, p),
        describes(rb, b, p),
    ensures
        describes(product_abs(ra, rb), a * b, p),
{
    lemma_mul_mod_noop_general(a, b, p);
    if ra == AbsResult::Zero || rb == AbsResult::Zero {
        lemma_small_mod(0, p as nat);
        assert((a % p) * (b % p) == 0) by (nonlinear_arith)
            requires
                a % p == 0 || b % p == 0,
        ;
    } else if ra == AbsResult::NonZero && rb == AbsResult::NonZero {
        lemma_no_zero_divisors(a, b, p);
    }
}

/// Abstract scaling is sound over a prime field: scaling by zero gives zero,
/// scaling by a non-zero constant keeps the operand's description.
pub proof fn lemma_scaled_sound(r: AbsResult, v: int, k: int, p: int)
    requires
        is_prime(p),
        describes(r, v, p),
    ensures
        describes(scaled_abs(r, is_zero_mod(k, p)), v * k, p),
{
    lemma_product_sound(r, abstract_of(k, p), v, k, p);
}

/// The abstract combinators agree with concrete field arithmetic: combining
/// the abstract values of two field elements describes their sum, their
/// product, the negation and each scaling, and is never more precise than true.
pub proof fn lemma_combinators_sound(a: int, b: int, p: int)
    requires
        is_prime(p),
    ensures
        describes(sum_abs(abstract_of(a, p), abstract_of(b, p)), a + b, p),
        describes(product_abs(abstract_of(a, p), abstract_of(b, p)), a * b, p),
        describes(abstract_of(a, p), -a, p),
        describes(scaled_abs(abstract_of(a, p), is_zero_mod(b, p)), a * b, p),
{
    lemma_sum_sound(abstract_of(a, p), abstract_of(b, p), a, b, p);
    lemma_product_sound(abstract_of(a, p), abstract_of(b, p), a, b, p);
    lemma_negation_keeps_zeroness(a, p);
    lemma_scaled_sound(abstract_of(a, p), a, b, p);
}

} // verus!
