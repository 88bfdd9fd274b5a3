//! Evaluation: from an expression tree and the variables to the most reduced
//! tree, a bare number where everything is known.
//!
//! Variables are expanded lazily. A name that is being expanded further up in
//! the same evaluation, or that is not bound, stays in the result as a free
//! symbol; a definition that leads back to itself therefore ends there.

use crate::environment::Environment;
use crate::errors::{CalcError, ErrorView};
use crate::number::{
    add_numbers, divide_numbers, float_eq, float_neg, float_product, float_quotient, float_sum,
    is_zero, is_zero_number, multiply_numbers, negate, numbers_equal, ONE, ZERO,
};
use crate::parser::{expr_views, lemma_expr_views_push, Expr, ExprView};
use crate::powers::PowerTable;
use vstd::prelude::*;

verus! {

/// Why an evaluation stopped without a result.
#[derive(Debug, PartialEq)]
pub enum Halt {
    /// The expression has no value.
    Error(CalcError),
    /// The power of this base and this exponent is needed, and the table of
    /// powers does not have it.
    NeedPower(u64, u64),
}

/// The mathematical value of a [`Halt`].
pub enum HaltView {
    Error(ErrorView),
    NeedPower(u64, u64),
}

impl View for Halt {
    type V = HaltView;

    open spec fn view(&self) -> HaltView {
        match self {
            Halt::Error(e) => HaltView::Error(e@),
            Halt::NeedPower(base, exponent) => HaltView::NeedPower(*base, *exponent),
        }
    }
}

impl Clone for Halt {
    fn clone(&self) -> (r: Halt)
        ensures
            r@ == self@,
    {
        match self {
            Halt::Error(e) => Halt::Error(e.clone()),
            Halt::NeedPower(base, exponent) => Halt::NeedPower(*base, *exponent),
        }
    }
}

/// What a sum is gathered into: the operands that are no numbers, in order,
/// and the sum of those that are.
pub struct SumParts {
    pub terms: Seq<ExprView>,
    pub sum: u64,
}

/// What a product is gathered into: the factors that are no numbers, in
/// order, the product of those that are, and the product of the numeric
/// divisors.
pub struct ProductParts {
    pub factors: Seq<ExprView>,
    pub numerator: u64,
    pub denominator: u64,
}

/// Gathers one normalized operand into a sum: a number is added up, a sum
/// gives each of its operands to be gathered in the same way, anything else
/// is kept.
pub open spec fn add_term(parts: SumParts, term: ExprView) -> SumParts
    decreases term, 0nat,
{
    match term {
        ExprView::Number(n) => SumParts { terms: parts.terms, sum: float_sum(parts.sum, n) },
        ExprView::Add(inner) => add_terms(parts, inner, inner.len()),
        _ => SumParts { terms: parts.terms.push(term), sum: parts.sum },
    }
}

/// Gathers the first `n` of `terms` into a sum, in order.
pub open spec fn add_terms(parts: SumParts, terms: Seq<ExprView>, n: nat) -> SumParts
    decreases terms, n,
{
    if 0 < n <= terms.len() {
        add_term(add_terms(parts, terms, (n - 1) as nat), terms[n - 1])
    } else {
        parts
    }
}

/// The sum that the parts make: the numeric sum comes last and is left out
/// where it equals zero; no operand at all is `0`, a single one is itself.
pub open spec fn close_sum(parts: SumParts) -> ExprView {
    let terms = if float_eq(parts.sum, ZERO) {
        parts.terms
    } else {
        parts.terms.push(ExprView::Number(parts.sum))
    };
    if terms.len() == 0 {
        ExprView::Number(ZERO)
    } else if terms.len() == 1 {
        terms[0]
    } else {
        ExprView::Add(terms)
    }
}

/// `1 / divisor`.
pub open spec fn reciprocal(divisor: ExprView) -> ExprView {
    ExprView::Div(Box::new(ExprView::Number(ONE)), Box::new(divisor))
}

/// Gathers one normalized factor into a product: a number is multiplied up,
/// a product gives each of its factors to be gathered in the same way, and a
/// quotient gives its dividend to be gathered in the same way and its divisor
/// to the common denominator, or, where the divisor is no number, as a
/// reciprocal of its own. Anything else is kept.
pub open spec fn add_factor(parts: ProductParts, factor: ExprView) -> ProductParts
    decreases factor, 0nat,
{
    match factor {
        ExprView::Number(n) => ProductParts {
            factors: parts.factors,
            numerator: float_product(parts.numerator, n),
            denominator: parts.denominator,
        },
        ExprView::Mul(inner) => add_factors(parts, inner, inner.len()),
        ExprView::Div(x, y) => add_divisor(add_factor(parts, *x), *y),
        _ => ProductParts {
            factors: parts.factors.push(factor),
            numerator: parts.numerator,
            denominator: parts.denominator,
        },
    }
}

/// Gathers the first `n` of `factors` into a product, in order.
pub open spec fn add_factors(parts: ProductParts, factors: Seq<ExprView>, n: nat) -> ProductParts
    decreases factors, n,
{
    if 0 < n <= factors.len() {
        add_factor(add_factors(parts, factors, (n - 1) as nat), factors[n - 1])
    } else {
        parts
    }
}

/// Gathers the divisor of a quotient into a product: a number goes to the
/// common denominator, anything else is kept as a reciprocal.
pub open spec fn add_divisor(parts: ProductParts, divisor: ExprView) -> ProductParts {
    match divisor {
        ExprView::Number(d) => ProductParts {
            factors: parts.factors,
            numerator: parts.numerator,
            denominator: float_product(parts.denominator, d),
        },
        _ => ProductParts {
            factors: parts.factors.push(reciprocal(divisor)),
            numerator: parts.numerator,
            denominator: parts.denominator,
        },
    }
}

/// The product that the parts make: the numeric factor comes first and the
/// reciprocal of the common denominator last, each left out where it equals
/// one; no factor at all is `1`, a single one is itself.
pub open spec fn close_product(parts: ProductParts) -> ExprView {
    let divided = if float_eq(parts.denominator, ONE) {
        parts.factors
    } else {
        parts.factors.push(reciprocal(ExprView::Number(parts.denominator)))
    };
    let factors = if float_eq(parts.numerator, ONE) {
        divided
    } else {
        seq![ExprView::Number(parts.numerator)] + divided
    };
    if factors.len() == 0 {
        ExprView::Number(ONE)
    } else if factors.len() == 1 {
        factors[0]
    } else {
        ExprView::Mul(factors)
    }
}

/// The negation of a normalized operand.
pub open spec fn negated(operand: ExprView) -> ExprView {
    match operand {
        ExprView::Number(n) => ExprView::Number(float_neg(n)),
        _ => ExprView::Neg(Box::new(operand)),
    }
}

/// The quotient of two normalized operands: two numbers are divided, a
/// quotient by a number divided by a number has its divisors multiplied,
/// anything else is kept.
pub open spec fn divided(left: ExprView, right: ExprView) -> ExprView {
    match (left, right) {
        (ExprView::Div(x, y), ExprView::Number(b)) => match *y {
            ExprView::Number(a) => ExprView::Div(
                x,
                Box::new(ExprView::Number(float_product(a, b))),
            ),
            _ => ExprView::Div(Box::new(left), Box::new(right)),
        },
        (ExprView::Number(x), ExprView::Number(y)) => ExprView::Number(float_quotient(x, y)),
        _ => ExprView::Div(Box::new(left), Box::new(right)),
    }
}

/// The normal form of a tree: sums and products are flattened and the
/// numbers in them folded into one, negations and quotients of numbers are
/// computed. Variables, differences and powers are left as they are.
///
/// The result is in normal form ([`lemma_normal_is_normal`]). It need not be
/// its own normal form: a product keeps the reciprocal of its numeric
/// denominator as a quotient of two numbers, which a second normalization
/// computes.
pub open spec fn normal(e: ExprView) -> ExprView
    decreases e, 0nat,
{
    match e {
        ExprView::Add(terms) => close_sum(sum_parts(terms, terms.len())),
        ExprView::Mul(factors) => close_product(product_parts(factors, factors.len())),
        ExprView::Neg(inner) => negated(normal(*inner)),
        ExprView::Div(a, b) => divided(normal(*a), normal(*b)),
        _ => e,
    }
}

/// The first `n` operands of a sum, normalized and gathered in order.
pub open spec fn sum_parts(terms: Seq<ExprView>, n: nat) -> SumParts
    decreases terms, n,
{
    if 0 < n <= terms.len() {
        add_term(sum_parts(terms, (n - 1) as nat), normal(terms[n - 1]))
    } else {
        SumParts { terms: Seq::empty(), sum: ZERO }
    }
}

/// The first `n` factors of a product, normalized and gathered in order.
pub open spec fn product_parts(factors: Seq<ExprView>, n: nat) -> ProductParts
    decreases factors, n,
{
    if 0 < n <= factors.len() {
        add_factor(product_parts(factors, (n - 1) as nat), normal(factors[n - 1]))
    } else {
        ProductParts { factors: Seq::empty(), numerator: ONE, denominator: ONE }
    }
}

/// The tree is in the form that [`normal`] gives.
///
/// A sum has at least two operands, none of them a sum, and at most one
/// number, which comes last and is not zero. A product has at least two
/// factors, none of them a product, and at most one number, which comes first
/// and is not one. The operands of sums, products, negations and quotients
/// are in this form too. With `deep`, so are the operands of powers, and the
/// tree holds no difference; without it, powers and differences are not
/// looked into.
pub open spec fn in_normal_form(e: ExprView, deep: bool) -> bool
    decreases e,
{
    match e {
        ExprView::Add(terms) => {
            &&& terms.len() >= 2
            &&& forall|i: int|
                0 <= i < terms.len() ==> !(#[trigger] terms[i] is Add) && in_normal_form(
                    terms[i],
                    deep,
                )
            &&& forall|i: int| 0 <= i < terms.len() - 1 ==> !(#[trigger] terms[i] is Number)
            &&& terms.last() matches ExprView::Number(n) ==> !float_eq(n, ZERO)
        },
        ExprView::Mul(factors) => {
            &&& factors.len() >= 2
            &&& forall|i: int|
                0 <= i < factors.len() ==> !(#[trigger] factors[i] is Mul) && in_normal_form(
                    factors[i],
                    deep,
                )
            &&& forall|i: int| 1 <= i < factors.len() ==> !(#[trigger] factors[i] is Number)
            &&& factors[0] matches ExprView::Number(n) ==> !float_eq(n, ONE)
        },
        ExprView::Neg(inner) => !(*inner is Number) && in_normal_form(*inner, deep),
        ExprView::Div(a, b) => in_normal_form(*a, deep) && in_normal_form(*b, deep),
        ExprView::Pow(a, b) => deep ==> in_normal_form(*a, deep) && in_normal_form(*b, deep),
        ExprView::Sub(_, _) => !deep,
        _ => true,
    }
}

/// The tree is in normal form, powers and differences not looked into: what
/// [`normalize`] gives of any tree.
pub open spec fn is_normal(e: ExprView) -> bool {
    in_normal_form(e, false)
}

/// The tree is in normal form throughout and holds no difference: what
/// [`eval_ast`] gives.
pub open spec fn is_reduced(e: ExprView) -> bool {
    in_normal_form(e, true)
}

/// What [`normal`] leaves alone in the tree is in normal form already: its
/// leaves, powers and differences.
pub open spec fn is_ready(e: ExprView, deep: bool) -> bool
    decreases e,
{
    match e {
        ExprView::Add(terms) => forall|i: int|
            0 <= i < terms.len() ==> is_ready(#[trigger] terms[i], deep),
        ExprView::Mul(factors) => forall|i: int|
            0 <= i < factors.len() ==> is_ready(#[trigger] factors[i], deep),
        ExprView::Neg(inner) => is_ready(*inner, deep),
        ExprView::Div(a, b) => is_ready(*a, deep) && is_ready(*b, deep),
        _ => in_normal_form(e, deep),
    }
}

/// The gathered items can stand in a sum, or, with `product`, in a product:
/// none is a number, none is itself a sum (or a product), and all are in
/// normal form.
pub open spec fn gathered(items: Seq<ExprView>, product: bool, deep: bool) -> bool {
    forall|i: int|
        0 <= i < items.len() ==> {
            &&& !(#[trigger] items[i] is Number)
            &&& if product {
                !(items[i] is Mul)
            } else {
                !(items[i] is Add)
            }
            &&& in_normal_form(items[i], deep)
        }
}

/// Every tree is ready where powers and differences are not looked into.
pub proof fn lemma_always_ready(e: ExprView)
    ensures
        is_ready(e, false),
    decreases e,
{
    match e {
        ExprView::Add(terms) => {
            assert forall|i: int| 0 <= i < terms.len() implies is_ready(
                #[trigger] terms[i],
                false,
            ) by {
                lemma_always_ready(terms[i]);
            }
        },
        ExprView::Mul(factors) => {
            assert forall|i: int| 0 <= i < factors.len() implies is_ready(
                #[trigger] factors[i],
                false,
            ) by {
                lemma_always_ready(factors[i]);
            }
        },
        ExprView::Neg(inner) => {
            lemma_always_ready(*inner);
        },
        ExprView::Div(a, b) => {
            lemma_always_ready(*a);
            lemma_always_ready(*b);
        },
        _ => {},
    }
}

/// A tree in normal form is ready.
pub proof fn lemma_normal_form_is_ready(e: ExprView, deep: bool)
    requires
        in_normal_form(e, deep),
    ensures
        is_ready(e, deep),
    decreases e,
{
    match e {
        ExprView::Add(terms) => {
            assert forall|i: int| 0 <= i < terms.len() implies is_ready(
                #[trigger] terms[i],
                deep,
            ) by {
                lemma_normal_form_is_ready(terms[i], deep);
            }
        },
        ExprView::Mul(factors) => {
            assert forall|i: int| 0 <= i < factors.len() implies is_ready(
                #[trigger] factors[i],
                deep,
            ) by {
                lemma_normal_form_is_ready(factors[i], deep);
            }
        },
        ExprView::Neg(inner) => {
            lemma_normal_form_is_ready(*inner, deep);
        },
        ExprView::Div(a, b) => {
            lemma_normal_form_is_ready(*a, deep);
            lemma_normal_form_is_ready(*b, deep);
        },
        _ => {},
    }
}

/// One more item that is fit keeps the gathered items fit.
proof fn lemma_gathered_push(items: Seq<ExprView>, item: ExprView, product: bool, deep: bool)
    requires
        gathered(items, product, deep),
        !(item is Number),
        if product {
            !(item is Mul)
        } else {
            !(item is Add)
        },
        in_normal_form(item, deep),
    ensures
        gathered(items.push(item), product, deep),
{
    let all = items.push(item);
    assert forall|i: int| 0 <= i < all.len() implies {
        &&& !(#[trigger] all[i] is Number)
        &&& if product {
            !(all[i] is Mul)
        } else {
            !(all[i] is Add)
        }
        &&& in_normal_form(all[i], deep)
    } by {
        if i < items.len() {
            assert(all[i] == items[i]);
        }
    }
}

/// Gathering an operand in normal form keeps the operands fit for a sum.
proof fn lemma_add_term(parts: SumParts, term: ExprView, deep: bool)
    requires
        gathered(parts.terms, false, deep),
        in_normal_form(term, deep),
    ensures
        gathered(add_term(parts, term).terms, false, deep),
    decreases term, 0nat,
{
    match term {
        ExprView::Number(_) => {},
        ExprView::Add(inner) => {
            lemma_add_terms(parts, inner, inner.len(), deep);
        },
        _ => {
            lemma_gathered_push(parts.terms, term, false, deep);
        },
    }
}

/// Gathering operands in normal form keeps the operands fit for a sum.
proof fn lemma_add_terms(parts: SumParts, terms: Seq<ExprView>, n: nat, deep: bool)
    requires
        gathered(parts.terms, false, deep),
        forall|i: int| 0 <= i < terms.len() ==> in_normal_form(#[trigger] terms[i], deep),
    ensures
        gathered(add_terms(parts, terms, n).terms, false, deep),
    decreases terms, n,
{
    if 0 < n <= terms.len() {
        lemma_add_terms(parts, terms, (n - 1) as nat, deep);
        lemma_add_term(add_terms(parts, terms, (n - 1) as nat), terms[n - 1], deep);
    }
}

/// Gathering a factor in normal form keeps the factors fit for a product.
proof fn lemma_add_factor(parts: ProductParts, factor: ExprView, deep: bool)
    requires
        gathered(parts.factors, true, deep),
        in_normal_form(factor, deep),
    ensures
        gathered(add_factor(parts, factor).factors, true, deep),
    decreases factor, 0nat,
{
    match factor {
        ExprView::Number(_) => {},
        ExprView::Mul(inner) => {
            lemma_add_factors(parts, inner, inner.len(), deep);
        },
        ExprView::Div(x, y) => {
            lemma_add_factor(parts, *x, deep);
            let with_dividend = add_factor(parts, *x);
            if !(*y is Number) {
                assert(in_normal_form(ExprView::Number(ONE), deep));
                assert(in_normal_form(reciprocal(*y), deep));
                lemma_gathered_push(with_dividend.factors, reciprocal(*y), true, deep);
            }
        },
        _ => {
            lemma_gathered_push(parts.factors, factor, true, deep);
        },
    }
}

/// Gathering factors in normal form keeps the factors fit for a product.
proof fn lemma_add_factors(parts: ProductParts, factors: Seq<ExprView>, n: nat, deep: bool)
    requires
        gathered(parts.factors, true, deep),
        forall|i: int| 0 <= i < factors.len() ==> in_normal_form(#[trigger] factors[i], deep),
    ensures
        gathered(add_factors(parts, factors, n).factors, true, deep),
    decreases factors, n,
{
    if 0 < n <= factors.len() {
        lemma_add_factors(parts, factors, (n - 1) as nat, deep);
        lemma_add_factor(add_factors(parts, factors, (n - 1) as nat), factors[n - 1], deep);
    }
}

/// The sum made of operands fit for it is in normal form.
proof fn lemma_close_sum(parts: SumParts, deep: bool)
    requires
        gathered(parts.terms, false, deep),
    ensures
        in_normal_form(close_sum(parts), deep),
{
    let number = ExprView::Number(parts.sum);
    let terms = if float_eq(parts.sum, ZERO) {
        parts.terms
    } else {
        parts.terms.push(number)
    };
    if terms.len() >= 2 {
        assert forall|i: int| 0 <= i < terms.len() implies !(#[trigger] terms[i] is Add)
            && in_normal_form(terms[i], deep) by {
            if i < parts.terms.len() {
                assert(terms[i] == parts.terms[i]);
            }
        }
        assert forall|i: int| 0 <= i < terms.len() - 1 implies !(#[trigger] terms[i] is Number) by {
            assert(terms[i] == parts.terms[i]);
        }
        if float_eq(parts.sum, ZERO) {
            assert(terms.last() == parts.terms[parts.terms.len() - 1]);
        }
        assert(in_normal_form(ExprView::Add(terms), deep));
    } else if terms.len() == 1 {
        if float_eq(parts.sum, ZERO) {
            assert(terms[0] == parts.terms[0]);
        }
    }
}

/// The product made of factors fit for it is in normal form.
proof fn lemma_close_product(parts: ProductParts, deep: bool)
    requires
        gathered(parts.factors, true, deep),
    ensures
        in_normal_form(close_product(parts), deep),
{
    let last = reciprocal(ExprView::Number(parts.denominator));
    let first = ExprView::Number(parts.numerator);
    let divided = if float_eq(parts.denominator, ONE) {
        parts.factors
    } else {
        parts.factors.push(last)
    };
    let factors = if float_eq(parts.numerator, ONE) {
        divided
    } else {
        seq![first] + divided
    };
    assert(in_normal_form(ExprView::Number(ONE), deep));
    assert(in_normal_form(ExprView::Number(parts.denominator), deep));
    assert(in_normal_form(last, deep));
    assert forall|i: int| 0 <= i < divided.len() implies !(#[trigger] divided[i] is Mul) && !(
    divided[i] is Number) && in_normal_form(divided[i], deep) by {
        if i < parts.factors.len() {
            assert(divided[i] == parts.factors[i]);
        }
    }
    if float_eq(parts.numerator, ONE) {
        if factors.len() >= 2 {
            assert(in_normal_form(ExprView::Mul(factors), deep));
        }
    } else {
        assert forall|i: int| 1 <= i < factors.len() implies !(#[trigger] factors[i] is Mul) && !(
        factors[i] is Number) && in_normal_form(factors[i], deep) by {
            assert(factors[i] == divided[i - 1]);
        }
        assert(factors[0] == first);
        assert forall|i: int| 0 <= i < factors.len() implies !(#[trigger] factors[i] is Mul)
            && in_normal_form(factors[i], deep) by {
            if i >= 1 {
                assert(factors[i] == divided[i - 1]);
            }
        }
        if factors.len() >= 2 {
            assert(in_normal_form(ExprView::Mul(factors), deep));
        }
    }
}

/// The normal form of a tree that is ready is in normal form.
pub proof fn lemma_normal_of_ready(e: ExprView, deep: bool)
    requires
        is_ready(e, deep),
    ensures
        in_normal_form(normal(e), deep),
    decreases e, 0nat,
{
    match e {
        ExprView::Add(terms) => {
            lemma_sum_parts(terms, terms.len(), deep);
            lemma_close_sum(sum_parts(terms, terms.len()), deep);
        },
        ExprView::Mul(factors) => {
            lemma_product_parts(factors, factors.len(), deep);
            lemma_close_product(product_parts(factors, factors.len()), deep);
        },
        ExprView::Neg(inner) => {
            lemma_normal_of_ready(*inner, deep);
            let operand = normal(*inner);
            if !(operand is Number) {
                assert(in_normal_form(ExprView::Neg(Box::new(operand)), deep));
            }
        },
        ExprView::Div(a, b) => {
            lemma_normal_of_ready(*a, deep);
            lemma_normal_of_ready(*b, deep);
            let left = normal(*a);
            let right = normal(*b);
            assert(in_normal_form(ExprView::Div(Box::new(left), Box::new(right)), deep));
            match (left, right) {
                (ExprView::Div(x, y), ExprView::Number(n)) => {
                    match *y {
                        ExprView::Number(m) => {
                            let folded = ExprView::Number(float_product(m, n));
                            assert(in_normal_form(folded, deep));
                            assert(in_normal_form(ExprView::Div(x, Box::new(folded)), deep));
                        },
                        _ => {},
                    }
                },
                _ => {},
            }
        },
        _ => {},
    }
}

/// The gathered operands of a sum that is ready are fit for a sum.
proof fn lemma_sum_parts(terms: Seq<ExprView>, n: nat, deep: bool)
    requires
        forall|i: int| 0 <= i < terms.len() ==> is_ready(#[trigger] terms[i], deep),
    ensures
        gathered(sum_parts(terms, n).terms, false, deep),
    decreases terms, n,
{
    if 0 < n <= terms.len() {
        lemma_sum_parts(terms, (n - 1) as nat, deep);
        lemma_normal_of_ready(terms[n - 1], deep);
        lemma_add_term(sum_parts(terms, (n - 1) as nat), normal(terms[n - 1]), deep);
    }
}

/// The gathered factors of a product that is ready are fit for a product.
proof fn lemma_product_parts(factors: Seq<ExprView>, n: nat, deep: bool)
    requires
        forall|i: int| 0 <= i < factors.len() ==> is_ready(#[trigger] factors[i], deep),
    ensures
        gathered(product_parts(factors, n).factors, true, deep),
    decreases factors, n,
{
    if 0 < n <= factors.len() {
        lemma_product_parts(factors, (n - 1) as nat, deep);
        lemma_normal_of_ready(factors[n - 1], deep);
        lemma_add_factor(product_parts(factors, (n - 1) as nat), normal(factors[n - 1]), deep);
    }
}

/// The normal form of any tree is in normal form: no sum stands in a sum and
/// no product in a product, each has at least two operands and at most one
/// number among them, and that number is not the one that changes nothing.
pub proof fn lemma_normal_is_normal(e: ExprView)
    ensures
        is_normal(normal(e)),
{
    lemma_always_ready(e);
    lemma_normal_of_ready(e, false);
}

/// The sum of a variable and a number, gathered: the variable, and the
/// number added to what was gathered before.
proof fn lemma_add_variable_and_number(parts: SumParts, x: Seq<char>, n: u64)
    ensures
        add_terms(parts, seq![ExprView::Var(x), ExprView::Number(n)], 2) == (SumParts {
            terms: parts.terms.push(ExprView::Var(x)),
            sum: float_sum(parts.sum, n),
        }),
{
    let terms = seq![ExprView::Var(x), ExprView::Number(n)];
    reveal_with_fuel(add_terms, 3);
    assert(add_terms(parts, terms, 0) == parts);
    assert(add_terms(parts, terms, 1) == add_term(parts, terms[0]));
}

/// A number in a nested sum is folded with the numbers around it: the sum of
/// `x + a` and `b`, for a variable `x` and numbers `a` and `b`, is `x` and one
/// number, or `x` alone.
pub proof fn lemma_nested_sum_folds(x: Seq<char>, a: u64, b: u64)
    ensures
        match normal(
            ExprView::Add(
                seq![
                    ExprView::Add(seq![ExprView::Var(x), ExprView::Number(a)]),
                    ExprView::Number(b),
                ],
            ),
        ) {
            ExprView::Var(name) => name == x,
            ExprView::Add(terms) => terms.len() == 2 && terms[0] == ExprView::Var(x)
                && terms[1] is Number,
            _ => false,
        },
{
    let var = ExprView::Var(x);
    let inner = seq![var, ExprView::Number(a)];
    let outer = seq![ExprView::Add(inner), ExprView::Number(b)];
    let empty = SumParts { terms: Seq::empty(), sum: ZERO };
    let alone = seq![var];
    assert(empty.terms.push(var) =~= alone);
    reveal_with_fuel(sum_parts, 3);
    lemma_add_variable_and_number(empty, x, a);
    let once = float_sum(ZERO, a);
    assert(sum_parts(inner, 1) == add_term(empty, var));
    assert(sum_parts(inner, 2) == (SumParts { terms: alone, sum: once }));
    let folded = normal(ExprView::Add(inner));
    let gathered = sum_parts(outer, 1);
    assert(gathered == add_term(empty, folded));
    if float_eq(once, ZERO) {
        assert(folded == var);
        assert(gathered == (SumParts { terms: alone, sum: ZERO }));
    } else {
        let again = seq![var, ExprView::Number(once)];
        assert(alone.push(ExprView::Number(once)) =~= again);
        assert(folded == ExprView::Add(again));
        lemma_add_variable_and_number(empty, x, once);
        assert(gathered == (SumParts { terms: alone, sum: float_sum(ZERO, once) }));
    }
    assert(gathered.terms == alone);
    let all = sum_parts(outer, 2);
    assert(all == (SumParts { terms: alone, sum: float_sum(gathered.sum, b) }));
    if !float_eq(all.sum, ZERO) {
        assert(alone.push(ExprView::Number(all.sum)) =~= seq![var, ExprView::Number(all.sum)]);
    }
}

/// A product of a quotient of two variables and a number holds one number
/// at most: `(x / y) * c` is `c`, `x` and `1 / y`, or `x` and `1 / y` alone.
pub proof fn lemma_quotient_in_product_folds(x: Seq<char>, y: Seq<char>, c: u64)
    ensures
        match normal(
            ExprView::Mul(
                seq![
                    ExprView::Div(Box::new(ExprView::Var(x)), Box::new(ExprView::Var(y))),
                    ExprView::Number(c),
                ],
            ),
        ) {
            ExprView::Mul(factors) => {
                ||| factors == seq![ExprView::Var(x), reciprocal(ExprView::Var(y))]
                ||| factors.len() == 3 && factors[0] is Number && factors[1] == ExprView::Var(x)
                    && factors[2] == reciprocal(ExprView::Var(y))
            },
            _ => false,
        },
{
    let dividend = ExprView::Var(x);
    let divisor = ExprView::Var(y);
    let quotient = ExprView::Div(Box::new(dividend), Box::new(divisor));
    let outer = seq![quotient, ExprView::Number(c)];
    let empty = ProductParts { factors: Seq::empty(), numerator: ONE, denominator: ONE };
    let kept = seq![dividend, reciprocal(divisor)];
    reveal_with_fuel(product_parts, 3);
    assert(normal(dividend) == dividend);
    assert(normal(divisor) == divisor);
    assert(divided(dividend, divisor) == quotient);
    assert(normal(quotient) == quotient);
    assert(empty.factors.push(dividend).push(reciprocal(divisor)) =~= kept);
    assert(add_factor(empty, dividend).factors == empty.factors.push(dividend));
    assert(product_parts(outer, 1) == (ProductParts {
        factors: kept,
        numerator: ONE,
        denominator: ONE,
    }));
    let folded = float_product(ONE, c);
    assert(product_parts(outer, 2) == (ProductParts {
        factors: kept,
        numerator: folded,
        denominator: ONE,
    }));
    if !float_eq(folded, ONE) {
        let all = seq![ExprView::Number(folded)] + kept;
        assert(all.len() == 3 && all[0] == ExprView::Number(folded) && all[1] == kept[0] && all[2]
            == kept[1]);
    }
}

/// The variables of a tree, from left to right, each as often as it stands
/// there.
pub open spec fn variables(e: ExprView) -> Seq<Seq<char>>
    decreases e, 0nat,
{
    match e {
        ExprView::Number(_) => Seq::empty(),
        ExprView::Var(name) => seq![name],
        ExprView::Add(terms) => variables_of(terms, terms.len()),
        ExprView::Mul(factors) => variables_of(factors, factors.len()),
        ExprView::Sub(a, b) => variables(*a) + variables(*b),
        ExprView::Div(a, b) => variables(*a) + variables(*b),
        ExprView::Pow(a, b) => variables(*a) + variables(*b),
        ExprView::Neg(a) => variables(*a),
    }
}

/// The variables of the first `n` of `items`, from left to right.
pub open spec fn variables_of(items: Seq<ExprView>, n: nat) -> Seq<Seq<char>>
    decreases items, n,
{
    if 0 < n <= items.len() {
        variables_of(items, (n - 1) as nat) + variables(items[n - 1])
    } else {
        Seq::empty()
    }
}

/// The variables of all of `items`.
pub open spec fn all_variables(items: Seq<ExprView>) -> Seq<Seq<char>> {
    variables_of(items, items.len())
}

/// The variables of the first items do not depend on what follows them.
proof fn lemma_variables_of_front(items: Seq<ExprView>, more: Seq<ExprView>, n: nat)
    requires
        n <= items.len(),
    ensures
        variables_of(items + more, n) == variables_of(items, n),
    decreases n,
{
    if n > 0 {
        lemma_variables_of_front(items, more, (n - 1) as nat);
        assert((items + more)[n - 1] == items[n - 1]);
    }
}

/// The variables of a list with one more item.
proof fn lemma_variables_push(items: Seq<ExprView>, item: ExprView)
    ensures
        all_variables(items.push(item)) == all_variables(items) + variables(item),
{
    lemma_variables_of_front(items, seq![item], items.len());
    assert(items.push(item) =~= items + seq![item]);
    assert(items.push(item)[items.len() as int] == item);
}

/// The variables of a list with one item in front.
proof fn lemma_variables_after(item: ExprView, items: Seq<ExprView>, n: nat)
    requires
        n <= items.len(),
    ensures
        variables_of(seq![item] + items, n + 1) == variables(item) + variables_of(items, n),
    decreases n,
{
    let all = seq![item] + items;
    if n == 0 {
        assert(variables_of(all, 0) =~= Seq::<Seq<char>>::empty());
        assert(all[0] == item);
        assert(variables_of(all, 1) =~= variables(item));
        assert(variables(item) + variables_of(items, 0) =~= variables(item));
    } else {
        lemma_variables_after(item, items, (n - 1) as nat);
        assert(all[n as int] == items[n - 1]);
        assert(variables_of(all, n + 1) =~= variables(item) + variables_of(items, n));
    }
}

/// Gathering an operand into a sum adds its variables at the end.
proof fn lemma_add_term_variables(parts: SumParts, term: ExprView)
    ensures
        all_variables(add_term(parts, term).terms) == all_variables(parts.terms) + variables(term),
    decreases term, 0nat,
{
    match term {
        ExprView::Number(_) => {
            assert(all_variables(parts.terms) + variables(term) =~= all_variables(parts.terms));
        },
        ExprView::Add(inner) => {
            lemma_add_terms_variables(parts, inner, inner.len());
        },
        _ => {
            lemma_variables_push(parts.terms, term);
        },
    }
}

/// Gathering operands into a sum adds their variables at the end.
proof fn lemma_add_terms_variables(parts: SumParts, terms: Seq<ExprView>, n: nat)
    ensures
        all_variables(add_terms(parts, terms, n).terms) == all_variables(parts.terms)
            + variables_of(terms, n),
    decreases terms, n,
{
    if 0 < n <= terms.len() {
        let before = add_terms(parts, terms, (n - 1) as nat);
        lemma_add_terms_variables(parts, terms, (n - 1) as nat);
        lemma_add_term_variables(before, terms[n - 1]);
        assert(all_variables(add_terms(parts, terms, n).terms) =~= all_variables(parts.terms)
            + variables_of(terms, n));
    } else {
        assert(all_variables(parts.terms) + variables_of(terms, n) =~= all_variables(
            parts.terms,
        ));
    }
}

/// Gathering a factor into a product adds its variables at the end.
proof fn lemma_add_factor_variables(parts: ProductParts, factor: ExprView)
    ensures
        all_variables(add_factor(parts, factor).factors) == all_variables(parts.factors)
            + variables(factor),
    decreases factor, 0nat,
{
    match factor {
        ExprView::Number(_) => {
            assert(all_variables(parts.factors) + variables(factor) =~= all_variables(
                parts.factors,
            ));
        },
        ExprView::Mul(inner) => {
            lemma_add_factors_variables(parts, inner, inner.len());
        },
        ExprView::Div(x, y) => {
            lemma_add_factor_variables(parts, *x);
            let with_dividend = add_factor(parts, *x);
            match *y {
                ExprView::Number(_) => {
                    assert(variables(*x) + variables(*y) =~= variables(*x));
                },
                _ => {
                    lemma_variables_push(with_dividend.factors, reciprocal(*y));
                    assert(variables(ExprView::Number(ONE)) + variables(*y) =~= variables(*y));
                    assert(variables(reciprocal(*y)) == variables(*y));
                },
            }
            assert(all_variables(add_factor(parts, factor).factors) =~= all_variables(
                parts.factors,
            ) + (variables(*x) + variables(*y)));
        },
        _ => {
            lemma_variables_push(parts.factors, factor);
        },
    }
}

/// Gathering factors into a product adds their variables at the end.
proof fn lemma_add_factors_variables(parts: ProductParts, factors: Seq<ExprView>, n: nat)
    ensures
        all_variables(add_factors(parts, factors, n).factors) == all_variables(parts.factors)
            + variables_of(factors, n),
    decreases factors, n,
{
    if 0 < n <= factors.len() {
        let before = add_factors(parts, factors, (n - 1) as nat);
        lemma_add_factors_variables(parts, factors, (n - 1) as nat);
        lemma_add_factor_variables(before, factors[n - 1]);
        assert(all_variables(add_factors(parts, factors, n).factors) =~= all_variables(
            parts.factors,
        ) + variables_of(factors, n));
    } else {
        assert(all_variables(parts.factors) + variables_of(factors, n) =~= all_variables(
            parts.factors,
        ));
    }
}

/// The sum made of gathered operands has their variables.
proof fn lemma_close_sum_variables(parts: SumParts)
    ensures
        variables(close_sum(parts)) == all_variables(parts.terms),
{
    let number = ExprView::Number(parts.sum);
    let terms = if float_eq(parts.sum, ZERO) {
        parts.terms
    } else {
        parts.terms.push(number)
    };
    if !float_eq(parts.sum, ZERO) {
        lemma_variables_push(parts.terms, number);
        assert(all_variables(parts.terms) + variables(number) =~= all_variables(parts.terms));
    }
    assert(all_variables(terms) == all_variables(parts.terms));
    if terms.len() == 1 {
        assert(variables_of(terms, 0) + variables(terms[0]) =~= variables(terms[0]));
    }
}

/// The product made of gathered factors has their variables.
proof fn lemma_close_product_variables(parts: ProductParts)
    ensures
        variables(close_product(parts)) == all_variables(parts.factors),
{
    let last = reciprocal(ExprView::Number(parts.denominator));
    let first = ExprView::Number(parts.numerator);
    let divided = if float_eq(parts.denominator, ONE) {
        parts.factors
    } else {
        parts.factors.push(last)
    };
    let factors = if float_eq(parts.numerator, ONE) {
        divided
    } else {
        seq![first] + divided
    };
    if !float_eq(parts.denominator, ONE) {
        lemma_variables_push(parts.factors, last);
        assert(variables(ExprView::Number(ONE)) =~= Seq::<Seq<char>>::empty());
        assert(variables(ExprView::Number(parts.denominator)) =~= Seq::<Seq<char>>::empty());
        assert(variables(last) =~= Seq::<Seq<char>>::empty());
        assert(all_variables(parts.factors) + variables(last) =~= all_variables(parts.factors));
    }
    assert(all_variables(divided) == all_variables(parts.factors));
    if !float_eq(parts.numerator, ONE) {
        lemma_variables_after(first, divided, divided.len());
        assert(variables(first) + all_variables(divided) =~= all_variables(divided));
    }
    assert(all_variables(factors) == all_variables(parts.factors));
    if factors.len() == 1 {
        assert(variables_of(factors, 0) + variables(factors[0]) =~= variables(factors[0]));
    }
}

/// The gathered operands of a sum have the variables of the operands.
proof fn lemma_sum_parts_variables(terms: Seq<ExprView>, n: nat)
    ensures
        all_variables(sum_parts(terms, n).terms) == variables_of(terms, n),
    decreases terms, n,
{
    if 0 < n <= terms.len() {
        lemma_sum_parts_variables(terms, (n - 1) as nat);
        lemma_normal_keeps_variables(terms[n - 1]);
        lemma_add_term_variables(sum_parts(terms, (n - 1) as nat), normal(terms[n - 1]));
    }
}

/// The gathered factors of a product have the variables of the factors.
proof fn lemma_product_parts_variables(factors: Seq<ExprView>, n: nat)
    ensures
        all_variables(product_parts(factors, n).factors) == variables_of(factors, n),
    decreases factors, n,
{
    if 0 < n <= factors.len() {
        lemma_product_parts_variables(factors, (n - 1) as nat);
        lemma_normal_keeps_variables(factors[n - 1]);
        lemma_add_factor_variables(
            product_parts(factors, (n - 1) as nat),
            normal(factors[n - 1]),
        );
    }
}

/// The normal form of a tree holds the variables of the tree, in their
/// order, each as often as the tree does.
pub proof fn lemma_normal_keeps_variables(e: ExprView)
    ensures
        variables(normal(e)) == variables(e),
    decreases e, 0nat,
{
    match e {
        ExprView::Add(terms) => {
            lemma_sum_parts_variables(terms, terms.len());
            lemma_close_sum_variables(sum_parts(terms, terms.len()));
        },
        ExprView::Mul(factors) => {
            lemma_product_parts_variables(factors, factors.len());
            lemma_close_product_variables(product_parts(factors, factors.len()));
        },
        ExprView::Neg(inner) => {
            lemma_normal_keeps_variables(*inner);
        },
        ExprView::Div(a, b) => {
            lemma_normal_keeps_variables(*a);
            lemma_normal_keeps_variables(*b);
            let left = normal(*a);
            let right = normal(*b);
            match (left, right) {
                (ExprView::Div(x, y), ExprView::Number(n)) => {
                    match *y {
                        ExprView::Number(m) => {
                            let folded = ExprView::Number(float_product(m, n));
                            assert(variables(*x) + variables(folded) =~= variables(*x) + variables(
                                *y,
                            ) + variables(right));
                        },
                        _ => {},
                    }
                },
                _ => {},
            }
        },
        _ => {},
    }
}

/// The names in a list of strings.
pub open spec fn names(list: Seq<String>) -> Set<Seq<char>> {
    list.map_values(|s: String| s@).to_set()
}

/// How many bound names are not being expanded.
pub open spec fn unexpanded(env: Map<Seq<char>, ExprView>, visiting: Set<Seq<char>>) -> nat {
    env.dom().difference(visiting).len()
}

/// Expanding one more bound name leaves fewer to expand.
pub proof fn lemma_unexpanded_decreases(
    env: Map<Seq<char>, ExprView>,
    visiting: Set<Seq<char>>,
    name: Seq<char>,
)
    requires
        env.dom().finite(),
        env.contains_key(name),
        !visiting.contains(name),
    ensures
        unexpanded(env, visiting.insert(name)) < unexpanded(env, visiting),
{
    let rest = env.dom().difference(visiting);
    assert(env.dom().difference(visiting.insert(name)) =~= rest.remove(name));
}

/// With the normal form in place of a result.
pub open spec fn normalized(r: Result<ExprView, HaltView>) -> Result<ExprView, HaltView> {
    match r {
        Ok(e) => Ok(normal(e)),
        Err(h) => Err(h),
    }
}

/// The power of two evaluated operands: of two numbers, what the table
/// holds; of anything to the number zero, one; of anything to the number one,
/// itself; otherwise the power as it stands.
pub open spec fn power(base: ExprView, exponent: ExprView, powers: Map<(u64, u64), u64>) -> Result<
    ExprView,
    HaltView,
> {
    match (base, exponent) {
        (ExprView::Number(x), ExprView::Number(y)) => if powers.contains_key((x, y)) {
            Ok(ExprView::Number(powers[(x, y)]))
        } else {
            Err(HaltView::NeedPower(x, y))
        },
        (_, ExprView::Number(y)) => if is_zero(y) {
            Ok(ExprView::Number(ONE))
        } else if float_eq(y, ONE) {
            Ok(base)
        } else {
            Ok(ExprView::Pow(Box::new(base), Box::new(exponent)))
        },
        _ => Ok(ExprView::Pow(Box::new(base), Box::new(exponent))),
    }
}

/// The quotient of two evaluated operands: none where the divisor is the
/// number zero.
pub open spec fn quotient(left: ExprView, right: ExprView) -> Result<ExprView, HaltView> {
    match right {
        ExprView::Number(y) => if is_zero(y) {
            Err(HaltView::Error(ErrorView::DivisionByZero))
        } else {
            match left {
                ExprView::Number(x) => Ok(ExprView::Number(float_quotient(x, y))),
                _ => Ok(normal(ExprView::Div(Box::new(left), Box::new(right)))),
            }
        },
        _ => Ok(normal(ExprView::Div(Box::new(left), Box::new(right)))),
    }
}

/// The value of `e` before its last normalization.
///
/// `env` binds the variables, `visiting` holds the names that are being
/// expanded, `powers` the known powers. The operands of a node are evaluated
/// from left to right, and the first one without a value decides.
pub open spec fn reduction(
    e: ExprView,
    env: Map<Seq<char>, ExprView>,
    visiting: Set<Seq<char>>,
    powers: Map<(u64, u64), u64>,
) -> Result<ExprView, HaltView>
    decreases unexpanded(env, visiting), e, 0nat,
    when env.dom().finite()
    via reduction_decreases
{
    match e {
        ExprView::Number(_) => Ok(e),
        ExprView::Var(name) => if !visiting.contains(name) && env.contains_key(name) {
            evaluation(env[name], env, visiting.insert(name), powers)
        } else {
            Ok(e)
        },
        ExprView::Add(terms) => match evaluations(terms, terms.len(), env, visiting, powers) {
            Ok(values) => Ok(normal(ExprView::Add(values))),
            Err(h) => Err(h),
        },
        ExprView::Mul(factors) => match evaluations(factors, factors.len(), env, visiting, powers) {
            Ok(values) => Ok(normal(ExprView::Mul(values))),
            Err(h) => Err(h),
        },
        ExprView::Neg(inner) => match evaluation(*inner, env, visiting, powers) {
            Ok(value) => Ok(normal(ExprView::Neg(Box::new(value)))),
            Err(h) => Err(h),
        },
        ExprView::Sub(a, b) => match evaluation(*a, env, visiting, powers) {
            Ok(left) => match evaluation(*b, env, visiting, powers) {
                Ok(right) => Ok(
                    normal(ExprView::Add(seq![left, ExprView::Neg(Box::new(right))])),
                ),
                Err(h) => Err(h),
            },
            Err(h) => Err(h),
        },
        ExprView::Div(a, b) => match evaluation(*a, env, visiting, powers) {
            Ok(left) => match evaluation(*b, env, visiting, powers) {
                Ok(right) => quotient(left, right),
                Err(h) => Err(h),
            },
            Err(h) => Err(h),
        },
        ExprView::Pow(a, b) => match evaluation(*a, env, visiting, powers) {
            Ok(base) => match evaluation(*b, env, visiting, powers) {
                Ok(exponent) => power(base, exponent, powers),
                Err(h) => Err(h),
            },
            Err(h) => Err(h),
        },
    }
}

/// The value of `e`: what [`reduction`] gives, normalized once more.
pub open spec fn evaluation(
    e: ExprView,
    env: Map<Seq<char>, ExprView>,
    visiting: Set<Seq<char>>,
    powers: Map<(u64, u64), u64>,
) -> Result<ExprView, HaltView>
    decreases unexpanded(env, visiting), e, 1nat,
    when env.dom().finite()
{
    normalized(reduction(e, env, visiting, powers))
}

/// The values of the first `n` of `operands`, in order, or why the first of
/// them that has none has none.
pub open spec fn evaluations(
    operands: Seq<ExprView>,
    n: nat,
    env: Map<Seq<char>, ExprView>,
    visiting: Set<Seq<char>>,
    powers: Map<(u64, u64), u64>,
) -> Result<Seq<ExprView>, HaltView>
    decreases unexpanded(env, visiting), operands, n,
    when env.dom().finite()
{
    if 0 < n <= operands.len() {
        match evaluations(operands, (n - 1) as nat, env, visiting, powers) {
            Ok(values) => match evaluation(operands[n - 1], env, visiting, powers) {
                Ok(value) => Ok(values.push(value)),
                Err(h) => Err(h),
            },
            Err(h) => Err(h),
        }
    } else {
        Ok(Seq::empty())
    }
}

#[via_fn]
proof fn reduction_decreases(
    e: ExprView,
    env: Map<Seq<char>, ExprView>,
    visiting: Set<Seq<char>>,
    powers: Map<(u64, u64), u64>,
) {
    match e {
        ExprView::Var(name) => {
            if !visiting.contains(name) && env.contains_key(name) {
                lemma_unexpanded_decreases(env, visiting, name);
            }
        },
        _ => {},
    }
}

/// A variable that is unbound, or that is being expanded, evaluates to
/// itself.
pub proof fn lemma_unresolved_variable_stays(
    name: Seq<char>,
    env: Map<Seq<char>, ExprView>,
    visiting: Set<Seq<char>>,
    powers: Map<(u64, u64), u64>,
)
    requires
        env.dom().finite(),
        visiting.contains(name) || !env.contains_key(name),
    ensures
        evaluation(ExprView::Var(name), env, visiting, powers) == Ok::<ExprView, HaltView>(
            ExprView::Var(name),
        ),
{
}

/// A variable that is bound to a number, and is not being expanded,
/// evaluates to that number.
pub proof fn lemma_bound_number_is_found(
    name: Seq<char>,
    n: u64,
    env: Map<Seq<char>, ExprView>,
    visiting: Set<Seq<char>>,
    powers: Map<(u64, u64), u64>,
)
    requires
        env.dom().finite(),
        !visiting.contains(name),
        env.contains_key(name),
        env[name] == ExprView::Number(n),
    ensures
        evaluation(ExprView::Var(name), env, visiting, powers) == Ok::<ExprView, HaltView>(
            ExprView::Number(n),
        ),
{
    let number = ExprView::Number(n);
    let inner = visiting.insert(name);
    assert(reduction(number, env, inner, powers) == Ok::<ExprView, HaltView>(number));
    assert(evaluation(number, env, inner, powers) == Ok::<ExprView, HaltView>(number));
    assert(reduction(ExprView::Var(name), env, visiting, powers) == evaluation(
        number,
        env,
        inner,
        powers,
    ));
}

/// A quotient whose operands have values, the divisor the number zero, is a
/// division by zero.
pub proof fn lemma_zero_divisor_fails(
    a: ExprView,
    b: ExprView,
    env: Map<Seq<char>, ExprView>,
    visiting: Set<Seq<char>>,
    powers: Map<(u64, u64), u64>,
)
    requires
        env.dom().finite(),
        evaluation(a, env, visiting, powers) is Ok,
        evaluation(b, env, visiting, powers) matches Ok(ExprView::Number(z)) && is_zero(z),
    ensures
        evaluation(ExprView::Div(Box::new(a), Box::new(b)), env, visiting, powers) == Err::<
            ExprView,
            HaltView,
        >(HaltView::Error(ErrorView::DivisionByZero)),
{
}

/// Trees in normal form, gathered in a sum or a product, make a tree that
/// is ready.
proof fn lemma_values_ready(values: Seq<ExprView>, deep: bool)
    requires
        forall|i: int| 0 <= i < values.len() ==> in_normal_form(#[trigger] values[i], deep),
    ensures
        is_ready(ExprView::Add(values), deep),
        is_ready(ExprView::Mul(values), deep),
{
    assert forall|i: int| 0 <= i < values.len() implies is_ready(#[trigger] values[i], deep) by {
        lemma_normal_form_is_ready(values[i], deep);
    }
}

/// What [`reduction`] gives is in normal form throughout.
pub proof fn lemma_reduction_is_reduced(
    e: ExprView,
    env: Map<Seq<char>, ExprView>,
    visiting: Set<Seq<char>>,
    powers: Map<(u64, u64), u64>,
)
    requires
        env.dom().finite(),
    ensures
        reduction(e, env, visiting, powers) matches Ok(r) ==> is_reduced(r),
    decreases unexpanded(env, visiting), e, 0nat,
{
    match e {
        ExprView::Number(_) => {},
        ExprView::Var(name) => {
            if !visiting.contains(name) && env.contains_key(name) {
                lemma_unexpanded_decreases(env, visiting, name);
                lemma_evaluation_is_reduced(env[name], env, visiting.insert(name), powers);
            }
        },
        ExprView::Add(terms) => {
            lemma_evaluations_are_reduced(terms, terms.len(), env, visiting, powers);
            if let Ok(values) = evaluations(terms, terms.len(), env, visiting, powers) {
                lemma_values_ready(values, true);
                lemma_normal_of_ready(ExprView::Add(values), true);
            }
        },
        ExprView::Mul(factors) => {
            lemma_evaluations_are_reduced(factors, factors.len(), env, visiting, powers);
            if let Ok(values) = evaluations(factors, factors.len(), env, visiting, powers) {
                lemma_values_ready(values, true);
                lemma_normal_of_ready(ExprView::Mul(values), true);
            }
        },
        ExprView::Neg(inner) => {
            lemma_evaluation_is_reduced(*inner, env, visiting, powers);
            if let Ok(value) = evaluation(*inner, env, visiting, powers) {
                lemma_normal_form_is_ready(value, true);
                lemma_normal_of_ready(ExprView::Neg(Box::new(value)), true);
            }
        },
        ExprView::Sub(a, b) => {
            lemma_evaluation_is_reduced(*a, env, visiting, powers);
            lemma_evaluation_is_reduced(*b, env, visiting, powers);
            if let Ok(left) = evaluation(*a, env, visiting, powers) {
                if let Ok(right) = evaluation(*b, env, visiting, powers) {
                    let negation = ExprView::Neg(Box::new(right));
                    let terms = seq![left, negation];
                    lemma_normal_form_is_ready(left, true);
                    lemma_normal_form_is_ready(right, true);
                    assert(is_ready(negation, true));
                    assert forall|i: int| 0 <= i < terms.len() implies is_ready(
                        #[trigger] terms[i],
                        true,
                    ) by {
                        if i == 0 {
                        } else {
                            assert(terms[i] == negation);
                        }
                    }
                    lemma_normal_of_ready(ExprView::Add(terms), true);
                }
            }
        },
        ExprView::Div(a, b) => {
            lemma_evaluation_is_reduced(*a, env, visiting, powers);
            lemma_evaluation_is_reduced(*b, env, visiting, powers);
            if let Ok(left) = evaluation(*a, env, visiting, powers) {
                if let Ok(right) = evaluation(*b, env, visiting, powers) {
                    lemma_normal_form_is_ready(left, true);
                    lemma_normal_form_is_ready(right, true);
                    lemma_normal_of_ready(ExprView::Div(Box::new(left), Box::new(right)), true);
                }
            }
        },
        ExprView::Pow(a, b) => {
            lemma_evaluation_is_reduced(*a, env, visiting, powers);
            lemma_evaluation_is_reduced(*b, env, visiting, powers);
            if let Ok(base) = evaluation(*a, env, visiting, powers) {
                if let Ok(exponent) = evaluation(*b, env, visiting, powers) {
                    assert(is_reduced(ExprView::Pow(Box::new(base), Box::new(exponent))));
                }
            }
        },
    }
}

/// What [`evaluation`] gives is in normal form throughout: no sum stands in a
/// sum and no product in a product, each has at least two operands and at
/// most one number among them, and that number is not the one that changes
/// nothing.
pub proof fn lemma_evaluation_is_reduced(
    e: ExprView,
    env: Map<Seq<char>, ExprView>,
    visiting: Set<Seq<char>>,
    powers: Map<(u64, u64), u64>,
)
    requires
        env.dom().finite(),
    ensures
        evaluation(e, env, visiting, powers) matches Ok(r) ==> is_reduced(r),
    decreases unexpanded(env, visiting), e, 1nat,
{
    lemma_reduction_is_reduced(e, env, visiting, powers);
    if let Ok(r) = reduction(e, env, visiting, powers) {
        lemma_normal_form_is_ready(r, true);
        lemma_normal_of_ready(r, true);
    }
}

/// What [`evaluations`] gives is in normal form throughout.
pub proof fn lemma_evaluations_are_reduced(
    operands: Seq<ExprView>,
    n: nat,
    env: Map<Seq<char>, ExprView>,
    visiting: Set<Seq<char>>,
    powers: Map<(u64, u64), u64>,
)
    requires
        env.dom().finite(),
    ensures
        evaluations(operands, n, env, visiting, powers) matches Ok(values) ==> forall|i: int|
            0 <= i < values.len() ==> is_reduced(#[trigger] values[i]),
    decreases unexpanded(env, visiting), operands, n,
{
    if 0 < n <= operands.len() {
        lemma_evaluations_are_reduced(operands, (n - 1) as nat, env, visiting, powers);
        lemma_evaluation_is_reduced(operands[n - 1], env, visiting, powers);
        if let Ok(front) = evaluations(operands, (n - 1) as nat, env, visiting, powers) {
            if let Ok(value) = evaluation(operands[n - 1], env, visiting, powers) {
                let values = front.push(value);
                assert forall|i: int| 0 <= i < values.len() implies is_reduced(
                    #[trigger] values[i],
                ) by {
                    if i < front.len() {
                        assert(values[i] == front[i]);
                    }
                }
            }
        }
    }
}

/// A difference is evaluated as the sum of its first operand and the
/// negation of its second.
pub proof fn lemma_difference_is_sum_with_negation(
    a: ExprView,
    b: ExprView,
    env: Map<Seq<char>, ExprView>,
    visiting: Set<Seq<char>>,
    powers: Map<(u64, u64), u64>,
)
    requires
        env.dom().finite(),
    ensures
        reduction(ExprView::Sub(Box::new(a), Box::new(b)), env, visiting, powers) == match (
            evaluation(a, env, visiting, powers),
            evaluation(b, env, visiting, powers),
        ) {
            (Ok(left), Ok(right)) => Ok(
                normal(ExprView::Add(seq![left, ExprView::Neg(Box::new(right))])),
            ),
            (Ok(_), Err(h)) => Err(h),
            (Err(h), _) => Err(h),
        },
{
}

/// The tree holds no quotient.
pub open spec fn has_no_quotient(e: ExprView) -> bool
    decreases e,
{
    match e {
        ExprView::Add(terms) => forall|i: int|
            0 <= i < terms.len() ==> has_no_quotient(#[trigger] terms[i]),
        ExprView::Mul(factors) => forall|i: int|
            0 <= i < factors.len() ==> has_no_quotient(#[trigger] factors[i]),
        ExprView::Sub(a, b) => has_no_quotient(*a) && has_no_quotient(*b),
        ExprView::Pow(a, b) => has_no_quotient(*a) && has_no_quotient(*b),
        ExprView::Neg(a) => has_no_quotient(*a),
        ExprView::Div(_, _) => false,
        _ => true,
    }
}

/// No variable is bound to a tree that holds a quotient.
pub open spec fn binds_no_quotient(env: Map<Seq<char>, ExprView>) -> bool {
    forall|name: Seq<char>| env.contains_key(name) ==> has_no_quotient(#[trigger] env[name])
}

/// The evaluation did not fail: it gave a value, or stopped for a power.
pub open spec fn did_not_fail<T>(r: Result<T, HaltView>) -> bool {
    !(r matches Err(HaltView::Error(_)))
}

/// Where no quotient stands in the tree or in what the variables are bound
/// to, [`reduction`] does not fail.
pub proof fn lemma_reduction_without_quotient(
    e: ExprView,
    env: Map<Seq<char>, ExprView>,
    visiting: Set<Seq<char>>,
    powers: Map<(u64, u64), u64>,
)
    requires
        env.dom().finite(),
        has_no_quotient(e),
        binds_no_quotient(env),
    ensures
        did_not_fail(reduction(e, env, visiting, powers)),
    decreases unexpanded(env, visiting), e, 0nat,
{
    match e {
        ExprView::Var(name) => {
            if !visiting.contains(name) && env.contains_key(name) {
                lemma_unexpanded_decreases(env, visiting, name);
                lemma_evaluation_without_quotient(env[name], env, visiting.insert(name), powers);
            }
        },
        ExprView::Add(terms) => {
            lemma_evaluations_without_quotient(terms, terms.len(), env, visiting, powers);
        },
        ExprView::Mul(factors) => {
            lemma_evaluations_without_quotient(factors, factors.len(), env, visiting, powers);
        },
        ExprView::Neg(inner) => {
            lemma_evaluation_without_quotient(*inner, env, visiting, powers);
        },
        ExprView::Sub(a, b) => {
            lemma_evaluation_without_quotient(*a, env, visiting, powers);
            lemma_evaluation_without_quotient(*b, env, visiting, powers);
        },
        ExprView::Pow(a, b) => {
            lemma_evaluation_without_quotient(*a, env, visiting, powers);
            lemma_evaluation_without_quotient(*b, env, visiting, powers);
        },
        _ => {},
    }
}

/// Where no quotient stands in the tree or in what the variables are bound
/// to, the evaluation does not fail.
pub proof fn lemma_evaluation_without_quotient(
    e: ExprView,
    env: Map<Seq<char>, ExprView>,
    visiting: Set<Seq<char>>,
    powers: Map<(u64, u64), u64>,
)
    requires
        env.dom().finite(),
        has_no_quotient(e),
        binds_no_quotient(env),
    ensures
        did_not_fail(evaluation(e, env, visiting, powers)),
    decreases unexpanded(env, visiting), e, 1nat,
{
    lemma_reduction_without_quotient(e, env, visiting, powers);
}

/// Where no quotient stands in the operands or in what the variables are
/// bound to, their evaluation does not fail.
pub proof fn lemma_evaluations_without_quotient(
    operands: Seq<ExprView>,
    n: nat,
    env: Map<Seq<char>, ExprView>,
    visiting: Set<Seq<char>>,
    powers: Map<(u64, u64), u64>,
)
    requires
        env.dom().finite(),
        forall|i: int| 0 <= i < operands.len() ==> has_no_quotient(#[trigger] operands[i]),
        binds_no_quotient(env),
    ensures
        did_not_fail(evaluations(operands, n, env, visiting, powers)),
    decreases unexpanded(env, visiting), operands, n,
{
    if 0 < n <= operands.len() {
        lemma_evaluations_without_quotient(operands, (n - 1) as nat, env, visiting, powers);
        lemma_evaluation_without_quotient(operands[n - 1], env, visiting, powers);
    }
}

/// Every variable of the tree is bound to a number, and none is being
/// expanded.
pub open spec fn is_fully_bound(
    e: ExprView,
    env: Map<Seq<char>, ExprView>,
    visiting: Set<Seq<char>>,
) -> bool
    decreases e,
{
    match e {
        ExprView::Number(_) => true,
        ExprView::Var(name) => !visiting.contains(name) && env.contains_key(name)
            && env[name] is Number,
        ExprView::Add(terms) => forall|i: int|
            0 <= i < terms.len() ==> is_fully_bound(#[trigger] terms[i], env, visiting),
        ExprView::Mul(factors) => forall|i: int|
            0 <= i < factors.len() ==> is_fully_bound(#[trigger] factors[i], env, visiting),
        ExprView::Sub(a, b) => is_fully_bound(*a, env, visiting) && is_fully_bound(
            *b,
            env,
            visiting,
        ),
        ExprView::Div(a, b) => is_fully_bound(*a, env, visiting) && is_fully_bound(
            *b,
            env,
            visiting,
        ),
        ExprView::Pow(a, b) => is_fully_bound(*a, env, visiting) && is_fully_bound(
            *b,
            env,
            visiting,
        ),
        ExprView::Neg(a) => is_fully_bound(*a, env, visiting),
    }
}

/// Operands whose normal forms are numbers leave no operand behind.
proof fn lemma_sum_parts_of_numbers(terms: Seq<ExprView>, n: nat)
    requires
        forall|i: int| 0 <= i < terms.len() ==> normal(#[trigger] terms[i]) is Number,
    ensures
        sum_parts(terms, n).terms.len() == 0,
    decreases n,
{
    if 0 < n <= terms.len() {
        lemma_sum_parts_of_numbers(terms, (n - 1) as nat);
    }
}

/// The sum of operands whose normal forms are numbers is a number.
proof fn lemma_sum_of_numbers(terms: Seq<ExprView>)
    requires
        forall|i: int| 0 <= i < terms.len() ==> normal(#[trigger] terms[i]) is Number,
    ensures
        normal(ExprView::Add(terms)) is Number,
{
    lemma_sum_parts_of_numbers(terms, terms.len());
}

/// Factors whose normal forms are numbers leave no factor behind, and no
/// denominator.
proof fn lemma_product_parts_of_numbers(factors: Seq<ExprView>, n: nat)
    requires
        forall|i: int| 0 <= i < factors.len() ==> normal(#[trigger] factors[i]) is Number,
    ensures
        product_parts(factors, n).factors.len() == 0,
        product_parts(factors, n).denominator == ONE,
    decreases n,
{
    if 0 < n <= factors.len() {
        lemma_product_parts_of_numbers(factors, (n - 1) as nat);
    }
}

/// The product of factors whose normal forms are numbers is a number.
proof fn lemma_product_of_numbers(factors: Seq<ExprView>)
    requires
        forall|i: int| 0 <= i < factors.len() ==> normal(#[trigger] factors[i]) is Number,
    ensures
        normal(ExprView::Mul(factors)) is Number,
{
    lemma_product_parts_of_numbers(factors, factors.len());
}

/// The difference of two numbers is a number.
proof fn lemma_difference_of_numbers(left: ExprView, right: ExprView)
    requires
        left is Number,
        right is Number,
    ensures
        normal(ExprView::Add(seq![left, ExprView::Neg(Box::new(right))])) is Number,
{
    let negation = ExprView::Neg(Box::new(right));
    let terms = seq![left, negation];
    assert(normal(right) == right);
    assert(normal(negation) == negated(right));
    assert forall|i: int| 0 <= i < terms.len() implies normal(#[trigger] terms[i]) is Number by {
        if i == 1 {
            assert(terms[i] == negation);
        } else {
            assert(terms[i] == left);
        }
    }
    lemma_sum_of_numbers(terms);
}

/// A variable bound to a number, and not being expanded, is that number.
proof fn lemma_variable_of_number(
    name: Seq<char>,
    env: Map<Seq<char>, ExprView>,
    visiting: Set<Seq<char>>,
    powers: Map<(u64, u64), u64>,
)
    requires
        env.dom().finite(),
        !visiting.contains(name),
        env.contains_key(name),
        env[name] is Number,
    ensures
        reduction(ExprView::Var(name), env, visiting, powers) == Ok::<ExprView, HaltView>(
            env[name],
        ),
{
    let number = env[name];
    let inner = visiting.insert(name);
    assert(reduction(number, env, inner, powers) == Ok::<ExprView, HaltView>(number));
    assert(evaluation(number, env, inner, powers) == Ok::<ExprView, HaltView>(number));
}

/// Where every variable of the tree is bound to a number, what [`reduction`]
/// gives is a number.
pub proof fn lemma_reduction_of_fully_bound(
    e: ExprView,
    env: Map<Seq<char>, ExprView>,
    visiting: Set<Seq<char>>,
    powers: Map<(u64, u64), u64>,
)
    requires
        env.dom().finite(),
        is_fully_bound(e, env, visiting),
    ensures
        reduction(e, env, visiting, powers) matches Ok(r) ==> r is Number,
    decreases e, 0nat,
{
    match e {
        ExprView::Number(_) => {},
        ExprView::Var(name) => {
            lemma_variable_of_number(name, env, visiting, powers);
        },
        ExprView::Add(terms) => {
            lemma_evaluations_of_fully_bound(terms, terms.len(), env, visiting, powers);
            if let Ok(values) = evaluations(terms, terms.len(), env, visiting, powers) {
                lemma_sum_of_numbers(values);
            }
        },
        ExprView::Mul(factors) => {
            lemma_evaluations_of_fully_bound(factors, factors.len(), env, visiting, powers);
            if let Ok(values) = evaluations(factors, factors.len(), env, visiting, powers) {
                lemma_product_of_numbers(values);
            }
        },
        ExprView::Neg(inner) => {
            lemma_evaluation_of_fully_bound(*inner, env, visiting, powers);
            if let Ok(value) = evaluation(*inner, env, visiting, powers) {
                assert(normal(value) == value);
                assert(normal(ExprView::Neg(Box::new(value))) == negated(value));
            }
        },
        ExprView::Sub(a, b) => {
            lemma_evaluation_of_fully_bound(*a, env, visiting, powers);
            lemma_evaluation_of_fully_bound(*b, env, visiting, powers);
            if let Ok(left) = evaluation(*a, env, visiting, powers) {
                if let Ok(right) = evaluation(*b, env, visiting, powers) {
                    lemma_difference_of_numbers(left, right);
                }
            }
        },
        ExprView::Div(a, b) => {
            lemma_evaluation_of_fully_bound(*a, env, visiting, powers);
            lemma_evaluation_of_fully_bound(*b, env, visiting, powers);
            if let Ok(left) = evaluation(*a, env, visiting, powers) {
                if let Ok(right) = evaluation(*b, env, visiting, powers) {
                    assert(quotient(left, right) matches Ok(r) ==> r is Number);
                }
            }
        },
        ExprView::Pow(a, b) => {
            lemma_evaluation_of_fully_bound(*a, env, visiting, powers);
            lemma_evaluation_of_fully_bound(*b, env, visiting, powers);
            if let Ok(base) = evaluation(*a, env, visiting, powers) {
                if let Ok(exponent) = evaluation(*b, env, visiting, powers) {
                    assert(power(base, exponent, powers) matches Ok(r) ==> r is Number);
                }
            }
        },
    }
}

/// Where every variable of the tree is bound to a number, the tree
/// evaluates to a number, unless it stops for a division by zero or for a
/// power.
pub proof fn lemma_evaluation_of_fully_bound(
    e: ExprView,
    env: Map<Seq<char>, ExprView>,
    visiting: Set<Seq<char>>,
    powers: Map<(u64, u64), u64>,
)
    requires
        env.dom().finite(),
        is_fully_bound(e, env, visiting),
    ensures
        evaluation(e, env, visiting, powers) matches Ok(r) ==> r is Number,
    decreases e, 1nat,
{
    lemma_reduction_of_fully_bound(e, env, visiting, powers);
}

/// Where every variable of the operands is bound to a number, the operands
/// evaluate to numbers.
pub proof fn lemma_evaluations_of_fully_bound(
    operands: Seq<ExprView>,
    n: nat,
    env: Map<Seq<char>, ExprView>,
    visiting: Set<Seq<char>>,
    powers: Map<(u64, u64), u64>,
)
    requires
        env.dom().finite(),
        forall|i: int|
            0 <= i < operands.len() ==> is_fully_bound(#[trigger] operands[i], env, visiting),
    ensures
        evaluations(operands, n, env, visiting, powers) matches Ok(values) ==> forall|i: int|
            0 <= i < values.len() ==> normal(#[trigger] values[i]) is Number,
    decreases operands, n,
{
    if 0 < n <= operands.len() {
        lemma_evaluations_of_fully_bound(operands, (n - 1) as nat, env, visiting, powers);
        lemma_evaluation_of_fully_bound(operands[n - 1], env, visiting, powers);
        if let Ok(front) = evaluations(operands, (n - 1) as nat, env, visiting, powers) {
            if let Ok(value) = evaluation(operands[n - 1], env, visiting, powers) {
                let values = front.push(value);
                assert forall|i: int| 0 <= i < values.len() implies normal(
                    #[trigger] values[i],
                ) is Number by {
                    if i < front.len() {
                        assert(values[i] == front[i]);
                    }
                }
            }
        }
    }
}

/// An evaluation stops for one of two reasons only: a division by zero, or
/// a power that the table lacks.
pub open spec fn stops_rightly(h: HaltView, powers: Map<(u64, u64), u64>) -> bool {
    match h {
        HaltView::NeedPower(base, exponent) => !powers.contains_key((base, exponent)),
        HaltView::Error(e) => e is DivisionByZero,
    }
}

/// Where [`reduction`] has no value, it is for a division by zero or for a
/// power that the table lacks.
pub proof fn lemma_reduction_stops_rightly(
    e: ExprView,
    env: Map<Seq<char>, ExprView>,
    visiting: Set<Seq<char>>,
    powers: Map<(u64, u64), u64>,
)
    requires
        env.dom().finite(),
    ensures
        reduction(e, env, visiting, powers) matches Err(h) ==> stops_rightly(h, powers),
    decreases unexpanded(env, visiting), e, 0nat,
{
    match e {
        ExprView::Number(_) => {},
        ExprView::Var(name) => {
            if !visiting.contains(name) && env.contains_key(name) {
                lemma_unexpanded_decreases(env, visiting, name);
                lemma_evaluation_stops_rightly(env[name], env, visiting.insert(name), powers);
            }
        },
        ExprView::Add(terms) => {
            lemma_evaluations_stop_rightly(terms, terms.len(), env, visiting, powers);
        },
        ExprView::Mul(factors) => {
            lemma_evaluations_stop_rightly(factors, factors.len(), env, visiting, powers);
        },
        ExprView::Neg(inner) => {
            lemma_evaluation_stops_rightly(*inner, env, visiting, powers);
        },
        ExprView::Sub(a, b) => {
            lemma_evaluation_stops_rightly(*a, env, visiting, powers);
            lemma_evaluation_stops_rightly(*b, env, visiting, powers);
        },
        ExprView::Div(a, b) => {
            lemma_evaluation_stops_rightly(*a, env, visiting, powers);
            lemma_evaluation_stops_rightly(*b, env, visiting, powers);
        },
        ExprView::Pow(a, b) => {
            lemma_evaluation_stops_rightly(*a, env, visiting, powers);
            lemma_evaluation_stops_rightly(*b, env, visiting, powers);
        },
    }
}

/// Where [`evaluation`] has no value, it is for a division by zero or for a
/// power that the table lacks.
pub proof fn lemma_evaluation_stops_rightly(
    e: ExprView,
    env: Map<Seq<char>, ExprView>,
    visiting: Set<Seq<char>>,
    powers: Map<(u64, u64), u64>,
)
    requires
        env.dom().finite(),
    ensures
        evaluation(e, env, visiting, powers) matches Err(h) ==> stops_rightly(h, powers),
    decreases unexpanded(env, visiting), e, 1nat,
{
    lemma_reduction_stops_rightly(e, env, visiting, powers);
}

/// Where [`evaluations`] has no values, it is for a division by zero or for a
/// power that the table lacks.
pub proof fn lemma_evaluations_stop_rightly(
    operands: Seq<ExprView>,
    n: nat,
    env: Map<Seq<char>, ExprView>,
    visiting: Set<Seq<char>>,
    powers: Map<(u64, u64), u64>,
)
    requires
        env.dom().finite(),
    ensures
        evaluations(operands, n, env, visiting, powers) matches Err(h) ==> stops_rightly(h, powers),
    decreases unexpanded(env, visiting), operands, n,
{
    if 0 < n <= operands.len() {
        lemma_evaluations_stop_rightly(operands, (n - 1) as nat, env, visiting, powers);
        lemma_evaluation_stops_rightly(operands[n - 1], env, visiting, powers);
    }
}

/// The value of what [`eval`] and [`eval_ast`] return.
pub open spec fn evaluated(r: Result<Expr, Halt>) -> Result<ExprView, HaltView> {
    match r {
        Ok(e) => Ok(e@),
        Err(h) => Err(h@),
    }
}

/// The parts of a sum as [`normalize`] holds them.
spec fn sum_state(terms: Seq<Expr>, sum: u64) -> SumParts {
    SumParts { terms: expr_views(terms), sum }
}

/// The parts of a product as [`normalize`] holds them.
spec fn product_state(factors: Seq<Expr>, numerator: u64, denominator: u64) -> ProductParts {
    ProductParts { factors: expr_views(factors), numerator, denominator }
}

/// `1 / divisor`.
fn reciprocal_of(divisor: Expr) -> (r: Expr)
    ensures
        r@ == reciprocal(divisor@),
{
    let one = Expr::Number(ONE);
    assert(one@ == ExprView::Number(ONE));
    Expr::Div(Box::new(one), Box::new(divisor))
}

/// Makes the sum of gathered parts.
fn finish_sum(terms: Vec<Expr>, sum: u64) -> (r: Expr)
    ensures
        r@ == close_sum(sum_state(terms@, sum)),
{
    let mut terms = terms;
    if !numbers_equal(sum, ZERO) {
        proof {
            lemma_expr_views_push(terms@, Expr::Number(sum));
        }
        terms.push(Expr::Number(sum));
    }
    if terms.len() == 0 {
        Expr::Number(ZERO)
    } else if terms.len() == 1 {
        terms.pop().unwrap()
    } else {
        Expr::Add(terms)
    }
}

/// Makes the product of gathered parts.
fn finish_product(factors: Vec<Expr>, numerator: u64, denominator: u64) -> (r: Expr)
    ensures
        r@ == close_product(product_state(factors@, numerator, denominator)),
{
    let mut factors = factors;
    if !numbers_equal(denominator, ONE) {
        let last = reciprocal_of(Expr::Number(denominator));
        proof {
            lemma_expr_views_push(factors@, last);
        }
        factors.push(last);
    }
    if !numbers_equal(numerator, ONE) {
        let ghost rest = factors@;
        factors.insert(0, Expr::Number(numerator));
        assert(expr_views(factors@) =~= seq![ExprView::Number(numerator)] + expr_views(rest));
    }
    if factors.len() == 0 {
        Expr::Number(ONE)
    } else if factors.len() == 1 {
        factors.pop().unwrap()
    } else {
        Expr::Mul(factors)
    }
}

/// Gathers one normalized operand into the parts of a sum.
fn gather_term(term: Expr, flat: &mut Vec<Expr>, sum: &mut u64)
    ensures
        sum_state(final(flat)@, *final(sum)) == add_term(
            sum_state(old(flat)@, *old(sum)),
            term@,
        ),
    decreases term,
{
    let ghost start = sum_state(flat@, *sum);
    match term {
        Expr::Number(n) => {
            *sum = add_numbers(*sum, n);
        },
        Expr::Add(inner) => {
            let ghost given = inner;
            for operand in it: inner
                invariant
                    it.seq() == given@,
                    term == Expr::Add(given),
                    sum_state(flat@, *sum) == add_terms(
                        start,
                        expr_views(given@),
                        it.index() as nat,
                    ),
            {
                assert(term->Add_0 == given);
                gather_term(operand, flat, sum);
            }
        },
        other => {
            proof {
                lemma_expr_views_push(flat@, other);
            }
            flat.push(other);
        },
    }
}

/// Gathers one normalized factor into the parts of a product.
fn gather_factor(factor: Expr, flat: &mut Vec<Expr>, numerator: &mut u64, denominator: &mut u64)
    ensures
        product_state(final(flat)@, *final(numerator), *final(denominator)) == add_factor(
            product_state(old(flat)@, *old(numerator), *old(denominator)),
            factor@,
        ),
    decreases factor,
{
    let ghost start = product_state(flat@, *numerator, *denominator);
    match factor {
        Expr::Number(n) => {
            *numerator = multiply_numbers(*numerator, n);
        },
        Expr::Mul(inner) => {
            let ghost given = inner;
            for operand in it: inner
                invariant
                    it.seq() == given@,
                    factor == Expr::Mul(given),
                    product_state(flat@, *numerator, *denominator) == add_factors(
                        start,
                        expr_views(given@),
                        it.index() as nat,
                    ),
            {
                assert(factor->Mul_0 == given);
                gather_factor(operand, flat, numerator, denominator);
            }
        },
        Expr::Div(x, y) => {
            assert(factor@ == ExprView::Div(Box::new(x@), Box::new(y@)));
            gather_factor(*x, flat, numerator, denominator);
            let divisor = *y;
            let ghost divisor_value = divisor@;
            match divisor {
                Expr::Number(d) => {
                    assert(divisor_value == ExprView::Number(d));
                    *denominator = multiply_numbers(*denominator, d);
                },
                other => {
                    assert(!(divisor_value is Number));
                    let last = reciprocal_of(other);
                    proof {
                        lemma_expr_views_push(flat@, last);
                    }
                    flat.push(last);
                },
            }
        },
        other => {
            proof {
                lemma_expr_views_push(flat@, other);
            }
            flat.push(other);
        },
    }
}

/// Brings a tree into normal form.
///
/// Sums and products are flattened and their numbers folded into one, which
/// is dropped where it changes nothing; negations and quotients of numbers
/// are computed; a product takes the numeric divisors of its quotients into
/// one denominator: a number among the operands of a nested sum or product,
/// or as the dividend of a quotient in a product, is folded like any other.
/// The result is [`normal`] of the tree; it is in normal form
/// ([`is_normal`]) and holds the variables of the tree in their order.
/// Powers and differences are left as they are.
pub fn normalize(expr: Expr) -> (r: Expr)
    ensures
        r@ == normal(expr@),
        is_normal(r@),
        variables(r@) == variables(expr@),
    decreases expr,
{
    proof {
        lemma_normal_is_normal(expr@);
        lemma_normal_keeps_variables(expr@);
    }
    match expr {
        Expr::Add(terms) => {
            let ghost given = terms;
            let mut flat: Vec<Expr> = Vec::new();
            let mut sum: u64 = ZERO;
            assert(expr_views(flat@) =~= Seq::<ExprView>::empty());
            for term in it: terms
                invariant
                    it.seq() == given@,
                    expr == Expr::Add(given),
                    sum_state(flat@, sum) == sum_parts(expr_views(given@), it.index() as nat),
            {
                assert(expr->Add_0 == given);
                let reduced = normalize(term);
                gather_term(reduced, &mut flat, &mut sum);
            }
            finish_sum(flat, sum)
        },
        Expr::Mul(factors) => {
            let ghost given = factors;
            let mut flat: Vec<Expr> = Vec::new();
            let mut numerator: u64 = ONE;
            let mut denominator: u64 = ONE;
            assert(expr_views(flat@) =~= Seq::<ExprView>::empty());
            for factor in it: factors
                invariant
                    it.seq() == given@,
                    expr == Expr::Mul(given),
                    product_state(flat@, numerator, denominator) == product_parts(
                        expr_views(given@),
                        it.index() as nat,
                    ),
            {
                assert(expr->Mul_0 == given);
                let reduced = normalize(factor);
                gather_factor(reduced, &mut flat, &mut numerator, &mut denominator);
            }
            finish_product(flat, numerator, denominator)
        },
        Expr::Neg(inner) => {
            assert(expr@ == ExprView::Neg(Box::new(inner@)));
            let reduced = normalize(*inner);
            let ghost value = reduced@;
            match reduced {
                Expr::Number(n) => Expr::Number(negate(n)),
                other => {
                    assert(!(value is Number));
                    Expr::Neg(Box::new(other))
                },
            }
        },
        Expr::Div(a, b) => {
            assert(expr@ == ExprView::Div(Box::new(a@), Box::new(b@)));
            let left = normalize(*a);
            let right = normalize(*b);
            divide(left, right)
        },
        other => other,
    }
}

/// Makes the quotient of two normalized operands.
fn divide(left: Expr, right: Expr) -> (r: Expr)
    ensures
        r@ == divided(left@, right@),
{
    let ghost left_value = left@;
    let ghost right_value = right@;
    match right {
        Expr::Number(b) => match left {
            Expr::Div(x, y) => {
                assert(left_value == ExprView::Div(Box::new(x@), Box::new(y@)));
                let divisor = *y;
                let ghost divisor_value = divisor@;
                match divisor {
                    Expr::Number(a) => {
                        assert(divisor_value == ExprView::Number(a));
                        let product = Expr::Number(multiply_numbers(a, b));
                        assert(product@ == ExprView::Number(float_product(a, b)));
                        Expr::Div(x, Box::new(product))
                    },
                    other => {
                        assert(!(divisor_value is Number));
                        let number = Expr::Number(b);
                        assert(number@ == right_value);
                        let dividend = Expr::Div(x, Box::new(other));
                        assert(dividend@ == left_value);
                        Expr::Div(Box::new(dividend), Box::new(number))
                    },
                }
            },
            Expr::Number(a) => Expr::Number(divide_numbers(a, b)),
            other => {
                let number = Expr::Number(b);
                assert(number@ == right_value);
                Expr::Div(Box::new(other), Box::new(number))
            },
        },
        other => {
            assert(!(right_value is Number));
            Expr::Div(Box::new(left), Box::new(other))
        },
    }
}

/// A name added to a list is added to its names.
proof fn lemma_names_push(list: Seq<String>, name: String)
    ensures
        names(list.push(name)) == names(list).insert(name@),
{
    let before = list.map_values(|s: String| s@);
    let after = list.push(name).map_values(|s: String| s@);
    assert forall|n: Seq<char>| after.to_set().contains(n) <==> before.to_set().insert(
        name@,
    ).contains(n) by {
        if after.contains(n) {
            let i = choose|i: int| 0 <= i < after.len() && after[i] == n;
            if i < before.len() {
                assert(before[i] == n);
            }
        }
        if before.contains(n) {
            let i = choose|i: int| 0 <= i < before.len() && before[i] == n;
            assert(after[i] == n);
        }
        if n == name@ {
            assert(after[before.len() as int] == n);
        }
    }
}

/// Whether `name` is in `list`.
fn contains_name(list: &Vec<String>, name: &String) -> (r: bool)
    ensures
        r == names(list@).contains(name@),
{
    let ghost all = list@.map_values(|s: String| s@);
    let mut i: usize = 0;
    while i < list.len()
        invariant
            i <= list.len(),
            all == list@.map_values(|s: String| s@),
            forall|k: int| 0 <= k < i ==> all[k] != name@,
        decreases list.len() - i,
    {
        if list[i] == *name {
            assert(all[i as int] == name@);
            return true;
        }
        i = i + 1;
    }
    false
}

/// Makes the power of two evaluated operands.
fn raise(base: Expr, exponent: Expr, powers: &PowerTable) -> (r: Result<Expr, Halt>)
    ensures
        evaluated(r) == power(base@, exponent@, powers@),
{
    let ghost base_value = base@;
    let ghost exponent_value = exponent@;
    match exponent {
        Expr::Number(y) => match base {
            Expr::Number(x) => match powers.lookup(x, y) {
                Some(value) => Ok(Expr::Number(value)),
                None => Err(Halt::NeedPower(x, y)),
            },
            other => {
                assert(!(base_value is Number));
                if is_zero_number(y) {
                    Ok(Expr::Number(ONE))
                } else if numbers_equal(y, ONE) {
                    Ok(other)
                } else {
                    let number = Expr::Number(y);
                    assert(number@ == exponent_value);
                    Ok(Expr::Pow(Box::new(other), Box::new(number)))
                }
            },
        },
        other => {
            assert(!(exponent_value is Number));
            Ok(Expr::Pow(Box::new(base), Box::new(other)))
        },
    }
}

/// Makes the quotient of two evaluated operands.
fn quotient_of(left: Expr, right: Expr) -> (r: Result<Expr, Halt>)
    ensures
        evaluated(r) == quotient(left@, right@),
{
    let ghost left_value = left@;
    let ghost right_value = right@;
    match right {
        Expr::Number(y) => {
            if is_zero_number(y) {
                Err(Halt::Error(CalcError::DivisionByZero))
            } else {
                match left {
                    Expr::Number(x) => Ok(Expr::Number(divide_numbers(x, y))),
                    other => {
                        assert(!(left_value is Number));
                        let number = Expr::Number(y);
                        assert(number@ == right_value);
                        Ok(normalize(Expr::Div(Box::new(other), Box::new(number))))
                    },
                }
            }
        },
        other => {
            assert(!(right_value is Number));
            Ok(normalize(Expr::Div(Box::new(left), Box::new(other))))
        },
    }
}

/// Evaluates the operands of a sum or a product, from left to right.
fn eval_operands(
    operands: &Vec<Expr>,
    vars: &Environment,
    visited: &mut Vec<String>,
    powers: &PowerTable,
) -> (r: Result<Vec<Expr>, Halt>)
    ensures
        final(visited)@ == old(visited)@,
        match r {
            Ok(values) => evaluations(
                expr_views(operands@),
                operands@.len(),
                vars@,
                names(old(visited)@),
                powers@,
            ) == Ok::<Seq<ExprView>, HaltView>(expr_views(values@)),
            Err(h) => evaluations(
                expr_views(operands@),
                operands@.len(),
                vars@,
                names(old(visited)@),
                powers@,
            ) == Err::<Seq<ExprView>, HaltView>(h@),
        },
    decreases unexpanded(vars@, names(old(visited)@)), operands, operands.len(),
{
    proof {
        vars.lemma_finite();
    }
    let ghost all = expr_views(operands@);
    let ghost visiting = names(visited@);
    let mut values: Vec<Expr> = Vec::new();
    assert(expr_views(values@) =~= Seq::<ExprView>::empty());
    let mut i: usize = 0;
    while i < operands.len()
        invariant
            i <= operands.len(),
            vars@.dom().finite(),
            all == expr_views(operands@),
            visited@ == old(visited)@,
            visiting == names(old(visited)@),
            evaluations(all, i as nat, vars@, visiting, powers@) == Ok::<Seq<ExprView>, HaltView>(
                expr_views(values@),
            ),
        decreases operands.len() - i,
    {
        match eval_ast(&operands[i], vars, visited, powers) {
            Ok(value) => {
                proof {
                    lemma_expr_views_push(values@, value);
                }
                values.push(value);
            },
            Err(h) => {
                proof {
                    lemma_evaluations_fail(
                        all,
                        (i + 1) as nat,
                        operands@.len(),
                        vars@,
                        visiting,
                        powers@,
                    );
                }
                return Err(h);
            },
        }
        i = i + 1;
    }
    Ok(values)
}

/// Where the first operands have no value, neither have more of them.
proof fn lemma_evaluations_fail(
    operands: Seq<ExprView>,
    n: nat,
    m: nat,
    env: Map<Seq<char>, ExprView>,
    visiting: Set<Seq<char>>,
    powers: Map<(u64, u64), u64>,
)
    requires
        env.dom().finite(),
        n <= m <= operands.len(),
        evaluations(operands, n, env, visiting, powers) is Err,
    ensures
        evaluations(operands, m, env, visiting, powers) == evaluations(
            operands,
            n,
            env,
            visiting,
            powers,
        ),
    decreases m,
{
    if n < m {
        lemma_evaluations_fail(operands, n, (m - 1) as nat, env, visiting, powers);
    }
}

/// Evaluates a tree up to its last normalization.
///
/// A variable that is in `visited` or unbound is returned as it is; a bound
/// one is replaced by the value of its definition, during whose evaluation
/// its name is in `visited`. The operands of a node are evaluated from left
/// to right and the first failure is returned. Division by a divisor that
/// evaluates to the number zero is `DivisionByZero`; a power of two numbers
/// is taken from `powers`, and is `NeedPower` where the table lacks it.
/// The result is what [`reduction`] defines, and it is in normal form
/// throughout ([`is_reduced`]). `visited` is the same list afterwards.
pub fn eval(
    expr: &Expr,
    vars: &Environment,
    visited: &mut Vec<String>,
    powers: &PowerTable,
) -> (r: Result<Expr, Halt>)
    ensures
        final(visited)@ == old(visited)@,
        evaluated(r) == reduction(expr@, vars@, names(old(visited)@), powers@),
        r matches Ok(value) ==> is_reduced(value@),
    decreases unexpanded(vars@, names(old(visited)@)), expr, 0nat,
{
    proof {
        vars.lemma_finite();
        lemma_reduction_is_reduced(expr@, vars@, names(visited@), powers@);
    }
    match expr {
        Expr::Number(n) => Ok(Expr::Number(*n)),
        Expr::Var(name) => {
            if contains_name(visited, name) {
                return Ok(Expr::Var(name.clone()));
            }
            match vars.get(name) {
                Some(definition) => {
                    let entry = name.clone();
                    proof {
                        lemma_unexpanded_decreases(vars@, names(visited@), name@);
                        lemma_names_push(visited@, entry);
                    }
                    visited.push(entry);
                    let result = eval_ast(definition, vars, visited, powers);
                    visited.pop();
                    result
                },
                None => Ok(Expr::Var(name.clone())),
            }
        },
        Expr::Add(terms) => {
            match eval_operands(terms, vars, visited, powers) {
                Ok(values) => Ok(normalize(Expr::Add(values))),
                Err(h) => Err(h),
            }
        },
        Expr::Mul(factors) => {
            match eval_operands(factors, vars, visited, powers) {
                Ok(values) => Ok(normalize(Expr::Mul(values))),
                Err(h) => Err(h),
            }
        },
        Expr::Neg(inner) => {
            match eval_ast(inner, vars, visited, powers) {
                Ok(value) => Ok(normalize(Expr::Neg(Box::new(value)))),
                Err(h) => Err(h),
            }
        },
        Expr::Sub(a, b) => {
            let left = match eval_ast(a, vars, visited, powers) {
                Ok(value) => value,
                Err(h) => {
                    return Err(h);
                },
            };
            let right = match eval_ast(b, vars, visited, powers) {
                Ok(value) => value,
                Err(h) => {
                    return Err(h);
                },
            };
            let ghost left_value = left@;
            let ghost right_value = right@;
            let mut terms: Vec<Expr> = Vec::new();
            terms.push(left);
            terms.push(Expr::Neg(Box::new(right)));
            assert(expr_views(terms@) =~= seq![left_value, ExprView::Neg(Box::new(right_value))]);
            Ok(normalize(Expr::Add(terms)))
        },
        Expr::Div(a, b) => {
            let left = match eval_ast(a, vars, visited, powers) {
                Ok(value) => value,
                Err(h) => {
                    return Err(h);
                },
            };
            let right = match eval_ast(b, vars, visited, powers) {
                Ok(value) => value,
                Err(h) => {
                    return Err(h);
                },
            };
            quotient_of(left, right)
        },
        Expr::Pow(a, b) => {
            let base = match eval_ast(a, vars, visited, powers) {
                Ok(value) => value,
                Err(h) => {
                    return Err(h);
                },
            };
            let exponent = match eval_ast(b, vars, visited, powers) {
                Ok(value) => value,
                Err(h) => {
                    return Err(h);
                },
            };
            raise(base, exponent, powers)
        },
    }
}

/// Evaluates a tree: [`eval`], and the result normalized once more.
///
/// The result is what [`evaluation`] defines, and it is in normal form
/// throughout ([`is_reduced`]). `visited` is the same list afterwards.
pub fn eval_ast(
    expr: &Expr,
    vars: &Environment,
    visited: &mut Vec<String>,
    powers: &PowerTable,
) -> (r: Result<Expr, Halt>)
    ensures
        final(visited)@ == old(visited)@,
        evaluated(r) == evaluation(expr@, vars@, names(old(visited)@), powers@),
        r matches Ok(value) ==> is_reduced(value@),
    decreases unexpanded(vars@, names(old(visited)@)), expr, 1nat,
{
    proof {
        vars.lemma_finite();
        lemma_evaluation_is_reduced(expr@, vars@, names(visited@), powers@);
    }
    match eval(expr, vars, visited, powers) {
        Ok(result) => Ok(normalize(result)),
        Err(h) => Err(h),
    }
}

} // verus!
