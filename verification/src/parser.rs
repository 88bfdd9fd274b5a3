//! Operator-precedence parsing: from tokens to an expression tree.
//!
//! Two stacks are kept, one of expressions and one of pending operators. An
//! operator is applied, that is, its operands are popped and the node pushed,
//! as soon as an operator that binds no tighter arrives, a parenthesis closes
//! or the input ends. Operators of equal precedence therefore group to the
//! left, `^` included.

use crate::errors::{CalcError, ErrorView};
use crate::lexer::{token_views, Token, TokenView};
use vstd::prelude::*;

verus! {

/// An expression tree. Sums and products take any number of operands.
///
/// `==` compares numbers by their bit patterns; to compare them as numbers,
/// use [`crate::engine::same_tree`].
#[derive(Debug, PartialEq)]
pub enum Expr {
    /// A number, as a binary64 bit pattern.
    Number(u64),
    /// A variable, by its name.
    Var(String),
    /// The sum of the operands.
    Add(Vec<Expr>),
    /// The first operand minus the second.
    Sub(Box<Expr>, Box<Expr>),
    /// The product of the operands.
    Mul(Vec<Expr>),
    /// The first operand divided by the second.
    Div(Box<Expr>, Box<Expr>),
    /// The first operand raised to the second.
    Pow(Box<Expr>, Box<Expr>),
    /// The operand negated.
    Neg(Box<Expr>),
}

/// The mathematical value of an [`Expr`].
pub enum ExprView {
    Number(u64),
    Var(Seq<char>),
    Add(Seq<ExprView>),
    Sub(Box<ExprView>, Box<ExprView>),
    Mul(Seq<ExprView>),
    Div(Box<ExprView>, Box<ExprView>),
    Pow(Box<ExprView>, Box<ExprView>),
    Neg(Box<ExprView>),
}

impl Expr {
    /// The value of the tree; [`View::view`] is this function.
    pub open spec fn model(&self) -> ExprView
        decreases self, 0int,
    {
        match self {
            Expr::Number(n) => ExprView::Number(*n),
            Expr::Var(name) => ExprView::Var(name@),
            Expr::Add(terms) => ExprView::Add(expr_views(terms@)),
            Expr::Sub(a, b) => ExprView::Sub(Box::new(a.model()), Box::new(b.model())),
            Expr::Mul(terms) => ExprView::Mul(expr_views(terms@)),
            Expr::Div(a, b) => ExprView::Div(Box::new(a.model()), Box::new(b.model())),
            Expr::Pow(a, b) => ExprView::Pow(Box::new(a.model()), Box::new(b.model())),
            Expr::Neg(a) => ExprView::Neg(Box::new(a.model())),
        }
    }
}

/// The values of a sequence of trees.
pub open spec fn expr_views(exprs: Seq<Expr>) -> Seq<ExprView>
    decreases exprs, 1int,
{
    Seq::new(
        exprs.len(),
        |i: int|
            if 0 <= i < exprs.len() {
                exprs[i].model()
            } else {
                ExprView::Number(0)
            },
    )
}

impl View for Expr {
    type V = ExprView;

    open spec fn view(&self) -> ExprView {
        self.model()
    }
}

impl Expr {
    /// A tree of its own with the same value.
    pub fn duplicate(&self) -> (r: Expr)
        ensures
            r@ == self@,
        decreases self,
    {
        match self {
            Expr::Number(n) => Expr::Number(*n),
            Expr::Var(name) => Expr::Var(name.clone()),
            Expr::Add(terms) => Expr::Add(Self::duplicate_all(terms)),
            Expr::Sub(a, b) => Expr::Sub(Box::new(a.duplicate()), Box::new(b.duplicate())),
            Expr::Mul(terms) => Expr::Mul(Self::duplicate_all(terms)),
            Expr::Div(a, b) => Expr::Div(Box::new(a.duplicate()), Box::new(b.duplicate())),
            Expr::Pow(a, b) => Expr::Pow(Box::new(a.duplicate()), Box::new(b.duplicate())),
            Expr::Neg(a) => Expr::Neg(Box::new(a.duplicate())),
        }
    }

    /// Trees of their own with the same values, in the same order.
    fn duplicate_all(exprs: &Vec<Expr>) -> (r: Vec<Expr>)
        ensures
            expr_views(r@) == expr_views(exprs@),
        decreases exprs,
    {
        let mut out: Vec<Expr> = Vec::new();
        let mut i: usize = 0;
        while i < exprs.len()
            invariant
                i <= exprs.len(),
                out.len() == i,
                forall|k: int| 0 <= k < i ==> out@[k]@ == exprs@[k]@,
            decreases exprs.len() - i,
        {
            out.push(exprs[i].duplicate());
            i += 1;
        }
        out
    }
}

impl Clone for Expr {
    fn clone(&self) -> (r: Expr)
        ensures
            r@ == self@,
    {
        self.duplicate()
    }
}

/// How tightly an operator binds; 0 for what is no operator.
pub open spec fn precedence_of(token: TokenView) -> int {
    match token {
        TokenView::Plus | TokenView::Minus => 1,
        TokenView::Star | TokenView::Slash => 2,
        TokenView::UnaryMinus => 3,
        TokenView::Power => 4,
        _ => 0,
    }
}

/// One of `+ - * / ^`.
pub open spec fn is_binary_operator(token: TokenView) -> bool {
    token is Plus || token is Minus || token is Star || token is Slash || token is Power
}

/// A `-` negates, rather than subtracts, where it starts the input or follows
/// `(` or a binary operator.
pub open spec fn is_unary_position(prev: Option<TokenView>, current: TokenView) -> bool {
    current is Minus && match prev {
        None => true,
        Some(p) => p is LParen || is_binary_operator(p),
    }
}

/// The expression stack after `op` has taken its operands from the top and
/// left its node there.
pub open spec fn apply(op: TokenView, stack: Seq<ExprView>) -> Result<Seq<ExprView>, ErrorView> {
    let n = stack.len() as int;
    match op {
        TokenView::UnaryMinus => if n >= 1 {
            Ok(stack.take(n - 1).push(ExprView::Neg(Box::new(stack[n - 1]))))
        } else {
            Err(ErrorView::MissingOperand)
        },
        _ => if is_binary_operator(op) {
            if n >= 2 {
                Ok(stack.take(n - 2).push(binary_node(op, stack[n - 2], stack[n - 1])))
            } else {
                Err(ErrorView::MissingOperand)
            }
        } else {
            Err(ErrorView::InvalidToken("apply_op"@))
        },
    }
}

/// The node that a binary operator makes of its operands.
pub open spec fn binary_node(op: TokenView, a: ExprView, b: ExprView) -> ExprView {
    match op {
        TokenView::Plus => ExprView::Add(seq![a, b]),
        TokenView::Minus => ExprView::Sub(Box::new(a), Box::new(b)),
        TokenView::Star => ExprView::Mul(seq![a, b]),
        TokenView::Slash => ExprView::Div(Box::new(a), Box::new(b)),
        _ => ExprView::Pow(Box::new(a), Box::new(b)),
    }
}

/// The parser's two stacks.
pub struct Stacks {
    pub exprs: Seq<ExprView>,
    pub ops: Seq<TokenView>,
}

/// Applies pending operators, topmost first, for as long as the top binds at
/// least as tightly as `op`.
pub open spec fn reduce(stacks: Stacks, op: TokenView) -> Result<Stacks, ErrorView>
    decreases stacks.ops.len(),
{
    if stacks.ops.len() > 0 && precedence_of(stacks.ops.last()) >= precedence_of(op) {
        match apply(stacks.ops.last(), stacks.exprs) {
            Ok(exprs) => reduce(Stacks { exprs, ops: stacks.ops.drop_last() }, op),
            Err(e) => Err(e),
        }
    } else {
        Ok(stacks)
    }
}

/// Applies pending operators down to the nearest `(`, which is dropped; all
/// of them where there is no `(`.
pub open spec fn close(stacks: Stacks) -> Result<Stacks, ErrorView>
    decreases stacks.ops.len(),
{
    if stacks.ops.len() == 0 {
        Ok(stacks)
    } else if stacks.ops.last() is LParen {
        Ok(Stacks { exprs: stacks.exprs, ops: stacks.ops.drop_last() })
    } else {
        match apply(stacks.ops.last(), stacks.exprs) {
            Ok(exprs) => close(Stacks { exprs, ops: stacks.ops.drop_last() }),
            Err(e) => Err(e),
        }
    }
}

/// The detail of the error for a token that no rule accepts.
pub open spec fn unexpected_detail(token: TokenView) -> Seq<char> {
    match token {
        TokenView::PlusEqual => "Unexpected token PlusEqual in expression"@,
        TokenView::MinusEqual => "Unexpected token MinusEqual in expression"@,
        TokenView::StarEqual => "Unexpected token StarEqual in expression"@,
        TokenView::SlashEqual => "Unexpected token SlashEqual in expression"@,
        TokenView::Equal => "Unexpected token Equal in expression"@,
        TokenView::Assign => "Unexpected token Assign in expression"@,
        TokenView::UnaryMinus => "Unexpected token UnaryMinus in expression"@,
        _ => "Unexpected token in expression"@,
    }
}

/// The stacks after one token, which follows `prev`.
pub open spec fn step(stacks: Stacks, prev: Option<TokenView>, token: TokenView) -> Result<
    Stacks,
    ErrorView,
> {
    match token {
        TokenView::Number(n) => Ok(
            Stacks { exprs: stacks.exprs.push(ExprView::Number(n)), ops: stacks.ops },
        ),
        TokenView::Var(name) => Ok(
            Stacks { exprs: stacks.exprs.push(ExprView::Var(name)), ops: stacks.ops },
        ),
        _ => if is_unary_position(prev, token) {
            Ok(Stacks { exprs: stacks.exprs, ops: stacks.ops.push(TokenView::UnaryMinus) })
        } else if is_binary_operator(token) {
            match reduce(stacks, token) {
                Ok(reduced) => Ok(Stacks { exprs: reduced.exprs, ops: reduced.ops.push(token) }),
                Err(e) => Err(e),
            }
        } else if token is LParen {
            Ok(Stacks { exprs: stacks.exprs, ops: stacks.ops.push(TokenView::LParen) })
        } else if token is RParen {
            close(stacks)
        } else {
            Err(ErrorView::InvalidToken(unexpected_detail(token)))
        },
    }
}

/// The token before position `at`, if there is one.
pub open spec fn token_before(tokens: Seq<TokenView>, at: int) -> Option<TokenView> {
    if 0 < at <= tokens.len() {
        Some(tokens[at - 1])
    } else {
        None
    }
}

/// The stacks after the tokens from position `from` on, or the first error.
pub open spec fn run(tokens: Seq<TokenView>, from: int, stacks: Stacks) -> Result<Stacks, ErrorView>
    decreases tokens.len() - from,
{
    if 0 <= from < tokens.len() {
        match step(stacks, token_before(tokens, from), tokens[from]) {
            Ok(next) => run(tokens, from + 1, next),
            Err(e) => Err(e),
        }
    } else {
        Ok(stacks)
    }
}

/// Applies every pending operator at the end of the input. A `(` that is
/// still pending was never closed.
pub open spec fn drain(stacks: Stacks) -> Result<Seq<ExprView>, ErrorView>
    decreases stacks.ops.len(),
{
    if stacks.ops.len() == 0 {
        Ok(stacks.exprs)
    } else if stacks.ops.last() is LParen || stacks.ops.last() is RParen {
        Err(ErrorView::InvalidExpression("Mismatched parentheses"@))
    } else {
        match apply(stacks.ops.last(), stacks.exprs) {
            Ok(exprs) => drain(Stacks { exprs, ops: stacks.ops.drop_last() }),
            Err(e) => Err(e),
        }
    }
}

/// The one expression that must be left when everything has been applied.
pub open spec fn single(exprs: Seq<ExprView>) -> Result<ExprView, ErrorView> {
    if exprs.len() > 1 {
        Err(ErrorView::InvalidExpression("too many operands"@))
    } else if exprs.len() == 0 {
        Err(ErrorView::EmptyExpression)
    } else {
        Ok(exprs[0])
    }
}

/// The tree that a token sequence stands for, or why it stands for none.
pub open spec fn parse(tokens: Seq<TokenView>) -> Result<ExprView, ErrorView> {
    match run(tokens, 0, Stacks { exprs: Seq::empty(), ops: Seq::empty() }) {
        Ok(stacks) => match drain(stacks) {
            Ok(exprs) => single(exprs),
            Err(e) => Err(e),
        },
        Err(e) => Err(e),
    }
}

/// A number or a name.
pub open spec fn is_operand(token: TokenView) -> bool {
    token is Number || token is Var
}

/// The leaf that an operand token stands for.
pub open spec fn operand(token: TokenView) -> ExprView {
    match token {
        TokenView::Var(name) => ExprView::Var(name),
        TokenView::Number(n) => ExprView::Number(n),
        _ => ExprView::Number(0),
    }
}

/// The stacks after an operand.
proof fn lemma_step_operand(stacks: Stacks, prev: Option<TokenView>, token: TokenView)
    requires
        is_operand(token),
    ensures
        step(stacks, prev, token) == Ok::<Stacks, ErrorView>(
            Stacks { exprs: stacks.exprs.push(operand(token)), ops: stacks.ops },
        ),
{
}

/// Multiplication binds tighter than addition: `x + y * z` is the sum of `x`
/// and the product of `y` and `z`.
pub proof fn lemma_product_binds_tighter(x: TokenView, y: TokenView, z: TokenView)
    requires
        is_operand(x),
        is_operand(y),
        is_operand(z),
    ensures
        parse(seq![x, TokenView::Plus, y, TokenView::Star, z]) == Ok::<ExprView, ErrorView>(
            ExprView::Add(seq![operand(x), ExprView::Mul(seq![operand(y), operand(z)])]),
        ),
{
    let tokens = seq![x, TokenView::Plus, y, TokenView::Star, z];
    let (a, b, c) = (operand(x), operand(y), operand(z));
    let s0 = Stacks { exprs: Seq::empty(), ops: Seq::empty() };
    let s1 = Stacks { exprs: seq![a], ops: Seq::empty() };
    let s2 = Stacks { exprs: seq![a], ops: seq![TokenView::Plus] };
    let s3 = Stacks { exprs: seq![a, b], ops: seq![TokenView::Plus] };
    let s4 = Stacks { exprs: seq![a, b], ops: seq![TokenView::Plus, TokenView::Star] };
    let s5 = Stacks { exprs: seq![a, b, c], ops: seq![TokenView::Plus, TokenView::Star] };
    reveal_with_fuel(run, 6);
    reveal_with_fuel(drain, 3);
    assert(step(s0, None, tokens[0]) == Ok::<Stacks, ErrorView>(s1)) by {
        lemma_step_operand(s0, None, x);
        assert(s0.exprs.push(a) =~= s1.exprs);
    }
    assert(step(s1, Some(tokens[0]), tokens[1]) == Ok::<Stacks, ErrorView>(s2)) by {
        assert(s1.ops.push(TokenView::Plus) =~= s2.ops);
    }
    assert(step(s2, Some(tokens[1]), tokens[2]) == Ok::<Stacks, ErrorView>(s3)) by {
        lemma_step_operand(s2, Some(tokens[1]), y);
        assert(s2.exprs.push(b) =~= s3.exprs);
    }
    assert(step(s3, Some(tokens[2]), tokens[3]) == Ok::<Stacks, ErrorView>(s4)) by {
        assert(s3.ops.push(TokenView::Star) =~= s4.ops);
    }
    assert(step(s4, Some(tokens[3]), tokens[4]) == Ok::<Stacks, ErrorView>(s5)) by {
        lemma_step_operand(s4, Some(tokens[3]), z);
        assert(s4.exprs.push(c) =~= s5.exprs);
    }
    assert(run(tokens, 0, s0) == Ok::<Stacks, ErrorView>(s5));
    let product = ExprView::Mul(seq![b, c]);
    let sum = ExprView::Add(seq![a, product]);
    let s6 = Stacks { exprs: seq![a, product], ops: seq![TokenView::Plus] };
    let s7 = Stacks { exprs: seq![sum], ops: Seq::empty() };
    assert(apply(TokenView::Star, s5.exprs) == Ok::<Seq<ExprView>, ErrorView>(s6.exprs)) by {
        assert(s5.exprs.take(1).push(product) =~= s6.exprs);
    }
    assert(s5.ops.drop_last() =~= s6.ops);
    assert(apply(TokenView::Plus, s6.exprs) == Ok::<Seq<ExprView>, ErrorView>(s7.exprs)) by {
        assert(s6.exprs.take(0).push(sum) =~= s7.exprs);
    }
    assert(s6.ops.drop_last() =~= s7.ops);
    assert(drain(s5) == Ok::<Seq<ExprView>, ErrorView>(seq![sum]));
}

/// Parentheses group: `(x + y) * z` is the product of the sum of `x` and `y`
/// and `z`.
pub proof fn lemma_parentheses_group(x: TokenView, y: TokenView, z: TokenView)
    requires
        is_operand(x),
        is_operand(y),
        is_operand(z),
    ensures
        parse(
            seq![
                TokenView::LParen,
                x,
                TokenView::Plus,
                y,
                TokenView::RParen,
                TokenView::Star,
                z,
            ],
        ) == Ok::<ExprView, ErrorView>(
            ExprView::Mul(seq![ExprView::Add(seq![operand(x), operand(y)]), operand(z)]),
        ),
{
    let tokens = seq![
        TokenView::LParen,
        x,
        TokenView::Plus,
        y,
        TokenView::RParen,
        TokenView::Star,
        z,
    ];
    let (a, b, c) = (operand(x), operand(y), operand(z));
    let sum = ExprView::Add(seq![a, b]);
    let product = ExprView::Mul(seq![sum, c]);
    let open = TokenView::LParen;
    let s0 = Stacks { exprs: Seq::empty(), ops: Seq::empty() };
    let s1 = Stacks { exprs: Seq::empty(), ops: seq![open] };
    let s2 = Stacks { exprs: seq![a], ops: seq![open] };
    let s3 = Stacks { exprs: seq![a], ops: seq![open, TokenView::Plus] };
    let s4 = Stacks { exprs: seq![a, b], ops: seq![open, TokenView::Plus] };
    let s4b = Stacks { exprs: seq![sum], ops: seq![open] };
    let s5 = Stacks { exprs: seq![sum], ops: Seq::empty() };
    let s6 = Stacks { exprs: seq![sum], ops: seq![TokenView::Star] };
    let s7 = Stacks { exprs: seq![sum, c], ops: seq![TokenView::Star] };
    reveal_with_fuel(run, 8);
    reveal_with_fuel(drain, 2);
    reveal_with_fuel(close, 3);
    assert(step(s0, None, tokens[0]) == Ok::<Stacks, ErrorView>(s1)) by {
        assert(s0.ops.push(open) =~= s1.ops);
    }
    assert(step(s1, Some(tokens[0]), tokens[1]) == Ok::<Stacks, ErrorView>(s2)) by {
        lemma_step_operand(s1, Some(tokens[0]), x);
        assert(s1.exprs.push(a) =~= s2.exprs);
    }
    assert(step(s2, Some(tokens[1]), tokens[2]) == Ok::<Stacks, ErrorView>(s3)) by {
        assert(s2.ops.push(TokenView::Plus) =~= s3.ops);
    }
    assert(step(s3, Some(tokens[2]), tokens[3]) == Ok::<Stacks, ErrorView>(s4)) by {
        lemma_step_operand(s3, Some(tokens[2]), y);
        assert(s3.exprs.push(b) =~= s4.exprs);
    }
    assert(step(s4, Some(tokens[3]), tokens[4]) == Ok::<Stacks, ErrorView>(s5)) by {
        assert(apply(TokenView::Plus, s4.exprs) == Ok::<Seq<ExprView>, ErrorView>(s4b.exprs)) by {
            assert(s4.exprs.take(0).push(sum) =~= s4b.exprs);
        }
        assert(s4.ops.drop_last() =~= s4b.ops);
        assert(s4b.ops.drop_last() =~= s5.ops);
        assert(close(s4b) == Ok::<Stacks, ErrorView>(s5));
    }
    assert(step(s5, Some(tokens[4]), tokens[5]) == Ok::<Stacks, ErrorView>(s6)) by {
        assert(s5.ops.push(TokenView::Star) =~= s6.ops);
    }
    assert(step(s6, Some(tokens[5]), tokens[6]) == Ok::<Stacks, ErrorView>(s7)) by {
        lemma_step_operand(s6, Some(tokens[5]), z);
        assert(s6.exprs.push(c) =~= s7.exprs);
    }
    assert(run(tokens, 0, s0) == Ok::<Stacks, ErrorView>(s7));
    assert(apply(TokenView::Star, s7.exprs) == Ok::<Seq<ExprView>, ErrorView>(seq![product])) by {
        assert(s7.exprs.take(0).push(product) =~= seq![product]);
    }
    assert(s7.ops.drop_last() =~= Seq::<TokenView>::empty());
    assert(drain(s7) == Ok::<Seq<ExprView>, ErrorView>(seq![product]));
}

/// A power binds tighter than the minus before it: `-x ^ y` is the negation
/// of `x` to the `y`.
pub proof fn lemma_power_binds_tighter_than_negation(x: TokenView, y: TokenView)
    requires
        is_operand(x),
        is_operand(y),
    ensures
        parse(seq![TokenView::Minus, x, TokenView::Power, y]) == Ok::<ExprView, ErrorView>(
            ExprView::Neg(Box::new(ExprView::Pow(Box::new(operand(x)), Box::new(operand(y))))),
        ),
{
    let tokens = seq![TokenView::Minus, x, TokenView::Power, y];
    let (a, b) = (operand(x), operand(y));
    let power = ExprView::Pow(Box::new(a), Box::new(b));
    let negation = ExprView::Neg(Box::new(power));
    let minus = TokenView::UnaryMinus;
    let s0 = Stacks { exprs: Seq::empty(), ops: Seq::empty() };
    let s1 = Stacks { exprs: Seq::empty(), ops: seq![minus] };
    let s2 = Stacks { exprs: seq![a], ops: seq![minus] };
    let s3 = Stacks { exprs: seq![a], ops: seq![minus, TokenView::Power] };
    let s4 = Stacks { exprs: seq![a, b], ops: seq![minus, TokenView::Power] };
    let s5 = Stacks { exprs: seq![power], ops: seq![minus] };
    reveal_with_fuel(run, 5);
    reveal_with_fuel(drain, 3);
    assert(step(s0, None, tokens[0]) == Ok::<Stacks, ErrorView>(s1)) by {
        assert(s0.ops.push(minus) =~= s1.ops);
    }
    assert(step(s1, Some(tokens[0]), tokens[1]) == Ok::<Stacks, ErrorView>(s2)) by {
        lemma_step_operand(s1, Some(tokens[0]), x);
        assert(s1.exprs.push(a) =~= s2.exprs);
    }
    assert(step(s2, Some(tokens[1]), tokens[2]) == Ok::<Stacks, ErrorView>(s3)) by {
        assert(s2.ops.push(TokenView::Power) =~= s3.ops);
    }
    assert(step(s3, Some(tokens[2]), tokens[3]) == Ok::<Stacks, ErrorView>(s4)) by {
        lemma_step_operand(s3, Some(tokens[2]), y);
        assert(s3.exprs.push(b) =~= s4.exprs);
    }
    assert(run(tokens, 0, s0) == Ok::<Stacks, ErrorView>(s4));
    assert(apply(TokenView::Power, s4.exprs) == Ok::<Seq<ExprView>, ErrorView>(s5.exprs)) by {
        assert(s4.exprs.take(0).push(power) =~= s5.exprs);
    }
    assert(s4.ops.drop_last() =~= s5.ops);
    assert(apply(minus, s5.exprs) == Ok::<Seq<ExprView>, ErrorView>(seq![negation])) by {
        assert(s5.exprs.take(0).push(negation) =~= seq![negation]);
    }
    assert(s5.ops.drop_last() =~= Seq::<TokenView>::empty());
    assert(drain(s4) == Ok::<Seq<ExprView>, ErrorView>(seq![negation]));
}

/// The leaves of a tree, from left to right.
pub open spec fn leaves(e: ExprView) -> Seq<ExprView>
    decreases e, 0nat,
{
    match e {
        ExprView::Add(terms) => leaves_of(terms, terms.len()),
        ExprView::Mul(factors) => leaves_of(factors, factors.len()),
        ExprView::Sub(a, b) => leaves(*a) + leaves(*b),
        ExprView::Div(a, b) => leaves(*a) + leaves(*b),
        ExprView::Pow(a, b) => leaves(*a) + leaves(*b),
        ExprView::Neg(a) => leaves(*a),
        _ => seq![e],
    }
}

/// The leaves of the first `n` of `trees`, from left to right.
pub open spec fn leaves_of(trees: Seq<ExprView>, n: nat) -> Seq<ExprView>
    decreases trees, n,
{
    if 0 < n <= trees.len() {
        leaves_of(trees, (n - 1) as nat) + leaves(trees[n - 1])
    } else {
        Seq::empty()
    }
}

/// The leaves of all of `trees`.
pub open spec fn all_leaves(trees: Seq<ExprView>) -> Seq<ExprView> {
    leaves_of(trees, trees.len())
}

/// The leaves that the operands among the first `n` tokens stand for.
pub open spec fn operands(tokens: Seq<TokenView>, n: nat) -> Seq<ExprView>
    decreases n,
{
    if 0 < n <= tokens.len() {
        if is_operand(tokens[n - 1]) {
            operands(tokens, (n - 1) as nat).push(operand(tokens[n - 1]))
        } else {
            operands(tokens, (n - 1) as nat)
        }
    } else {
        Seq::empty()
    }
}

/// The leaves of the first trees do not depend on what follows them.
proof fn lemma_leaves_of_front(trees: Seq<ExprView>, others: Seq<ExprView>, n: nat)
    requires
        n <= trees.len(),
        n <= others.len(),
        forall|i: int| 0 <= i < n ==> trees[i] == others[i],
    ensures
        leaves_of(trees, n) == leaves_of(others, n),
    decreases n,
{
    if n > 0 {
        lemma_leaves_of_front(trees, others, (n - 1) as nat);
    }
}

/// The leaves of a stack with one more tree on top.
proof fn lemma_leaves_push(trees: Seq<ExprView>, tree: ExprView)
    ensures
        all_leaves(trees.push(tree)) == all_leaves(trees) + leaves(tree),
{
    lemma_leaves_of_front(trees.push(tree), trees, trees.len());
    assert(trees.push(tree)[trees.len() as int] == tree);
}

/// The leaves of a stack, told from those below its top `k` trees.
proof fn lemma_leaves_of_top(trees: Seq<ExprView>, k: nat)
    requires
        k <= trees.len(),
    ensures
        leaves_of(trees.take(trees.len() - k), (trees.len() - k) as nat) == leaves_of(
            trees,
            (trees.len() - k) as nat,
        ),
{
    lemma_leaves_of_front(trees.take(trees.len() - k), trees, (trees.len() - k) as nat);
}

/// Applying an operator keeps the leaves of the expression stack.
pub proof fn lemma_apply_keeps_leaves(op: TokenView, stack: Seq<ExprView>)
    ensures
        apply(op, stack) matches Ok(after) ==> all_leaves(after) == all_leaves(stack),
{
    let n = stack.len() as int;
    match apply(op, stack) {
        Ok(after) => {
            if op is UnaryMinus {
                let node = ExprView::Neg(Box::new(stack[n - 1]));
                lemma_leaves_of_top(stack, 1);
                lemma_leaves_push(stack.take(n - 1), node);
            } else {
                let a = stack[n - 2];
                let b = stack[n - 1];
                let node = binary_node(op, a, b);
                lemma_leaves_of_top(stack, 2);
                lemma_leaves_push(stack.take(n - 2), node);
                let both = seq![a, b];
                assert(leaves_of(both, 0) =~= Seq::<ExprView>::empty());
                assert(leaves_of(both, 1) =~= leaves(a));
                assert(leaves_of(both, 2) =~= leaves(a) + leaves(b));
                assert(leaves(node) == leaves(a) + leaves(b));
                assert(leaves_of(stack, (n - 1) as nat) == leaves_of(stack, (n - 2) as nat)
                    + leaves(a));
                assert(all_leaves(after) =~= all_leaves(stack));
            }
        },
        Err(_) => {},
    }
}

/// Reducing keeps the leaves of the expression stack.
proof fn lemma_reduce_keeps_leaves(stacks: Stacks, op: TokenView)
    ensures
        reduce(stacks, op) matches Ok(after) ==> all_leaves(after.exprs) == all_leaves(
            stacks.exprs,
        ),
    decreases stacks.ops.len(),
{
    if stacks.ops.len() > 0 && precedence_of(stacks.ops.last()) >= precedence_of(op) {
        lemma_apply_keeps_leaves(stacks.ops.last(), stacks.exprs);
        if let Ok(exprs) = apply(stacks.ops.last(), stacks.exprs) {
            lemma_reduce_keeps_leaves(Stacks { exprs, ops: stacks.ops.drop_last() }, op);
        }
    }
}

/// Closing a parenthesis keeps the leaves of the expression stack.
proof fn lemma_close_keeps_leaves(stacks: Stacks)
    ensures
        close(stacks) matches Ok(after) ==> all_leaves(after.exprs) == all_leaves(stacks.exprs),
    decreases stacks.ops.len(),
{
    if stacks.ops.len() > 0 && !(stacks.ops.last() is LParen) {
        lemma_apply_keeps_leaves(stacks.ops.last(), stacks.exprs);
        if let Ok(exprs) = apply(stacks.ops.last(), stacks.exprs) {
            lemma_close_keeps_leaves(Stacks { exprs, ops: stacks.ops.drop_last() });
        }
    }
}

/// Applying what is pending at the end keeps the leaves of the expression
/// stack.
proof fn lemma_drain_keeps_leaves(stacks: Stacks)
    ensures
        drain(stacks) matches Ok(exprs) ==> all_leaves(exprs) == all_leaves(stacks.exprs),
    decreases stacks.ops.len(),
{
    if stacks.ops.len() > 0 && !(stacks.ops.last() is LParen || stacks.ops.last() is RParen) {
        lemma_apply_keeps_leaves(stacks.ops.last(), stacks.exprs);
        if let Ok(exprs) = apply(stacks.ops.last(), stacks.exprs) {
            lemma_drain_keeps_leaves(Stacks { exprs, ops: stacks.ops.drop_last() });
        }
    }
}

/// One token adds its leaf to the leaves of the expression stack, if it is
/// an operand, and nothing otherwise.
proof fn lemma_step_leaves(stacks: Stacks, prev: Option<TokenView>, token: TokenView)
    ensures
        step(stacks, prev, token) matches Ok(after) ==> all_leaves(after.exprs) == if is_operand(
            token,
        ) {
            all_leaves(stacks.exprs).push(operand(token))
        } else {
            all_leaves(stacks.exprs)
        },
{
    if is_operand(token) {
        lemma_leaves_push(stacks.exprs, operand(token));
        assert(all_leaves(stacks.exprs) + seq![operand(token)] =~= all_leaves(stacks.exprs).push(
            operand(token),
        ));
    } else {
        lemma_reduce_keeps_leaves(stacks, token);
        lemma_close_keeps_leaves(stacks);
    }
}

/// The tokens from `from` on add the leaves of their operands to those of
/// the expression stack.
proof fn lemma_run_leaves(tokens: Seq<TokenView>, from: int, stacks: Stacks)
    requires
        0 <= from <= tokens.len(),
        all_leaves(stacks.exprs) == operands(tokens, from as nat),
    ensures
        run(tokens, from, stacks) matches Ok(after) ==> all_leaves(after.exprs) == operands(
            tokens,
            tokens.len(),
        ),
    decreases tokens.len() - from,
{
    if from < tokens.len() {
        lemma_step_leaves(stacks, token_before(tokens, from), tokens[from]);
        if let Ok(next) = step(stacks, token_before(tokens, from), tokens[from]) {
            lemma_run_leaves(tokens, from + 1, next);
        }
    }
}

/// The tree of a token sequence has the operands of the sequence as its
/// leaves, in their order.
pub proof fn lemma_parse_keeps_leaves(tokens: Seq<TokenView>)
    ensures
        parse(tokens) matches Ok(tree) ==> leaves(tree) == operands(tokens, tokens.len()),
{
    let start = Stacks { exprs: Seq::empty(), ops: Seq::empty() };
    lemma_run_leaves(tokens, 0, start);
    if let Ok(stacks) = run(tokens, 0, start) {
        lemma_drain_keeps_leaves(stacks);
        if let Ok(exprs) = drain(stacks) {
            if exprs.len() == 1 {
                assert(leaves_of(exprs, 0) + leaves(exprs[0]) =~= leaves(exprs[0]));
            }
        }
    }
}

/// The value of what [`parse_to_ast`] returns.
pub open spec fn parsed(r: Result<Expr, CalcError>) -> Result<ExprView, ErrorView> {
    match r {
        Ok(expr) => Ok(expr@),
        Err(e) => Err(e@),
    }
}

/// The value of the token before the current one, as the parser holds it.
pub open spec fn prev_view(prev: Option<&Token>) -> Option<TokenView> {
    match prev {
        Some(token) => Some(token@),
        None => None,
    }
}

/// The two stacks as the parser holds them.
pub open spec fn stacks_of(exprs: Seq<Expr>, ops: Seq<Token>) -> Stacks {
    Stacks { exprs: expr_views(exprs), ops: token_views(ops) }
}

/// Pushing a tree pushes its value.
pub proof fn lemma_expr_views_push(exprs: Seq<Expr>, expr: Expr)
    ensures
        expr_views(exprs.push(expr)) == expr_views(exprs).push(expr@),
{
}

/// How tightly an operator binds: 1 for `+ -`, 2 for `* /`, 3 for unary
/// minus, 4 for `^`, and 0 for what is no operator.
pub fn precedence(token: &Token) -> (r: i32)
    ensures
        r == precedence_of(token@),
{
    match token {
        Token::Plus | Token::Minus => 1,
        Token::Star | Token::Slash => 2,
        Token::UnaryMinus => 3,
        Token::Power => 4,
        _ => 0,
    }
}

/// Whether the token is one of `+ - * / ^`.
pub fn is_operator(token: &Token) -> (r: bool)
    ensures
        r == is_binary_operator(token@),
{
    match token {
        Token::Plus | Token::Minus | Token::Star | Token::Slash | Token::Power => true,
        _ => false,
    }
}

/// Whether `current` is a minus that negates: a `-` at the start of the
/// input, or after `(`, or after one of `+ - * / ^`.
pub fn is_unary(prev: Option<&Token>, current: &Token) -> (r: bool)
    ensures
        r == is_unary_position(prev_view(prev), current@),
{
    match current {
        Token::Minus => match prev {
            None => true,
            Some(token) => match token {
                Token::LParen => true,
                _ => is_operator(token),
            },
        },
        _ => false,
    }
}

/// Takes the top of the expression stack, if there is one.
fn pop_operand(stack: &mut Vec<Expr>) -> (r: Result<Expr, CalcError>)
    ensures
        match r {
            Ok(expr) => old(stack)@.len() > 0 && expr == old(stack)@.last() && final(stack)@ == old(
                stack,
            )@.drop_last(),
            Err(e) => old(stack)@.len() == 0 && final(stack)@.len() == 0 && e@
                == ErrorView::MissingOperand,
        },
{
    match stack.pop() {
        Some(expr) => Ok(expr),
        None => Err(CalcError::MissingOperand),
    }
}

/// A list of two trees.
fn pair(a: Expr, b: Expr) -> (r: Vec<Expr>)
    ensures
        expr_views(r@) == seq![a@, b@],
{
    let mut terms: Vec<Expr> = Vec::new();
    terms.push(a);
    terms.push(b);
    terms
}

/// Applies one operator to the expression stack: its operands leave the top,
/// the second operand first, and the node they make takes their place.
///
/// With too few operands the result is `MissingOperand` and the stack is left
/// empty. Any token but `+ - * / ^` and unary minus is `InvalidToken`, and the
/// stack is untouched.
pub fn apply_op(op: Token, stack: &mut Vec<Expr>) -> (r: Result<(), CalcError>)
    ensures
        match apply(op@, expr_views(old(stack)@)) {
            Ok(after) => r is Ok && expr_views(final(stack)@) == after,
            Err(e) => r is Err && r->Err_0@ == e && (e is MissingOperand ==> final(stack)@.len()
                == 0) && (e is InvalidToken ==> final(stack)@ == old(stack)@),
        },
{
    match op {
        Token::UnaryMinus => {
            let a = match pop_operand(stack) {
                Ok(expr) => expr,
                Err(e) => {
                    return Err(e);
                },
            };
            stack.push(Expr::Neg(Box::new(a)));
            Ok(())
        },
        Token::Plus | Token::Minus | Token::Star | Token::Slash | Token::Power => {
            let b = match pop_operand(stack) {
                Ok(expr) => expr,
                Err(e) => {
                    return Err(e);
                },
            };
            let a = match pop_operand(stack) {
                Ok(expr) => expr,
                Err(e) => {
                    return Err(e);
                },
            };
            let node = match op {
                Token::Plus => Expr::Add(pair(a, b)),
                Token::Minus => Expr::Sub(Box::new(a), Box::new(b)),
                Token::Star => Expr::Mul(pair(a, b)),
                Token::Slash => Expr::Div(Box::new(a), Box::new(b)),
                _ => Expr::Pow(Box::new(a), Box::new(b)),
            };
            stack.push(node);
            Ok(())
        },
        _ => Err(CalcError::InvalidToken("apply_op".to_string())),
    }
}

/// Pushing a token pushes its value.
pub proof fn lemma_token_views_push(tokens: Seq<Token>, token: Token)
    ensures
        token_views(tokens.push(token)) == token_views(tokens).push(token@),
{
}

/// Dropping the last token drops the last value.
pub proof fn lemma_token_views_drop_last(tokens: Seq<Token>)
    requires
        tokens.len() > 0,
    ensures
        token_views(tokens.drop_last()) == token_views(tokens).drop_last(),
        token_views(tokens).last() == tokens.last()@,
{
}

/// The detail of the error for a token that no rule accepts.
fn unexpected_token(token: &Token) -> (r: String)
    ensures
        r@ == unexpected_detail(token@),
{
    match token {
        Token::PlusEqual => "Unexpected token PlusEqual in expression".to_string(),
        Token::MinusEqual => "Unexpected token MinusEqual in expression".to_string(),
        Token::StarEqual => "Unexpected token StarEqual in expression".to_string(),
        Token::SlashEqual => "Unexpected token SlashEqual in expression".to_string(),
        Token::Equal => "Unexpected token Equal in expression".to_string(),
        Token::Assign => "Unexpected token Assign in expression".to_string(),
        Token::UnaryMinus => "Unexpected token UnaryMinus in expression".to_string(),
        _ => "Unexpected token in expression".to_string(),
    }
}

/// Applies the pending operators that bind at least as tightly as `token`.
fn reduce_pending(exprs: &mut Vec<Expr>, ops: &mut Vec<Token>, token: &Token) -> (r: Result<
    (),
    CalcError,
>)
    ensures
        match reduce(stacks_of(old(exprs)@, old(ops)@), token@) {
            Ok(stacks) => r is Ok && stacks_of(final(exprs)@, final(ops)@) == stacks,
            Err(e) => r is Err && r->Err_0@ == e,
        },
{
    while ops.len() > 0 && precedence(&ops[ops.len() - 1]) >= precedence(token)
        invariant
            reduce(stacks_of(old(exprs)@, old(ops)@), token@) == reduce(
                stacks_of(exprs@, ops@),
                token@,
            ),
        decreases ops.len(),
    {
        proof {
            lemma_token_views_drop_last(ops@);
        }
        let op = ops.pop().unwrap();
        match apply_op(op, exprs) {
            Ok(()) => {},
            Err(e) => {
                return Err(e);
            },
        }
    }
    Ok(())
}

/// Applies the pending operators down to the nearest `(` and drops it.
fn close_paren(exprs: &mut Vec<Expr>, ops: &mut Vec<Token>) -> (r: Result<(), CalcError>)
    ensures
        match close(stacks_of(old(exprs)@, old(ops)@)) {
            Ok(stacks) => r is Ok && stacks_of(final(exprs)@, final(ops)@) == stacks,
            Err(e) => r is Err && r->Err_0@ == e,
        },
{
    while ops.len() > 0
        invariant
            close(stacks_of(old(exprs)@, old(ops)@)) == close(stacks_of(exprs@, ops@)),
        decreases ops.len(),
    {
        proof {
            lemma_token_views_drop_last(ops@);
        }
        let op = ops.pop().unwrap();
        match op {
            Token::LParen => {
                return Ok(());
            },
            _ => {},
        }
        match apply_op(op, exprs) {
            Ok(()) => {},
            Err(e) => {
                return Err(e);
            },
        }
    }
    Ok(())
}

/// Applies every pending operator; a pending parenthesis is an error.
fn drain_pending(exprs: &mut Vec<Expr>, ops: &mut Vec<Token>) -> (r: Result<(), CalcError>)
    ensures
        match drain(stacks_of(old(exprs)@, old(ops)@)) {
            Ok(left) => r is Ok && expr_views(final(exprs)@) == left,
            Err(e) => r is Err && r->Err_0@ == e,
        },
{
    while ops.len() > 0
        invariant
            drain(stacks_of(old(exprs)@, old(ops)@)) == drain(stacks_of(exprs@, ops@)),
        decreases ops.len(),
    {
        proof {
            lemma_token_views_drop_last(ops@);
        }
        let op = ops.pop().unwrap();
        match op {
            Token::LParen | Token::RParen => {
                return Err(CalcError::InvalidExpression("Mismatched parentheses".to_string()));
            },
            _ => {},
        }
        match apply_op(op, exprs) {
            Ok(()) => {},
            Err(e) => {
                return Err(e);
            },
        }
    }
    Ok(())
}

/// Builds the expression tree of a token sequence.
///
/// The result is the tree that [`parse`] defines. The errors, in the order in
/// which the input is read: `InvalidToken` for a token that cannot stand in an
/// expression, `MissingOperand` for an operator applied to too few operands,
/// and at the end `InvalidExpression` for a `(` that was never closed or for
/// more than one expression left over, `EmptyExpression` for none. A `)`
/// without its `(` applies what is pending and is otherwise ignored. The
/// leaves of the tree are the numbers and names among the tokens, in their
/// order.
pub fn parse_to_ast(tokens: &Vec<Token>) -> (r: Result<Expr, CalcError>)
    ensures
        parsed(r) == parse(token_views(tokens@)),
        r matches Ok(tree) ==> leaves(tree@) == operands(token_views(tokens@), tokens@.len()),
{
    proof {
        lemma_parse_keeps_leaves(token_views(tokens@));
    }
    let mut exprs: Vec<Expr> = Vec::new();
    let mut ops: Vec<Token> = Vec::new();
    let ghost all = token_views(tokens@);
    let ghost start = Stacks { exprs: Seq::empty(), ops: Seq::empty() };
    assert(stacks_of(exprs@, ops@) == start) by {
        assert(expr_views(exprs@) =~= Seq::<ExprView>::empty());
        assert(token_views(ops@) =~= Seq::<TokenView>::empty());
    }
    let mut i: usize = 0;
    while i < tokens.len()
        invariant
            i <= tokens.len(),
            all == token_views(tokens@),
            start == (Stacks { exprs: Seq::empty(), ops: Seq::empty() }),
            run(all, 0, start) == run(all, i as int, stacks_of(exprs@, ops@)),
        decreases tokens.len() - i,
    {
        let token = &tokens[i];
        let prev = if i == 0 {
            None
        } else {
            Some(&tokens[i - 1])
        };
        match token {
            Token::Number(n) => {
                proof {
                    lemma_expr_views_push(exprs@, Expr::Number(*n));
                }
                exprs.push(Expr::Number(*n));
            },
            Token::Var(name) => {
                let var = Expr::Var(name.clone());
                proof {
                    lemma_expr_views_push(exprs@, var);
                }
                exprs.push(var);
            },
            _ => {
                if is_unary(prev, token) {
                    proof {
                        lemma_token_views_push(ops@, Token::UnaryMinus);
                    }
                    ops.push(Token::UnaryMinus);
                } else if is_operator(token) {
                    match reduce_pending(&mut exprs, &mut ops, token) {
                        Ok(()) => {},
                        Err(e) => {
                            return Err(e);
                        },
                    }
                    let op = token.clone();
                    proof {
                        lemma_token_views_push(ops@, op);
                    }
                    ops.push(op);
                } else {
                    match token {
                        Token::LParen => {
                            proof {
                                lemma_token_views_push(ops@, Token::LParen);
                            }
                            ops.push(Token::LParen);
                        },
                        Token::RParen => {
                            match close_paren(&mut exprs, &mut ops) {
                                Ok(()) => {},
                                Err(e) => {
                                    return Err(e);
                                },
                            }
                        },
                        _ => {
                            return Err(CalcError::InvalidToken(unexpected_token(token)));
                        },
                    }
                }
            },
        }
        i = i + 1;
    }
    match drain_pending(&mut exprs, &mut ops) {
        Ok(()) => {},
        Err(e) => {
            return Err(e);
        },
    }
    if exprs.len() > 1 {
        return Err(CalcError::InvalidExpression("too many operands".to_string()));
    } else if exprs.len() == 0 {
        return Err(CalcError::EmptyExpression);
    }
    Ok(exprs.pop().unwrap())
}

} // verus!
