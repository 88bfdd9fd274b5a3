//! The session: one line of input at a time, against variables that persist
//! from line to line.
//!
//! A line is an expression, a comparison `left == right`, an assignment
//! `name = expression`, or a compound assignment with one of `+= -= *= /=`.
//! The first of these six tokens in the line decides, and splits it in two.

use crate::environment::Environment;
use crate::errors::{CalcError, ErrorView};
use crate::evaluator::{
    eval_ast, evaluation, evaluated, lemma_evaluation_stops_rightly, names, Halt, HaltView,
};
use crate::lexer::{lex, token_views, tokenize, Token, TokenView};
use crate::number::{float_eq, numbers_equal};
use crate::parser::{
    expr_views, lemma_token_views_push, parse, parse_to_ast, Expr, ExprView,
};
use crate::powers::PowerTable;
use vstd::prelude::*;

verus! {

/// What a line evaluates to.
#[derive(Debug, PartialEq)]
pub enum Value {
    /// A number, as a binary64 bit pattern.
    Number(u64),
    /// A normalized tree that still holds free symbols or open powers.
    Expression(Expr),
    /// The outcome of a comparison.
    Bool(bool),
}

/// The mathematical value of a [`Value`].
pub enum ValueView {
    Number(u64),
    Expression(ExprView),
    Bool(bool),
}

impl View for Value {
    type V = ValueView;

    open spec fn view(&self) -> ValueView {
        match self {
            Value::Number(n) => ValueView::Number(*n),
            Value::Expression(e) => ValueView::Expression(e@),
            Value::Bool(b) => ValueView::Bool(*b),
        }
    }
}

impl Clone for Value {
    fn clone(&self) -> (r: Value)
        ensures
            r@ == self@,
    {
        match self {
            Value::Number(n) => Value::Number(*n),
            Value::Expression(e) => Value::Expression(e.clone()),
            Value::Bool(b) => Value::Bool(*b),
        }
    }
}

/// What a line does, as its first control token tells.
#[derive(Debug, Clone, Copy, PartialEq, Eq)]
pub enum LineKind {
    /// No control token: an expression to evaluate.
    Plain,
    /// `==`: a comparison.
    Equal,
    /// `=`: an assignment.
    Assign,
    /// `+=`
    CompoundAdd,
    /// `-=`
    CompoundSub,
    /// `*=`
    CompoundMul,
    /// `/=`
    CompoundDiv,
}

/// The kind of line that a token makes; `Plain` for what is no control token.
pub open spec fn kind_of(token: TokenView) -> LineKind {
    match token {
        TokenView::Equal => LineKind::Equal,
        TokenView::Assign => LineKind::Assign,
        TokenView::PlusEqual => LineKind::CompoundAdd,
        TokenView::MinusEqual => LineKind::CompoundSub,
        TokenView::StarEqual => LineKind::CompoundMul,
        TokenView::SlashEqual => LineKind::CompoundDiv,
        _ => LineKind::Plain,
    }
}

/// One of `= == += -= *= /=`.
pub open spec fn is_control(token: TokenView) -> bool {
    !(kind_of(token) is Plain)
}

/// The position of the first control token from `from` on, if there is one.
pub open spec fn first_control(tokens: Seq<TokenView>, from: int) -> Option<int>
    decreases tokens.len() - from,
{
    if 0 <= from < tokens.len() {
        if is_control(tokens[from]) {
            Some(from)
        } else {
            first_control(tokens, from + 1)
        }
    } else {
        None
    }
}

/// A bare number is a `Number`, any other tree an `Expression`.
pub open spec fn value_of(e: ExprView) -> ValueView {
    match e {
        ExprView::Number(n) => ValueView::Number(n),
        _ => ValueView::Expression(e),
    }
}

/// Two trees have the same shape, the same names and equal numbers.
pub open spec fn same_expr(a: ExprView, b: ExprView) -> bool
    decreases a,
{
    match (a, b) {
        (ExprView::Number(x), ExprView::Number(y)) => float_eq(x, y),
        (ExprView::Var(n), ExprView::Var(m)) => n == m,
        (ExprView::Add(s), ExprView::Add(t)) => s.len() == t.len() && forall|i: int|
            0 <= i < s.len() ==> same_expr(#[trigger] s[i], t[i]),
        (ExprView::Mul(s), ExprView::Mul(t)) => s.len() == t.len() && forall|i: int|
            0 <= i < s.len() ==> same_expr(#[trigger] s[i], t[i]),
        (ExprView::Sub(a1, a2), ExprView::Sub(b1, b2)) => {
            same_expr(*a1, *b1) && same_expr(*a2, *b2)
        },
        (ExprView::Div(a1, a2), ExprView::Div(b1, b2)) => {
            same_expr(*a1, *b1) && same_expr(*a2, *b2)
        },
        (ExprView::Pow(a1, a2), ExprView::Pow(b1, b2)) => {
            same_expr(*a1, *b1) && same_expr(*a2, *b2)
        },
        (ExprView::Neg(a1), ExprView::Neg(b1)) => same_expr(*a1, *b1),
        _ => false,
    }
}

/// The value of a token sequence: parsed, then evaluated while the names in
/// `visiting` count as being expanded.
pub open spec fn tree_value(
    tokens: Seq<TokenView>,
    env: Map<Seq<char>, ExprView>,
    visiting: Set<Seq<char>>,
    powers: Map<(u64, u64), u64>,
) -> Result<ExprView, HaltView> {
    match parse(tokens) {
        Ok(tree) => evaluation(tree, env, visiting, powers),
        Err(e) => Err(HaltView::Error(e)),
    }
}

/// The name that the left side of an assignment gives: it must be one
/// identifier and nothing else.
pub open spec fn target(left: Seq<TokenView>) -> Option<Seq<char>> {
    if left.len() == 1 {
        match left[0] {
            TokenView::Var(name) => Some(name),
            _ => None,
        }
    } else {
        None
    }
}

/// The tree that a compound assignment evaluates: the operator applied to
/// what the name stood for and the right side.
pub open spec fn combined(kind: LineKind, old: ExprView, new: ExprView) -> ExprView {
    match kind {
        LineKind::CompoundAdd => ExprView::Add(seq![old, new]),
        LineKind::CompoundSub => ExprView::Sub(Box::new(old), Box::new(new)),
        LineKind::CompoundMul => ExprView::Mul(seq![old, new]),
        _ => ExprView::Div(Box::new(old), Box::new(new)),
    }
}

/// What a name stands for: the expression bound to it, or itself.
pub open spec fn current(env: Map<Seq<char>, ExprView>, name: Seq<char>) -> ExprView {
    if env.contains_key(name) {
        env[name]
    } else {
        ExprView::Var(name)
    }
}

/// What a line does: its result, and the variables after it.
pub struct Outcome {
    pub result: Result<ValueView, HaltView>,
    pub env: Map<Seq<char>, ExprView>,
}

/// The detail of the error for an assignment to what is no name.
pub open spec fn no_target_detail() -> Seq<char> {
    "Cannot assign to a non variable expression"@
}

/// A comparison: both sides are parsed, then both evaluated, each on its own.
pub open spec fn compare(
    left: Seq<TokenView>,
    right: Seq<TokenView>,
    env: Map<Seq<char>, ExprView>,
    powers: Map<(u64, u64), u64>,
) -> Result<ValueView, HaltView> {
    match (parse(left), parse(right)) {
        (Err(e), _) => Err(HaltView::Error(e)),
        (Ok(_), Err(e)) => Err(HaltView::Error(e)),
        (Ok(l), Ok(r)) => match evaluation(l, env, Set::empty(), powers) {
            Err(h) => Err(h),
            Ok(lv) => match evaluation(r, env, Set::empty(), powers) {
                Err(h) => Err(h),
                Ok(rv) => Ok(ValueView::Bool(same_expr(lv, rv))),
            },
        },
    }
}

/// An assignment, plain or compound: the tree to evaluate is the right side,
/// or the operator applied to the name's current expression and the right
/// side. It is evaluated with the name counted as being expanded, and the
/// result is bound to the name.
pub open spec fn assign(
    kind: LineKind,
    left: Seq<TokenView>,
    right: Seq<TokenView>,
    env: Map<Seq<char>, ExprView>,
    powers: Map<(u64, u64), u64>,
) -> Outcome {
    match target(left) {
        None => Outcome {
            result: Err(HaltView::Error(ErrorView::InvalidExpression(no_target_detail()))),
            env,
        },
        Some(name) => match parse(right) {
            Err(e) => Outcome { result: Err(HaltView::Error(e)), env },
            Ok(tree) => {
                let whole = if kind is Assign {
                    tree
                } else {
                    combined(kind, current(env, name), tree)
                };
                match evaluation(whole, env, Set::empty().insert(name), powers) {
                    Err(h) => Outcome { result: Err(h), env },
                    Ok(value) => Outcome {
                        result: Ok(value_of(value)),
                        env: env.insert(name, value),
                    },
                }
            },
        },
    }
}

/// What a tokenized line does.
pub open spec fn run_tokens(
    tokens: Seq<TokenView>,
    env: Map<Seq<char>, ExprView>,
    powers: Map<(u64, u64), u64>,
) -> Outcome {
    match first_control(tokens, 0) {
        None => Outcome {
            result: match tree_value(tokens, env, Set::empty(), powers) {
                Ok(value) => Ok(value_of(value)),
                Err(h) => Err(h),
            },
            env,
        },
        Some(at) => {
            let left = tokens.subrange(0, at);
            let right = tokens.subrange(at + 1, tokens.len() as int);
            if left.len() == 0 || right.len() == 0 {
                Outcome { result: Err(HaltView::Error(ErrorView::EmptyExpression)), env }
            } else {
                match kind_of(tokens[at]) {
                    LineKind::Equal => Outcome { result: compare(left, right, env, powers), env },
                    kind => assign(kind, left, right, env, powers),
                }
            }
        },
    }
}

/// What a line of text does.
pub open spec fn run_line(
    line: Seq<char>,
    env: Map<Seq<char>, ExprView>,
    powers: Map<(u64, u64), u64>,
) -> Outcome {
    match lex(line) {
        Ok(tokens) => run_tokens(tokens, env, powers),
        Err(e) => Outcome { result: Err(HaltView::Error(e)), env },
    }
}

/// The line is an assignment, plain or compound.
pub open spec fn assigns(line: Seq<char>) -> bool {
    match lex(line) {
        Ok(tokens) => match first_control(tokens, 0) {
            Some(at) => !(kind_of(tokens[at]) is Equal),
            None => false,
        },
        Err(_) => false,
    }
}

/// A line that is no assignment leaves the variables as they are, and
/// evaluating it once more gives the same result.
pub proof fn lemma_evaluating_again(
    line: Seq<char>,
    env: Map<Seq<char>, ExprView>,
    powers: Map<(u64, u64), u64>,
)
    requires
        !assigns(line),
    ensures
        run_line(line, env, powers).env == env,
        run_line(line, run_line(line, env, powers).env, powers).result == run_line(
            line,
            env,
            powers,
        ).result,
{
}

/// A line that ends without a value leaves the variables as they are.
pub proof fn lemma_failure_changes_nothing(
    line: Seq<char>,
    env: Map<Seq<char>, ExprView>,
    powers: Map<(u64, u64), u64>,
)
    requires
        run_line(line, env, powers).result is Err,
    ensures
        run_line(line, env, powers).env == env,
{
}

/// A line asks only for a power that the table lacks: the caller who records
/// every power that is asked for is never asked for the same one twice.
pub proof fn lemma_power_asked_for_is_missing(
    line: Seq<char>,
    env: Map<Seq<char>, ExprView>,
    powers: Map<(u64, u64), u64>,
)
    requires
        env.dom().finite(),
    ensures
        run_line(line, env, powers).result matches Err(HaltView::NeedPower(base, exponent))
            ==> !powers.contains_key((base, exponent)),
{
    match lex(line) {
        Ok(tokens) => {
            match first_control(tokens, 0) {
                None => {
                    lemma_tree_value_stops_rightly(tokens, env, Set::empty(), powers);
                },
                Some(at) => {
                    let left = tokens.subrange(0, at);
                    let right = tokens.subrange(at + 1, tokens.len() as int);
                    if left.len() == 0 || right.len() == 0 {
                    } else if kind_of(tokens[at]) is Equal {
                        match (parse(left), parse(right)) {
                            (Ok(l), Ok(r)) => {
                                lemma_evaluation_stops_rightly(l, env, Set::empty(), powers);
                                lemma_evaluation_stops_rightly(r, env, Set::empty(), powers);
                            },
                            _ => {},
                        }
                    } else {
                        match (target(left), parse(right)) {
                            (Some(name), Ok(tree)) => {
                                let kind = kind_of(tokens[at]);
                                let whole = if kind is Assign {
                                    tree
                                } else {
                                    combined(kind, current(env, name), tree)
                                };
                                lemma_evaluation_stops_rightly(
                                    whole,
                                    env,
                                    Set::empty().insert(name),
                                    powers,
                                );
                            },
                            _ => {},
                        }
                    }
                },
            }
        },
        Err(_) => {},
    }
}

/// Where a token sequence has no value and parses, it is for a division by
/// zero or for a power that the table lacks.
proof fn lemma_tree_value_stops_rightly(
    tokens: Seq<TokenView>,
    env: Map<Seq<char>, ExprView>,
    visiting: Set<Seq<char>>,
    powers: Map<(u64, u64), u64>,
)
    requires
        env.dom().finite(),
    ensures
        tree_value(tokens, env, visiting, powers) matches Err(HaltView::NeedPower(base, exponent))
            ==> !powers.contains_key((base, exponent)),
{
    match parse(tokens) {
        Ok(tree) => {
            lemma_evaluation_stops_rightly(tree, env, visiting, powers);
        },
        Err(_) => {},
    }
}

/// The value of what [`CalculatorEngine::evaluate`] returns.
pub open spec fn returned(r: Result<Value, Halt>) -> Result<ValueView, HaltView> {
    match r {
        Ok(v) => Ok(v@),
        Err(h) => Err(h@),
    }
}

/// Whether two trees have the same shape, the same names and equal numbers.
pub fn same_tree(a: &Expr, b: &Expr) -> (r: bool)
    ensures
        r == same_expr(a@, b@),
    decreases a,
{
    match a {
        Expr::Number(x) => match b {
            Expr::Number(y) => numbers_equal(*x, *y),
            _ => false,
        },
        Expr::Var(n) => match b {
            Expr::Var(m) => *n == *m,
            _ => false,
        },
        Expr::Add(s) => match b {
            Expr::Add(t) => {
                assert(a@ == ExprView::Add(expr_views(s@)));
                assert(b@ == ExprView::Add(expr_views(t@)));
                same_trees(s, t)
            },
            _ => false,
        },
        Expr::Mul(s) => match b {
            Expr::Mul(t) => {
                assert(a@ == ExprView::Mul(expr_views(s@)));
                assert(b@ == ExprView::Mul(expr_views(t@)));
                same_trees(s, t)
            },
            _ => false,
        },
        Expr::Sub(a1, a2) => match b {
            Expr::Sub(b1, b2) => same_tree(a1, b1) && same_tree(a2, b2),
            _ => false,
        },
        Expr::Div(a1, a2) => match b {
            Expr::Div(b1, b2) => same_tree(a1, b1) && same_tree(a2, b2),
            _ => false,
        },
        Expr::Pow(a1, a2) => match b {
            Expr::Pow(b1, b2) => same_tree(a1, b1) && same_tree(a2, b2),
            _ => false,
        },
        Expr::Neg(a1) => match b {
            Expr::Neg(b1) => same_tree(a1, b1),
            _ => false,
        },
    }
}

/// Whether two lists are as long as each other and hold the same trees, one
/// by one.
fn same_trees(s: &Vec<Expr>, t: &Vec<Expr>) -> (r: bool)
    ensures
        r == (s@.len() == t@.len() && forall|i: int|
            0 <= i < s@.len() ==> same_expr(#[trigger] expr_views(s@)[i], expr_views(t@)[i])),
    decreases s,
{
    if s.len() != t.len() {
        return false;
    }
    let mut i: usize = 0;
    while i < s.len()
        invariant
            i <= s.len(),
            s.len() == t.len(),
            forall|k: int|
                0 <= k < i ==> same_expr(#[trigger] expr_views(s@)[k], expr_views(t@)[k]),
        decreases s.len() - i,
    {
        if !same_tree(&s[i], &t[i]) {
            assert(!same_expr(expr_views(s@)[i as int], expr_views(t@)[i as int]));
            return false;
        }
        i = i + 1;
    }
    true
}

/// The kind of line that a token makes.
fn classify(token: &Token) -> (r: LineKind)
    ensures
        r == kind_of(token@),
{
    match token {
        Token::Equal => LineKind::Equal,
        Token::Assign => LineKind::Assign,
        Token::PlusEqual => LineKind::CompoundAdd,
        Token::MinusEqual => LineKind::CompoundSub,
        Token::StarEqual => LineKind::CompoundMul,
        Token::SlashEqual => LineKind::CompoundDiv,
        _ => LineKind::Plain,
    }
}

/// The position of the first control token, if there is one.
fn find_control(tokens: &Vec<Token>) -> (r: Option<usize>)
    ensures
        match r {
            Some(at) => first_control(token_views(tokens@), 0) == Some(at as int) && at
                < tokens.len(),
            None => first_control(token_views(tokens@), 0) is None,
        },
{
    let ghost all = token_views(tokens@);
    let mut i: usize = 0;
    while i < tokens.len()
        invariant
            i <= tokens.len(),
            all == token_views(tokens@),
            first_control(all, 0) == first_control(all, i as int),
        decreases tokens.len() - i,
    {
        match classify(&tokens[i]) {
            LineKind::Plain => {},
            _ => {
                return Some(i);
            },
        }
        i = i + 1;
    }
    None
}

/// The tokens from position `from` up to, not including, position `to`.
fn copy_tokens(tokens: &Vec<Token>, from: usize, to: usize) -> (r: Vec<Token>)
    requires
        from <= to <= tokens.len(),
    ensures
        token_views(r@) == token_views(tokens@).subrange(from as int, to as int),
{
    let mut out: Vec<Token> = Vec::new();
    let mut i: usize = from;
    while i < to
        invariant
            from <= i <= to <= tokens.len(),
            token_views(out@) =~= token_views(tokens@).subrange(from as int, i as int),
        decreases to - i,
    {
        let token = tokens[i].clone();
        proof {
            lemma_token_views_push(out@, token);
        }
        out.push(token);
        i = i + 1;
    }
    out
}

/// A bare number as a `Number`, any other tree as an `Expression`.
fn to_value(e: Expr) -> (r: Value)
    ensures
        r@ == value_of(e@),
{
    match e {
        Expr::Number(n) => Value::Number(n),
        other => Value::Expression(other),
    }
}

/// Parses a token sequence and evaluates the tree.
fn evaluate_tokens(
    tokens: &Vec<Token>,
    vars: &Environment,
    visited: &mut Vec<String>,
    powers: &PowerTable,
) -> (r: Result<Expr, Halt>)
    ensures
        final(visited)@ == old(visited)@,
        evaluated(r) == tree_value(token_views(tokens@), vars@, names(old(visited)@), powers@),
{
    match parse_to_ast(tokens) {
        Ok(tree) => eval_ast(&tree, vars, visited, powers),
        Err(e) => Err(Halt::Error(e)),
    }
}

/// The tree that a compound assignment evaluates.
fn combine(kind: LineKind, old: Expr, new: Expr) -> (r: Expr)
    ensures
        r@ == combined(kind, old@, new@),
{
    match kind {
        LineKind::CompoundAdd => {
            let ghost pair = seq![old@, new@];
            let mut terms: Vec<Expr> = Vec::new();
            terms.push(old);
            terms.push(new);
            assert(expr_views(terms@) =~= pair);
            Expr::Add(terms)
        },
        LineKind::CompoundSub => Expr::Sub(Box::new(old), Box::new(new)),
        LineKind::CompoundMul => {
            let ghost pair = seq![old@, new@];
            let mut factors: Vec<Expr> = Vec::new();
            factors.push(old);
            factors.push(new);
            assert(expr_views(factors@) =~= pair);
            Expr::Mul(factors)
        },
        _ => Expr::Div(Box::new(old), Box::new(new)),
    }
}

/// A calculator session: the variables that its lines have assigned.
pub struct CalculatorEngine {
    variables: Environment,
}

impl View for CalculatorEngine {
    type V = Map<Seq<char>, ExprView>;

    closed spec fn view(&self) -> Map<Seq<char>, ExprView> {
        self.variables@
    }
}

impl CalculatorEngine {
    /// A session without variables.
    pub fn new() -> (r: CalculatorEngine)
        ensures
            r@ == Map::<Seq<char>, ExprView>::empty(),
    {
        CalculatorEngine { variables: Environment::new() }
    }

    /// Evaluates one line.
    ///
    /// The result and the variables afterwards are those of [`run_line`]: an
    /// expression gives its value and changes nothing; a comparison gives a
    /// `Bool` and changes nothing; an assignment binds the name to the value
    /// and gives the value. A line that fails or stops for a power changes
    /// nothing.
    pub fn evaluate(&mut self, input: &str, powers: &PowerTable) -> (r: Result<Value, Halt>)
        ensures
            returned(r) == run_line(input@, old(self)@, powers@).result,
            final(self)@ == run_line(input@, old(self)@, powers@).env,
            !assigns(input@) ==> final(self)@ == old(self)@,
            r is Err ==> final(self)@ == old(self)@,
    {
        let tokens = match tokenize(input) {
            Ok(tokens) => tokens,
            Err(e) => {
                return Err(Halt::Error(e));
            },
        };
        match find_control(&tokens) {
            Some(at) => self.evaluate_equality_and_handle_assignment(&tokens, at, powers),
            None => {
                let mut visited: Vec<String> = Vec::new();
                assert(names(visited@) =~= Set::<Seq<char>>::empty());
                match evaluate_tokens(&tokens, &self.variables, &mut visited, powers) {
                    Ok(value) => Ok(to_value(value)),
                    Err(h) => Err(h),
                }
            },
        }
    }

    /// Evaluates a line that holds a control token at `equality_pos`, its
    /// first one: a comparison or an assignment.
    fn evaluate_equality_and_handle_assignment(
        &mut self,
        tokens: &Vec<Token>,
        equality_pos: usize,
        powers: &PowerTable,
    ) -> (r: Result<Value, Halt>)
        requires
            equality_pos < tokens.len(),
            first_control(token_views(tokens@), 0) == Some(equality_pos as int),
        ensures
            returned(r) == run_tokens(token_views(tokens@), old(self)@, powers@).result,
            final(self)@ == run_tokens(token_views(tokens@), old(self)@, powers@).env,
    {
        let left = copy_tokens(tokens, 0, equality_pos);
        let right = copy_tokens(tokens, equality_pos + 1, tokens.len());
        if left.len() == 0 || right.len() == 0 {
            return Err(Halt::Error(CalcError::EmptyExpression));
        }
        let kind = classify(&tokens[equality_pos]);
        let mut visited: Vec<String> = Vec::new();
        assert(names(visited@) =~= Set::<Seq<char>>::empty());
        match kind {
            LineKind::Equal => {
                let parsed_left = match parse_to_ast(&left) {
                    Ok(tree) => tree,
                    Err(e) => {
                        return Err(Halt::Error(e));
                    },
                };
                let parsed_right = match parse_to_ast(&right) {
                    Ok(tree) => tree,
                    Err(e) => {
                        return Err(Halt::Error(e));
                    },
                };
                let result_left = match eval_ast(
                    &parsed_left,
                    &self.variables,
                    &mut visited,
                    powers,
                ) {
                    Ok(value) => value,
                    Err(h) => {
                        return Err(h);
                    },
                };
                let result_right = match eval_ast(
                    &parsed_right,
                    &self.variables,
                    &mut visited,
                    powers,
                ) {
                    Ok(value) => value,
                    Err(h) => {
                        return Err(h);
                    },
                };
                Ok(Value::Bool(same_tree(&result_left, &result_right)))
            },
            _ => {
                let name = match Self::assignment_target(&left) {
                    Some(name) => name,
                    None => {
                        return Err(
                            Halt::Error(
                                CalcError::InvalidExpression(
                                    "Cannot assign to a non variable expression".to_string(),
                                ),
                            ),
                        );
                    },
                };
                let tree = match parse_to_ast(&right) {
                    Ok(tree) => tree,
                    Err(e) => {
                        return Err(Halt::Error(e));
                    },
                };
                let whole = match kind {
                    LineKind::Assign => tree,
                    _ => {
                        let old = match self.variables.get(&name) {
                            Some(bound) => bound.duplicate(),
                            None => Expr::Var(name.clone()),
                        };
                        combine(kind, old, tree)
                    },
                };
                let entry = name.clone();
                visited.push(entry);
                assert(names(visited@) =~= Set::<Seq<char>>::empty().insert(name@)) by {
                    assert(visited@.map_values(|s: String| s@) =~= seq![name@]);
                    assert(seq![name@][0] == name@);
                }
                let result = match eval_ast(&whole, &self.variables, &mut visited, powers) {
                    Ok(value) => value,
                    Err(h) => {
                        return Err(h);
                    },
                };
                self.variables.insert(name, result.duplicate());
                Ok(to_value(result))
            },
        }
    }

    /// The name on the left side of an assignment, where that side is one
    /// identifier.
    fn assignment_target(left: &Vec<Token>) -> (r: Option<String>)
        ensures
            match r {
                Some(name) => target(token_views(left@)) == Some(name@),
                None => target(token_views(left@)) is None,
            },
    {
        if left.len() != 1 {
            return None;
        }
        match &left[0] {
            Token::Var(name) => Some(name.clone()),
            _ => None,
        }
    }
}

} // verus!
