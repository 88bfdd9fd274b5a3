//! Lexical analysis: from a line of text to a sequence of tokens.

use crate::errors::{CalcError, ErrorView};
use crate::number::{count_dots, is_digit, literal_value, read_decimal, MAX_LITERAL_LEN};
use vstd::prelude::*;

verus! {

/// A lexical unit.
///
/// `==` compares numbers by their bit patterns.
#[derive(Debug, PartialEq)]
pub enum Token {
    /// A numeric literal, as a binary64 bit pattern.
    Number(u64),
    /// `+`
    Plus,
    /// `+=`
    PlusEqual,
    /// `-`
    Minus,
    /// A `-` that negates. [`tokenize`] never gives it: the parser puts it on
    /// its operator stack for a `-` in prefix position.
    UnaryMinus,
    /// `-=`
    MinusEqual,
    /// `*`
    Star,
    /// `*=`
    StarEqual,
    /// `/`
    Slash,
    /// `/=`
    SlashEqual,
    /// `^`
    Power,
    /// `(`
    LParen,
    /// `)`
    RParen,
    /// An identifier: a run of ASCII letters and digits.
    Var(String),
    /// `==`
    Equal,
    /// `=`
    Assign,
}

/// The mathematical value of a [`Token`].
pub enum TokenView {
    Number(u64),
    Plus,
    PlusEqual,
    Minus,
    UnaryMinus,
    MinusEqual,
    Star,
    StarEqual,
    Slash,
    SlashEqual,
    Power,
    LParen,
    RParen,
    Var(Seq<char>),
    Equal,
    Assign,
}

impl View for Token {
    type V = TokenView;

    open spec fn view(&self) -> TokenView {
        match self {
            Token::Number(n) => TokenView::Number(*n),
            Token::Plus => TokenView::Plus,
            Token::PlusEqual => TokenView::PlusEqual,
            Token::Minus => TokenView::Minus,
            Token::UnaryMinus => TokenView::UnaryMinus,
            Token::MinusEqual => TokenView::MinusEqual,
            Token::Star => TokenView::Star,
            Token::StarEqual => TokenView::StarEqual,
            Token::Slash => TokenView::Slash,
            Token::SlashEqual => TokenView::SlashEqual,
            Token::Power => TokenView::Power,
            Token::LParen => TokenView::LParen,
            Token::RParen => TokenView::RParen,
            Token::Var(name) => TokenView::Var(name@),
            Token::Equal => TokenView::Equal,
            Token::Assign => TokenView::Assign,
        }
    }
}

impl Clone for Token {
    fn clone(&self) -> (r: Token)
        ensures
            r@ == self@,
    {
        match self {
            Token::Number(n) => Token::Number(*n),
            Token::Plus => Token::Plus,
            Token::PlusEqual => Token::PlusEqual,
            Token::Minus => Token::Minus,
            Token::UnaryMinus => Token::UnaryMinus,
            Token::MinusEqual => Token::MinusEqual,
            Token::Star => Token::Star,
            Token::StarEqual => Token::StarEqual,
            Token::Slash => Token::Slash,
            Token::SlashEqual => Token::SlashEqual,
            Token::Power => Token::Power,
            Token::LParen => Token::LParen,
            Token::RParen => Token::RParen,
            Token::Var(name) => Token::Var(name.clone()),
            Token::Equal => Token::Equal,
            Token::Assign => Token::Assign,
        }
    }
}

/// The values of a sequence of tokens.
pub open spec fn token_views(tokens: Seq<Token>) -> Seq<TokenView> {
    tokens.map_values(|t: Token| t@)
}

/// Space, tab, line feed, form feed or carriage return.
pub open spec fn is_space(c: char) -> bool {
    c == ' ' || c == '\t' || c == '\n' || c == '\x0C' || c == '\r'
}

/// An ASCII letter or digit.
pub open spec fn is_alphanumeric(c: char) -> bool {
    is_digit(c) || ('a' <= c <= 'z') || ('A' <= c <= 'Z')
}

/// A digit or `.`: what a numeric literal is made of.
pub open spec fn is_literal_char(c: char) -> bool {
    is_digit(c) || c == '.'
}

/// How many literal characters stand in a row from `from` on.
pub open spec fn literal_run(text: Seq<char>, from: int) -> nat
    decreases text.len() - from,
{
    if 0 <= from < text.len() && is_literal_char(text[from]) {
        1 + literal_run(text, from + 1)
    } else {
        0
    }
}

/// How many letters and digits stand in a row from `from` on.
pub open spec fn name_run(text: Seq<char>, from: int) -> nat
    decreases text.len() - from,
{
    if 0 <= from < text.len() && is_alphanumeric(text[from]) {
        1 + name_run(text, from + 1)
    } else {
        0
    }
}

/// The text of the numeric literal that starts at `at`: the run of literal
/// characters, with a `0` put in front of a leading `.`.
pub open spec fn literal_text(text: Seq<char>, at: int) -> Seq<char> {
    let run = text.subrange(at, at + literal_run(text, at));
    if text[at] == '.' {
        seq!['0'] + run
    } else {
        run
    }
}

/// The literal can be read as a number: it holds at most one `.` and is no
/// longer than [`MAX_LITERAL_LEN`].
pub open spec fn is_well_formed(literal: Seq<char>) -> bool {
    count_dots(literal) <= 1 && literal.len() <= MAX_LITERAL_LEN
}

/// `=` stands right after position `at`.
pub open spec fn equals_follows(text: Seq<char>, at: int) -> bool {
    at + 1 < text.len() && text[at + 1] == '='
}

/// What stands at one position of the text.
pub enum Scan {
    /// A token, and the position after it.
    Token(TokenView, int),
    /// Whitespace, and the position after it.
    Skip(int),
    /// Nothing that a rule accepts.
    Fail(ErrorView),
}

/// `normal`, or `compound` if `=` follows.
pub open spec fn scan_operator(
    text: Seq<char>,
    at: int,
    normal: TokenView,
    compound: TokenView,
) -> Scan {
    if equals_follows(text, at) {
        Scan::Token(compound, at + 2)
    } else {
        Scan::Token(normal, at + 1)
    }
}

/// The token, whitespace or mistake at position `at` of `text`.
pub open spec fn scan(text: Seq<char>, at: int) -> Scan
    recommends
        0 <= at < text.len(),
{
    let c = text[at];
    if is_literal_char(c) {
        let literal = literal_text(text, at);
        if is_well_formed(literal) {
            Scan::Token(TokenView::Number(literal_value(literal)), at + literal_run(text, at))
        } else {
            Scan::Fail(ErrorView::InvalidExpression(literal))
        }
    } else if c == '+' {
        scan_operator(text, at, TokenView::Plus, TokenView::PlusEqual)
    } else if c == '-' {
        scan_operator(text, at, TokenView::Minus, TokenView::MinusEqual)
    } else if c == '*' {
        scan_operator(text, at, TokenView::Star, TokenView::StarEqual)
    } else if c == '/' {
        scan_operator(text, at, TokenView::Slash, TokenView::SlashEqual)
    } else if c == '(' {
        Scan::Token(TokenView::LParen, at + 1)
    } else if c == ')' {
        Scan::Token(TokenView::RParen, at + 1)
    } else if c == '=' {
        scan_operator(text, at, TokenView::Assign, TokenView::Equal)
    } else if c == '^' {
        Scan::Token(TokenView::Power, at + 1)
    } else if is_space(c) {
        Scan::Skip(at + 1)
    } else if is_alphanumeric(c) {
        Scan::Token(
            TokenView::Var(text.subrange(at, at + name_run(text, at))),
            at + name_run(text, at),
        )
    } else {
        Scan::Fail(ErrorView::InvalidExpression(seq![c]))
    }
}

/// `tokens` in front of what a later part of the text gave.
pub open spec fn prepend(tokens: Seq<TokenView>, rest: Result<Seq<TokenView>, ErrorView>) -> Result<
    Seq<TokenView>,
    ErrorView,
> {
    match rest {
        Ok(more) => Ok(tokens + more),
        Err(e) => Err(e),
    }
}

/// The tokens of `text` from position `at` on, or the first mistake.
pub open spec fn lex_from(text: Seq<char>, at: int) -> Result<Seq<TokenView>, ErrorView>
    decreases text.len() - at,
    via lex_from_decreases
{
    if 0 <= at < text.len() {
        match scan(text, at) {
            Scan::Fail(e) => Err(e),
            Scan::Skip(next) => lex_from(text, next),
            Scan::Token(token, next) => prepend(seq![token], lex_from(text, next)),
        }
    } else {
        Ok(Seq::empty())
    }
}

#[via_fn]
proof fn lex_from_decreases(text: Seq<char>, at: int) {
    if 0 <= at < text.len() {
        lemma_scan_advances(text, at);
    }
}

/// A run of literal characters ends inside the text.
pub proof fn lemma_literal_run_bounds(text: Seq<char>, from: int)
    requires
        0 <= from <= text.len(),
    ensures
        from + literal_run(text, from) <= text.len(),
        forall|i: int|
            from <= i < from + literal_run(text, from) ==> is_literal_char(#[trigger] text[i]),
        from + literal_run(text, from) < text.len() ==> !is_literal_char(
            text[from + literal_run(text, from)],
        ),
    decreases text.len() - from,
{
    if from < text.len() && is_literal_char(text[from]) {
        lemma_literal_run_bounds(text, from + 1);
    }
}

/// A run of letters and digits ends inside the text.
pub proof fn lemma_name_run_bounds(text: Seq<char>, from: int)
    requires
        0 <= from <= text.len(),
    ensures
        from + name_run(text, from) <= text.len(),
        forall|i: int|
            from <= i < from + name_run(text, from) ==> is_alphanumeric(#[trigger] text[i]),
        from + name_run(text, from) < text.len() ==> !is_alphanumeric(
            text[from + name_run(text, from)],
        ),
    decreases text.len() - from,
{
    if from < text.len() && is_alphanumeric(text[from]) {
        lemma_name_run_bounds(text, from + 1);
    }
}

/// Whatever stands at a position, the next position lies further on and not
/// beyond the end.
pub proof fn lemma_scan_advances(text: Seq<char>, at: int)
    requires
        0 <= at < text.len(),
    ensures
        match scan(text, at) {
            Scan::Token(_, next) => at < next <= text.len(),
            Scan::Skip(next) => at < next <= text.len(),
            Scan::Fail(_) => true,
        },
{
    lemma_literal_run_bounds(text, at);
    lemma_name_run_bounds(text, at);
}

/// The tokens of a line: those of [`lex_from`] the start, and `EmptyExpression`
/// where there is none.
pub open spec fn lex(text: Seq<char>) -> Result<Seq<TokenView>, ErrorView> {
    match lex_from(text, 0) {
        Ok(tokens) => if tokens.len() == 0 {
            Err(ErrorView::EmptyExpression)
        } else {
            Ok(tokens)
        },
        Err(e) => Err(e),
    }
}

/// No text gives the token `UnaryMinus`: only the parser makes it.
pub proof fn lemma_no_unary_minus(text: Seq<char>, at: int)
    requires
        0 <= at <= text.len(),
    ensures
        lex_from(text, at) matches Ok(tokens) ==> forall|i: int|
            0 <= i < tokens.len() ==> !(#[trigger] tokens[i] is UnaryMinus),
    decreases text.len() - at,
{
    if at < text.len() {
        lemma_scan_advances(text, at);
        match scan(text, at) {
            Scan::Fail(_) => {},
            Scan::Skip(next) => {
                lemma_no_unary_minus(text, next);
            },
            Scan::Token(token, next) => {
                lemma_no_unary_minus(text, next);
            },
        }
    }
}

/// The value of what [`tokenize`] returns.
pub open spec fn lexed(r: Result<Vec<Token>, CalcError>) -> Result<Seq<TokenView>, ErrorView> {
    match r {
        Ok(tokens) => Ok(token_views(tokens@)),
        Err(e) => Err(e@),
    }
}

/// `String::push` of the standard library: by its documentation it appends
/// the character to the end of the string.
pub assume_specification[ String::push ](s: &mut String, c: char)
    ensures
        final(s)@ == old(s)@.push(c),
;

/// The characters of a string slice, in order.
pub fn chars_of(s: &str) -> (v: Vec<char>)
    ensures
        v@ == s@,
{
    let mut v: Vec<char> = Vec::new();
    for c in it: s.chars()
        invariant
            it.seq() == s@,
            v@ == it.seq().take(it.index()),
    {
        v.push(c);
    }
    v
}

fn digit(c: char) -> (r: bool)
    ensures
        r == is_digit(c),
{
    '0' <= c && c <= '9'
}

fn space(c: char) -> (r: bool)
    ensures
        r == is_space(c),
{
    c == ' ' || c == '\t' || c == '\n' || c == '\x0C' || c == '\r'
}

fn alphanumeric(c: char) -> (r: bool)
    ensures
        r == is_alphanumeric(c),
{
    digit(c) || ('a' <= c && c <= 'z') || ('A' <= c && c <= 'Z')
}

/// Pushing a token onto the tokens read so far moves it from the front of
/// what is still to come.
proof fn lemma_prepend_push(
    tokens: Seq<Token>,
    token: Token,
    rest: Result<Seq<TokenView>, ErrorView>,
)
    ensures
        prepend(token_views(tokens), prepend(seq![token@], rest)) == prepend(
            token_views(tokens.push(token)),
            rest,
        ),
{
    assert(token_views(tokens.push(token)) =~= token_views(tokens).push(token@));
    match rest {
        Ok(more) => {
            assert(token_views(tokens) + (seq![token@] + more) =~= token_views(tokens).push(token@)
                + more);
        },
        Err(_) => {},
    }
}

/// Reads the operator at `pos`: appends `compound` if `=` follows it, else
/// `normal`, and moves `pos` past what was read.
fn push_op(
    chars: &Vec<char>,
    pos: &mut usize,
    tokens: &mut Vec<Token>,
    normal: Token,
    compound: Token,
)
    requires
        *old(pos) < chars.len(),
    ensures
        equals_follows(chars@, *old(pos) as int) ==> *final(pos) == *old(pos) + 2 && final(tokens)@
            == old(tokens)@.push(compound),
        !equals_follows(chars@, *old(pos) as int) ==> *final(pos) == *old(pos) + 1
            && final(tokens)@ == old(tokens)@.push(normal),
{
    if *pos + 1 < chars.len() && chars[*pos + 1] == '=' {
        *pos = *pos + 2;
        tokens.push(compound);
    } else {
        *pos = *pos + 1;
        tokens.push(normal);
    }
}

/// Reads the numeric literal that starts at `at`: its text, the position
/// after it, and whether it is well formed.
fn read_literal(chars: &Vec<char>, at: usize) -> (r: (String, usize, bool))
    requires
        at < chars.len(),
        is_literal_char(chars@[at as int]),
    ensures
        r.0@ == literal_text(chars@, at as int),
        r.1 == at + literal_run(chars@, at as int),
        r.2 == is_well_formed(r.0@),
        r.0@.len() > 0,
        is_digit(r.0@[0]),
        forall|i: int| 0 <= i < r.0@.len() ==> is_literal_char(#[trigger] r.0@[i]),
{
    let mut text = String::new();
    let mut dots: usize = 0;
    assert(count_dots(text@) == 0);
    if chars[at] == '.' {
        text.push('0');
        assert(text@.drop_last() =~= Seq::<char>::empty());
    }
    let ghost prefix = text@;
    let mut i: usize = at;
    while i < chars.len() && (digit(chars[i]) || chars[i] == '.')
        invariant
            at <= i <= chars.len(),
            prefix == if chars@[at as int] == '.' {
                seq!['0']
            } else {
                Seq::<char>::empty()
            },
            text@ == prefix + chars@.subrange(at as int, i as int),
            dots == count_dots(text@),
            dots <= i - at,
            literal_run(chars@, at as int) == (i - at) + literal_run(chars@, i as int),
            forall|k: int| at <= k < i ==> is_literal_char(#[trigger] chars@[k]),
        decreases chars.len() - i,
    {
        let c = chars[i];
        let ghost before = text@;
        text.push(c);
        assert(text@.drop_last() =~= before);
        if c == '.' {
            dots = dots + 1;
        }
        i = i + 1;
    }
    let short = if chars[at] == '.' {
        i - at < MAX_LITERAL_LEN
    } else {
        i - at <= MAX_LITERAL_LEN
    };
    (text, i, dots <= 1 && short)
}

/// Reads the identifier that starts at `at`: its name and the position after it.
fn read_name(chars: &Vec<char>, at: usize) -> (r: (String, usize))
    requires
        at < chars.len(),
        is_alphanumeric(chars@[at as int]),
    ensures
        r.0@ == chars@.subrange(at as int, at + name_run(chars@, at as int)),
        r.1 == at + name_run(chars@, at as int),
{
    let mut name = String::new();
    let mut i: usize = at;
    while i < chars.len() && alphanumeric(chars[i])
        invariant
            at <= i <= chars.len(),
            name@ == chars@.subrange(at as int, i as int),
            name_run(chars@, at as int) == (i - at) + name_run(chars@, i as int),
        decreases chars.len() - i,
    {
        name.push(chars[i]);
        i = i + 1;
    }
    (name, i)
}

/// Turns a line of text into its tokens.
///
/// Returns the tokens that [`lex`] defines, in order, or the first mistake in
/// the text: a numeric literal with more than one `.` or of more than
/// [`MAX_LITERAL_LEN`] characters, or a character that no rule accepts, each
/// as `InvalidExpression` with the offending text. A line without any token
/// is `EmptyExpression`.
pub fn tokenize(input: &str) -> (r: Result<Vec<Token>, CalcError>)
    ensures
        lexed(r) == lex(input@),
{
    let chars = chars_of(input);
    let mut tokens: Vec<Token> = Vec::new();
    let mut pos: usize = 0;
    while pos < chars.len()
        invariant
            pos <= chars.len(),
            chars@ == input@,
            lex_from(chars@, 0) == prepend(token_views(tokens@), lex_from(chars@, pos as int)),
        decreases chars.len() - pos,
    {
        let ch = chars[pos];
        let ghost before = tokens@;
        let ghost start = pos as int;
        proof {
            lemma_scan_advances(chars@, start);
        }
        if digit(ch) || ch == '.' {
            let (text, end, well_formed) = read_literal(&chars, pos);
            if well_formed {
                let value = read_decimal(text.as_str());
                let token = Token::Number(value.unwrap());
                proof {
                    lemma_prepend_push(before, token, lex_from(chars@, end as int));
                }
                tokens.push(token);
                pos = end;
            } else {
                return Err(CalcError::InvalidExpression(text));
            }
        } else if ch == '+' {
            push_op(&chars, &mut pos, &mut tokens, Token::Plus, Token::PlusEqual);
            proof {
                lemma_prepend_push(before, tokens@.last(), lex_from(chars@, pos as int));
            }
        } else if ch == '-' {
            push_op(&chars, &mut pos, &mut tokens, Token::Minus, Token::MinusEqual);
            proof {
                lemma_prepend_push(before, tokens@.last(), lex_from(chars@, pos as int));
            }
        } else if ch == '*' {
            push_op(&chars, &mut pos, &mut tokens, Token::Star, Token::StarEqual);
            proof {
                lemma_prepend_push(before, tokens@.last(), lex_from(chars@, pos as int));
            }
        } else if ch == '/' {
            push_op(&chars, &mut pos, &mut tokens, Token::Slash, Token::SlashEqual);
            proof {
                lemma_prepend_push(before, tokens@.last(), lex_from(chars@, pos as int));
            }
        } else if ch == '(' {
            proof {
                lemma_prepend_push(before, Token::LParen, lex_from(chars@, start + 1));
            }
            tokens.push(Token::LParen);
            pos = pos + 1;
        } else if ch == ')' {
            proof {
                lemma_prepend_push(before, Token::RParen, lex_from(chars@, start + 1));
            }
            tokens.push(Token::RParen);
            pos = pos + 1;
        } else if ch == '=' {
            push_op(&chars, &mut pos, &mut tokens, Token::Assign, Token::Equal);
            proof {
                lemma_prepend_push(before, tokens@.last(), lex_from(chars@, pos as int));
            }
        } else if ch == '^' {
            proof {
                lemma_prepend_push(before, Token::Power, lex_from(chars@, start + 1));
            }
            tokens.push(Token::Power);
            pos = pos + 1;
        } else if space(ch) {
            pos = pos + 1;
        } else if alphanumeric(ch) {
            let (name, end) = read_name(&chars, pos);
            let token = Token::Var(name);
            proof {
                lemma_prepend_push(before, token, lex_from(chars@, end as int));
            }
            tokens.push(token);
            pos = end;
        } else {
            let mut detail = String::new();
            detail.push(ch);
            return Err(CalcError::InvalidExpression(detail));
        }
    }
    if tokens.len() == 0 {
        Err(CalcError::EmptyExpression)
    } else {
        Ok(tokens)
    }
}

} // verus!
