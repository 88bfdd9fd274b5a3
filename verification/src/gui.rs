//! The state behind a calculator window: the line being typed, the session
//! it is evaluated in, and the last result.
//!
//! Nothing here draws or waits. The window hands in key presses and shows
//! what the state holds. Where a line needs the power of two numbers, the
//! window computes it, hands it in, and submits the line again.

use crate::engine::{run_line, CalculatorEngine, Value, ValueView};
use crate::errors::{CalcError, ErrorView};
use crate::evaluator::{Halt, HaltView};
use crate::lexer::chars_of;
use crate::parser::ExprView;
use crate::powers::PowerTable;
use vstd::prelude::*;

verus! {

/// The text without the spaces at its end.
pub open spec fn trim_spaces(text: Seq<char>) -> Seq<char>
    decreases text.len(),
{
    if text.len() > 0 && text.last() == ' ' {
        trim_spaces(text.drop_last())
    } else {
        text
    }
}

/// The text without the characters at its end that are no spaces.
pub open spec fn trim_word(text: Seq<char>) -> Seq<char>
    decreases text.len(),
{
    if text.len() > 0 && text.last() != ' ' {
        trim_word(text.drop_last())
    } else {
        text
    }
}

/// The text with an operator added: the operator stands between single
/// spaces, or, in an empty text, before one.
pub open spec fn with_operator(text: Seq<char>, op: Seq<char>) -> Seq<char> {
    if text.len() == 0 {
        op.push(' ')
    } else {
        (trim_spaces(text).push(' ') + op).push(' ')
    }
}

/// The text with its last item deleted: after spaces that is the word
/// before them, with the spaces on both sides of it; otherwise it is one
/// character.
pub open spec fn without_last(text: Seq<char>) -> Seq<char> {
    if text.len() == 0 {
        text
    } else if text.last() == ' ' {
        let rest = trim_word(trim_spaces(text));
        if rest.len() > 0 {
            rest.drop_last()
        } else {
            rest
        }
    } else {
        text.drop_last()
    }
}

/// How a line ended: with a value or with an error.
pub open spec fn result_view(r: Result<Value, CalcError>) -> Result<ValueView, ErrorView> {
    match r {
        Ok(v) => Ok(v@),
        Err(e) => Err(e@),
    }
}

/// The mathematical value of a [`CalculatorApp`].
pub struct AppView {
    /// The variables of the session.
    pub variables: Map<Seq<char>, ExprView>,
    /// The line being typed.
    pub input: Seq<char>,
    /// How the last line that was evaluated to its end ended.
    pub last_result: Option<Result<ValueView, ErrorView>>,
    /// The powers handed in so far.
    pub powers: Map<(u64, u64), u64>,
}

/// A calculator: a session, the line being typed and the last result.
pub struct CalculatorApp {
    engine: CalculatorEngine,
    input: String,
    last_result: Option<Result<Value, CalcError>>,
    powers: PowerTable,
}

impl View for CalculatorApp {
    type V = AppView;

    closed spec fn view(&self) -> AppView {
        AppView {
            variables: self.engine@,
            input: self.input@,
            last_result: match self.last_result {
                Some(r) => Some(result_view(r)),
                None => None,
            },
            powers: self.powers@,
        }
    }
}

/// The length of the text up to the spaces at its end.
fn trimmed_spaces(chars: &Vec<char>, len: usize) -> (r: usize)
    requires
        len <= chars.len(),
    ensures
        r <= len,
        chars@.take(r as int) == trim_spaces(chars@.take(len as int)),
{
    let mut kept: usize = len;
    while kept > 0 && chars[kept - 1] == ' '
        invariant
            kept <= len <= chars.len(),
            trim_spaces(chars@.take(kept as int)) == trim_spaces(chars@.take(len as int)),
        decreases kept,
    {
        assert(chars@.take(kept as int).drop_last() =~= chars@.take(kept - 1));
        kept = kept - 1;
    }
    kept
}

/// The length of the text up to the word at its end.
fn trimmed_word(chars: &Vec<char>, len: usize) -> (r: usize)
    requires
        len <= chars.len(),
    ensures
        r <= len,
        chars@.take(r as int) == trim_word(chars@.take(len as int)),
{
    let mut kept: usize = len;
    while kept > 0 && chars[kept - 1] != ' '
        invariant
            kept <= len <= chars.len(),
            trim_word(chars@.take(kept as int)) == trim_word(chars@.take(len as int)),
        decreases kept,
    {
        assert(chars@.take(kept as int).drop_last() =~= chars@.take(kept - 1));
        kept = kept - 1;
    }
    kept
}

/// The first `len` characters of a text.
fn prefix(text: &String, len: usize) -> (r: String)
    requires
        len <= text@.len(),
    ensures
        r@ == text@.take(len as int),
{
    String::from_str(text.as_str().substring_char(0, len))
}

impl CalculatorApp {
    /// A calculator with an empty line, no variables and no result.
    pub fn new() -> (r: CalculatorApp)
        ensures
            r@ == (AppView {
                variables: Map::empty(),
                input: Seq::empty(),
                last_result: None,
                powers: Map::empty(),
            }),
    {
        CalculatorApp {
            engine: CalculatorEngine::new(),
            input: String::new(),
            last_result: None,
            powers: PowerTable::new(),
        }
    }

    /// The line being typed.
    pub fn input(&self) -> (r: &String)
        ensures
            r@ == self@.input,
    {
        &self.input
    }

    /// How the last line that was evaluated to its end ended.
    pub fn last_result(&self) -> (r: &Option<Result<Value, CalcError>>)
        ensures
            match *r {
                Some(result) => self@.last_result == Some(result_view(result)),
                None => self@.last_result is None,
            },
    {
        &self.last_result
    }

    /// Evaluates the line being typed.
    ///
    /// Where the evaluation needs a power that was not handed in, that power
    /// is returned, as base and exponent, and nothing changes. Otherwise the
    /// line takes its effect on the variables and its result becomes the last
    /// result.
    pub fn on_submit(&mut self) -> (r: Option<(u64, u64)>)
        ensures
            match run_line(old(self)@.input, old(self)@.variables, old(self)@.powers).result {
                Err(HaltView::NeedPower(base, exponent)) => r == Some((base, exponent))
                    && final(self)@ == old(self)@,
                Err(HaltView::Error(e)) => r is None && final(self)@ == (AppView {
                    last_result: Some(Err(e)),
                    ..old(self)@
                }),
                Ok(value) => r is None && final(self)@ == (AppView {
                    variables: run_line(
                        old(self)@.input,
                        old(self)@.variables,
                        old(self)@.powers,
                    ).env,
                    last_result: Some(Ok(value)),
                    ..old(self)@
                }),
            },
    {
        match self.engine.evaluate(self.input.as_str(), &self.powers) {
            Ok(value) => {
                self.last_result = Some(Ok(value));
                None
            },
            Err(Halt::Error(e)) => {
                self.last_result = Some(Err(e));
                None
            },
            Err(Halt::NeedPower(base, exponent)) => Some((base, exponent)),
        }
    }

    /// Hands in a power: `base` raised to `exponent` is `value`.
    pub fn supply_power(&mut self, base: u64, exponent: u64, value: u64)
        ensures
            final(self)@ == (AppView {
                powers: old(self)@.powers.insert((base, exponent), value),
                ..old(self)@
            }),
    {
        self.powers.record(base, exponent, value);
    }

    /// Replaces the line being typed.
    pub fn set_input(&mut self, input: String)
        ensures
            final(self)@ == (AppView { input: input@, ..old(self)@ }),
    {
        self.input = input;
    }

    /// Types one character at the end of the line.
    pub fn append_char(&mut self, ch: char)
        ensures
            final(self)@ == (AppView { input: old(self)@.input.push(ch), ..old(self)@ }),
    {
        self.input.push(ch);
    }

    /// Types an operator at the end of the line, between single spaces.
    pub fn append_operator(&mut self, op: &str)
        ensures
            final(self)@ == (AppView {
                input: with_operator(old(self)@.input, op@),
                ..old(self)@
            }),
    {
        let chars = chars_of(self.input.as_str());
        if chars.len() == 0 {
            self.input.append(op);
            self.input.push(' ');
            return ;
        }
        assert(chars@.take(chars.len() as int) =~= chars@);
        let kept = trimmed_spaces(&chars, chars.len());
        let mut text = prefix(&self.input, kept);
        text.push(' ');
        text.append(op);
        text.push(' ');
        self.input = text;
    }

    /// Deletes the last item of the line: one character, or, after spaces,
    /// the word before them with the spaces around it.
    pub fn backspace(&mut self)
        ensures
            final(self)@ == (AppView { input: without_last(old(self)@.input), ..old(self)@ }),
    {
        let chars = chars_of(self.input.as_str());
        let len = chars.len();
        if len == 0 {
            return ;
        }
        assert(chars@.take(len as int) =~= chars@);
        let kept = if chars[len - 1] == ' ' {
            let rest = trimmed_word(&chars, trimmed_spaces(&chars, len));
            if rest > 0 {
                assert(chars@.take(rest as int).drop_last() =~= chars@.take(rest - 1));
                rest - 1
            } else {
                rest
            }
        } else {
            len - 1
        };
        self.input = prefix(&self.input, kept);
    }

    /// Empties the line.
    pub fn clear_input(&mut self)
        ensures
            final(self)@ == (AppView { input: Seq::empty(), ..old(self)@ }),
    {
        self.input = String::new();
    }
}

} // verus!
