use vstd::prelude::*;

verus! {

/// Why an input line could not be evaluated.
#[derive(Debug, PartialEq)]
pub enum CalcError {
    /// The operation is not available.
    NotImplemented,
    /// A state was reached that the grammar rules out.
    HowDidWeGetHere(String),
    /// The text or the token sequence is malformed; the detail names what was wrong.
    InvalidExpression(String),
    /// A divisor evaluated to the number zero.
    DivisionByZero,
    /// A token stands where no rule accepts it.
    InvalidToken(String),
    /// An operator found too few operands.
    MissingOperand,
    /// Nothing to evaluate: a blank line, or an empty side of `=` or `==`.
    EmptyExpression,
    /// More operands than the operators consume.
    TooManyOperands,
}

/// The mathematical value of a [`CalcError`]: details are sequences of characters.
pub enum ErrorView {
    NotImplemented,
    HowDidWeGetHere(Seq<char>),
    InvalidExpression(Seq<char>),
    DivisionByZero,
    InvalidToken(Seq<char>),
    MissingOperand,
    EmptyExpression,
    TooManyOperands,
}

impl View for CalcError {
    type V = ErrorView;

    open spec fn view(&self) -> ErrorView {
        match self {
            CalcError::NotImplemented => ErrorView::NotImplemented,
            CalcError::HowDidWeGetHere(detail) => ErrorView::HowDidWeGetHere(detail@),
            CalcError::InvalidExpression(detail) => ErrorView::InvalidExpression(detail@),
            CalcError::DivisionByZero => ErrorView::DivisionByZero,
            CalcError::InvalidToken(detail) => ErrorView::InvalidToken(detail@),
            CalcError::MissingOperand => ErrorView::MissingOperand,
            CalcError::EmptyExpression => ErrorView::EmptyExpression,
            CalcError::TooManyOperands => ErrorView::TooManyOperands,
        }
    }
}

impl Clone for CalcError {
    fn clone(&self) -> (r: CalcError)
        ensures
            r@ == self@,
    {
        match self {
            CalcError::NotImplemented => CalcError::NotImplemented,
            CalcError::HowDidWeGetHere(detail) => CalcError::HowDidWeGetHere(detail.clone()),
            CalcError::InvalidExpression(detail) => CalcError::InvalidExpression(detail.clone()),
            CalcError::DivisionByZero => CalcError::DivisionByZero,
            CalcError::InvalidToken(detail) => CalcError::InvalidToken(detail.clone()),
            CalcError::MissingOperand => CalcError::MissingOperand,
            CalcError::EmptyExpression => CalcError::EmptyExpression,
            CalcError::TooManyOperands => CalcError::TooManyOperands,
        }
    }
}

} // verus!
