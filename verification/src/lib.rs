//! A symbolic calculator for arithmetic with variables.
//!
//! A line of text is split into tokens ([`lexer`]), the tokens are built into
//! an expression tree ([`parser`]), and the tree is reduced against the
//! variables of the session ([`evaluator`]). A line may also compare two
//! expressions or assign one to a name ([`engine`]). Variables that are not
//! bound, or that are defined by themselves, stay in the result as symbols.
//!
//! Numbers are IEEE 754 binary64 values, held as their bit patterns
//! ([`number`]). Sums, products, quotients and decimal literals are computed
//! by `rustc_apfloat`; powers are supplied by the caller ([`powers`]).
//!
//! Every function is verified against a contract over the mathematical value
//! of its arguments: a `Seq<char>` for a string, an [`parser::ExprView`] for a
//! tree, a `Map` for the variables.

pub mod engine;
pub mod environment;
pub mod errors;
pub mod evaluator;
pub mod gui;
pub mod lexer;
pub mod number;
pub mod parser;
pub mod powers;
pub mod table;

pub use engine::{CalculatorEngine, Value};
pub use errors::CalcError;
pub use evaluator::Halt;
pub use gui::CalculatorApp;
pub use lexer::Token;
pub use parser::Expr;
pub use powers::PowerTable;
