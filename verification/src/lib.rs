//! Core of an interactive evaluator for the untyped lambda calculus with
//! a `let` binder: a lexer and recursive-descent parser, the expression
//! tree with its printer, a persistent substitution environment, and a
//! substitution-based single-step reducer.

pub mod expr;
pub mod laws;
pub mod parse;
pub mod split;
pub mod subst;

pub use expr::Expr;
pub use expr::reduce;
pub use parse::parse;
pub use subst::Subst;
