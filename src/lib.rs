//! Arithmetic expressions read from a line of text: a lexer, a
//! shunting-yard conversion to postfix order, a postfix reader that builds
//! the expression tree, and a table of variables for evaluating trees.
//!
//! A line holds numbers and the operators `+ - * / ^` only: a letter or `=`
//! reads as an unsupported operator, so no line names a variable or assigns
//! one. `Expr::Variable` and `Expr::Assignment` arise only in trees built
//! directly, and `env::Environment` serves those.
pub mod token;
pub mod lexer;
pub mod rpn;
pub mod tree;
pub mod pipeline;
pub mod laws;
pub mod env;
