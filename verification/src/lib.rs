//! A calculator language, from a line of text to what is to be computed.
//!
//! A line goes through three stages. [`tokenizer`] turns its characters
//! into tokens. [`parser`] reads the tokens, with one token of lookahead,
//! into a tree by the grammar that [`grammar`] defines. [`backend`]
//! evaluates the tree against the names bound in a session: it resolves
//! constants, variables and calls, and writes down the arithmetic to carry
//! out on a stack of numbers. The numbers themselves are left to the
//! caller.
//!
//! Beside the stages stand the facts proved of them. [`precedence`] shows
//! how operators associate and bind. [`semantics`] gives every tree its
//! value and shows that the steps of its evaluation compute that value.

pub mod backend;
pub mod grammar;
pub mod parser;
pub mod precedence;
pub mod semantics;
pub mod tokenizer;
