//! An Earley recognizer, parse-forest walker and semantic evaluator for
//! arbitrary context-free grammars, with the proofs that the recognizer
//! accepts exactly the sentences of the grammar and that the walker
//! returns exactly the parses that apply no rule within itself; and a
//! small recursive-descent parser for the Lox language.
//!
//! - [`pattern`], [`grammar`], [`order`], [`equality`], [`nullable`],
//!   [`epsilon`]: symbols, rules, the grammar builder, and the symbols that
//!   derive the empty string.
//! - [`chart`], [`bound`], [`recognizer`], [`parser`]: Earley items, state
//!   sets, and the parser that fills them.
//! - [`derivation`], [`deduction`]: what the state sets mean.
//! - [`tree`], [`forest`], [`trees`], [`evaler`]: syntax trees, their
//!   enumeration, and the evaluation of actions over them.
//! - [`scanner`], [`tokenizers`], [`text`]: token cursors and text helpers.
//! - [`lox_scanner`], [`lox_parser`], [`lox_model`], [`lox_forms`],
//!   [`lox_unique`]: the tokens and the parser of Lox, what it makes of
//!   tokens step by step, with the message of the first failure, and the
//!   proofs that it accepts exactly the programs of its grammar and that
//!   the grammar is unambiguous.
pub mod bound;
pub mod chart;
pub mod deduction;
pub mod derivation;
pub mod epsilon;
pub mod equality;
pub mod evaler;
pub mod forest;
pub mod grammar;
pub mod lox_forms;
pub mod lox_model;
pub mod lox_parser;
pub mod lox_scanner;
pub mod lox_unique;
pub mod nullable;
pub mod order;
pub mod parser;
pub mod pattern;
pub mod recognizer;
pub mod scanner;
pub mod text;
pub mod tokenizers;
pub mod tree;
pub mod trees;
