//! A grammar compiler: from a grammar text, made of configuration
//! directives and productions with action code, to the tables of a
//! deterministic LALR(1) parser.
//!
//! The stages, in the order in which a text passes through them:
//!
//! - [`token`]: the text is split into tokens;
//! - [`syntax`]: the tokens are parsed into terms, directives and
//!   productions;
//! - [`config`], [`precedence`], [`placeholder`], [`grammar`]: the terms are
//!   folded into a grammar, and the grammar is validated;
//! - [`rules`]: the symbols are numbered and the rules listed;
//! - [`analysis`]: productive, nullable and reachable nonterminals and
//!   FIRST sets;
//! - [`items`], [`automaton`]: the canonical collection of LR(0) item sets;
//! - [`lookahead`]: the LALR(1) lookahead sets;
//! - [`table`], [`generator`]: the ACTION and GOTO tables.
//!
//! [`generator::compile`] runs them all.

pub mod error;
pub mod token;
pub mod syntax;
pub mod config;
pub mod precedence;
pub mod placeholder;
pub mod grammar;
pub mod rules;
pub mod bits;
pub mod analysis;
pub mod items;
pub mod automaton;
pub mod lookahead;
pub mod table;
pub mod generator;
