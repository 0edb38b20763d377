//! A hand-written bottom-up parsing engine for small, keyword-driven
//! grammars.
//!
//! A grammar is a list of rules, the first of which is the start rule. A
//! right-hand side is a list of symbol specifiers: `NAME` stands for any
//! terminal or nonterminal of that name, `NAME(value)` for the terminal of
//! that name with exactly that value, and `$` for the end of the input.
//!
//! [`parse_table::ParseTable`] turns the rules into the states of an
//! automaton with a shift or a reduction for each state and symbol;
//! [`parser::Parser`] drives a list of tokens through that table and
//! returns the parse tree. [`tokenizer::Tokenizer`] makes the tokens from
//! a text, and [`thesaurus::Thesaurus`] keeps synonyms of words.
//!
//! The module [`automaton`] says what it means for a table to be the
//! automaton of a grammar, and [`determinacy`] shows that this leaves
//! nothing open. [`derivation`] shows what a successful parse is worth,
//! and [`completeness`] which sentences are parsed. The modules
//! [`closure`], [`construction`] and [`finite`] hold the proofs behind the
//! builder.

pub mod automaton;
pub mod closure;
pub mod completeness;
pub mod construction;
pub mod derivation;
pub mod determinacy;
pub mod finite;
pub mod listing;
pub mod parse_table;
pub mod parser;
pub mod selection;
pub mod text;
pub mod thesaurus;
pub mod tokenizer;
