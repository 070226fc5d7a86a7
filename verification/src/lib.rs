//! Front end of a scanner generator in the lex family.
//!
//! The crate compiles the regular expressions of a lex specification's rules
//! section: a tokenizer for the rule-regex micro-language, a grammar parser
//! producing a typed syntax tree, a Thompson-construction translator into a
//! shared nondeterministic automaton, and a subset-construction stage that
//! determinizes, optionally minimizes, and resolves the winning rule per
//! accepting state. Line-oriented bookkeeping around the three sections of a
//! specification file lives in `section` and `structures`.

pub mod lex_dfa;
pub mod lex_nfa;
pub mod lex_re_parser;
pub mod lex_re_tokenizer;
pub mod section;
pub mod span;
pub mod structures;
