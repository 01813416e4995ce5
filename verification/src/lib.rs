//! A table-driven lexer for a markdown-like markup language.
//!
//! The crate is layered: character classes (`char_class`), an algebra of
//! NFA fragments (`nfa`) with a subset-construction compiler
//! (`nfa::compile`), a deterministic engine with panic-mode recovery and
//! line-context tracking (`dfa`), and a pull-based driver that turns a
//! character stream into introspectable tokens (`lexical`). The shape of a
//! token is in `token_trait`, the kinds of the markup language in `tokens`,
//! and kinds declared as data in `schema`.

pub mod char_class;
pub mod dfa;
pub mod lexical;
pub mod nfa;
pub mod schema;
pub mod token_trait;
pub mod tokens;
pub mod utils;
pub mod wraps;
