//! A lexer generator: regular-expression rules are compiled to a
//! nondeterministic finite automaton, converted to a deterministic one by
//! subset construction, and driven over input text to produce tokens under a
//! longest-match policy.

mod dfa;
mod errors;
mod lex4oat;
mod liblex4oat;
mod nfa;
mod node;
mod rules;
mod state_set;
mod text;

pub use dfa::Dfa;
pub use errors::LexError;
pub use lex4oat::Lex4Oat;
pub use liblex4oat::LibLex4Oat;
pub use nfa::Nfa;
pub use node::Edge;
pub use node::Label;
pub use node::Node;
