//! A pattern-matching engine.
//!
//! The pipeline runs strictly left to right: pattern text is tokenized into
//! a positioned atom sequence (`lexer`), parsed into an immutable syntax
//! tree with fixed precedence (`parser`), rewritten by a variable resolver
//! with cycle detection (`resolver`), compiled into an immutable
//! nondeterministic automaton by Thompson-style construction with explicit
//! unrolling of bounded repetition (`compiler`), and matched against input
//! text by frontier simulation without backtracking (`sm`).  `pipeline`
//! offers the whole chain as one call, `semantics` states which inputs a
//! resolved tree denotes, and `common` holds the error taxonomy.

pub mod common;
pub mod lexer;
pub mod parser;
pub mod pipeline;
pub mod resolver;
pub mod sm;
pub mod compiler;
pub mod semantics;
