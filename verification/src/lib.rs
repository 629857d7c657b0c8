//! A verified interpreter for Brainfuck: a lexer that turns source text into
//! an optimized program tree, and an evaluator that runs the tree on a
//! wrap-around tape of byte cells.

pub mod error;
pub mod interpreter;
pub mod lexer;
pub mod lexer_proofs;
pub mod machine;
pub mod machine_proofs;
pub mod optimizer_proofs;
pub mod token;

pub use interpreter::interpret;
pub use lexer::lex;
pub use token::{Block, Token};
