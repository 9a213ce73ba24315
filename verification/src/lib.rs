//! An interpreter for a language of eight symbols that works on a tape of
//! bytes: a parser from source text to an instruction forest, and an
//! evaluator of that forest.

pub mod agreement;
pub mod evaluator;
pub mod grammar;
pub mod instruction;
pub mod machine;
pub mod parser;
pub mod semantics;

pub use evaluator::{perform, run};
pub use instruction::Instruction;
pub use machine::{Machine, Step};
pub use parser::{parse, ParseError};
pub use semantics::RunError;
