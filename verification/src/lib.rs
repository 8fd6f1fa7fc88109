//! A verified interpreter for a minimal, parameterizable token-based
//! language: a tokenizer/parser that builds an instruction sequence with a
//! matching jump table, a peephole compressor that merges runs of identical
//! arithmetic and pointer-movement instructions, and an execution engine
//! that walks either instruction form against a linear byte tape.

pub mod code;
pub mod compress;
pub mod exec;
pub mod language;
pub mod laws;
pub mod ops;
pub mod parse;
pub mod state;

pub use code::Code;
pub use compress::compress;
pub use exec::run;
pub use exec::RunOutcome;
pub use exec::Runnable;
pub use language::Language;
pub use ops::CompressedOp;
pub use ops::Error;
pub use ops::Op;
pub use parse::parse;
pub use state::Environment;
