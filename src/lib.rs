//! A simulator for RISC16, a 16-bit teaching machine: an assembler from
//! source text to instructions and labels, and an engine that runs them on
//! eight registers and 256 words of memory, once or for a batch of initial
//! register sets.
pub mod loader;
pub mod machine;
pub mod num;
pub mod program;
pub mod reload;
pub mod session;
pub mod text;

pub use session::main_from_str;
