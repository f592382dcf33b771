//! Deadfish: a four-command accumulator machine, and synthesis of short
//! programs that drive its accumulator from one value to another.
//!
//! The accumulator is a 32-bit word. After every command it is reset to zero
//! when it equals 256 or the all-ones pattern (-1 when read as signed).

pub mod bfs;
pub mod builder;
pub mod heuristic;
pub mod inst;
pub mod ir;
pub mod text;
pub mod value;

pub use bfs::BfsEncoder;
pub use builder::Builder;
pub use heuristic::encode_to_0;
pub use inst::Inst;
pub use ir::Ir;
pub use value::{Offset, Value};
