//! The intermediate representation: a flat instruction list with a macro
//! table, and its generation from a syntax tree.

pub mod instr;
pub mod bracket;
pub mod lower;
pub mod dump;

pub use lower::gen_ir;
pub use dump::dump_ir;
