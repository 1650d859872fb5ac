//! The virtual machine: named values, and the execution of programs against
//! them.

pub mod env;
pub mod semantics;
pub mod machine;

pub use machine::Vm;
