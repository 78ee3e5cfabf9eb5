//! An Aheui toolchain: compiler, optimizer, code generators and virtual machine.

pub mod assembly;
pub mod assembly_laws;
pub mod bytecode;
pub mod cli;
pub mod engine;
pub mod equivalence;
pub mod error;
pub mod grid;
pub mod ir;
pub mod num;
pub mod optimize;
pub mod passes;
pub mod semantics;
pub mod text;
pub mod unicode;
pub mod vm;

pub use crate::engine::{Aheui, Object};
