//! Lowers type-checked C functions to Cranelift's intermediate language.
pub mod ast;
pub mod backend;
pub mod code;
pub mod ir;
pub mod laws;
pub mod lower;
pub mod meaning;
pub mod shape;
pub mod simulation;
pub mod types;
