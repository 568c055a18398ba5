pub mod ast;
pub mod engine;
