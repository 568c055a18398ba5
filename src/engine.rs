pub mod naive;
pub mod vm;
pub mod correctness;
