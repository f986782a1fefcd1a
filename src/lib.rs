pub mod error;
pub mod inter;
pub mod ir;
pub mod jit;
