pub mod bfir;
pub mod bounds;
pub mod c;
pub mod execution;
pub mod fusion;
pub mod parser;
pub mod peephole;
pub mod soundness;
