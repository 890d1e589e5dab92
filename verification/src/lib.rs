pub mod ancestor;
pub mod block;
