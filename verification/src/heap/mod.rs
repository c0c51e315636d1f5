pub mod binomial;
pub mod fibonacci;
pub mod minmax;

pub use binomial::BinomialHeap;
pub use fibonacci::FibonacciHeap;
pub use fibonacci::InternalTree;
pub use minmax::MinMax;
