pub mod avl;
pub mod balance;
pub mod binomial;
pub mod interval;
pub mod keyed;
pub mod rb;

pub use avl::AVL;
pub use binomial::BinomialTree;
pub use interval::IntervalTree;
pub use rb::RedBlack;
