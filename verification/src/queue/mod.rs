pub mod circular;

pub use circular::Circular;
pub use circular::CircularIterator;
