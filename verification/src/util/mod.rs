pub mod bound;
pub mod interval;
pub mod items;
pub mod order;
pub mod sorted;

pub use bound::Bound;
pub use interval::Interval;
pub use interval::InvalidInterval;
pub use interval::Span;
