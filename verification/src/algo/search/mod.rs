pub mod binary;
pub mod exponential;
pub mod fibonacci;
pub mod linear;

pub use binary::binary_search;
pub use binary::binary_search_with;
pub use exponential::exponential_search;
pub use exponential::exponential_search_with;
pub use fibonacci::fibonacci_search;
pub use fibonacci::fibonacci_search_with;
pub use linear::linear_search;
pub use linear::linear_search_with;
