pub mod kth;

pub use kth::kth;
pub use kth::kth_with;
pub use kth::max;
pub use kth::max_with;
pub use kth::median;
pub use kth::median_with;
pub use kth::min;
pub use kth::min_with;
