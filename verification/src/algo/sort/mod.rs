pub mod merge;
pub mod quick;

pub use merge::merge_sort;
pub use merge::merge_sort_with;
pub use quick::quick_sort;
pub use quick::quick_sort_with;
