pub mod partition;

pub use partition::partition;
pub use partition::partition_with;
