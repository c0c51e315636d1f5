pub mod compare;
pub mod find;
pub mod search;
pub mod sort;
pub mod transform;
