//! Physical memory, translation tables and address spaces.
pub mod effects;
pub mod laws;
pub mod lookup;
pub mod mem;
pub mod paging;
pub mod tree;
pub mod user;
pub mod walk;
