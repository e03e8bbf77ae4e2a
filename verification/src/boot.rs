//! What the kernel learns and makes before the first task runs.
pub mod entropy;
pub mod fdt;
pub mod image;
pub mod roottask;
pub mod sha256;
