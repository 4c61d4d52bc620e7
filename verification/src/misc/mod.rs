//! Kernel parameters and the byte-string primitives of the kernel.
pub mod kparam;
pub mod string;
