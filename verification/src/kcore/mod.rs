//! Kernel core services: bringing up the CPUs and putting threads to sleep.
pub mod sched;
pub mod smp;
