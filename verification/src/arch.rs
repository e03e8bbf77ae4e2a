//! What depends on the processor architecture.
pub mod earlycon;
pub mod hardening;
pub mod irq;
pub mod laws;
pub mod usermode;
pub mod vectors;
