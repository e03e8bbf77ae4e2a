//! The root task: the first user task, which checks the kernel from outside.
//!
//! It reads its capabilities from the boot information page and goes through a script:
//! objects and mappings, tasks, messages, faults and preemption, what must work and what
//! must be refused. The first answer that is not as it should be ends it.
pub mod children;
pub mod info;
pub mod laws;
pub mod run;
pub mod script;
pub mod speech;
