pub mod abi;
pub mod align;
pub mod arch;
pub mod boot;
pub mod bytes;
pub mod cap;
pub mod ipc;
pub mod kernel;
pub mod mm;
pub mod objmap;
pub mod platform;
pub mod root;
pub mod sched;
pub mod seqs;
pub mod task;
