//! The machines the kernel runs on.
use vstd::prelude::*;

verus! {

/// A supported machine.
///
/// It decides the page size, the encodings that go with it, and where the console
/// and the interrupt controller are.
#[derive(Clone, Copy, Debug, PartialEq, Eq, Structural)]
pub enum Platform {
    /// The QEMU `virt` machine: 4 KiB pages, a PL011 console, a GICv3.
    Virt,
    /// Apple Silicon: 16 KiB pages, an S5L console, the timer as a fast interrupt.
    Apple,
}

impl Platform {
    /// The page size.
    pub open spec fn page_size(self) -> int {
        match self {
            Platform::Virt => 4096,
            Platform::Apple => 16384,
        }
    }

    /// The number of entries of a translation table.
    pub open spec fn table_len(self) -> int {
        match self {
            Platform::Virt => 512,
            Platform::Apple => 2048,
        }
    }

    /// The page size.
    pub fn granule(self) -> (r: u64)
        ensures
            r == self.page_size(),
    {
        match self {
            Platform::Virt => 4096,
            Platform::Apple => 16384,
        }
    }

    /// The number of entries of a translation table.
    pub fn entries(self) -> (r: u64)
        ensures
            r == self.table_len(),
    {
        match self {
            Platform::Virt => 512,
            Platform::Apple => 2048,
        }
    }
}

} // verus!
