//! Pointer authentication, branch targets and the ban on accidental user access.
//!
//! What the processor has is read from its feature registers. Where it has pointer
//! authentication the keys are set first and the function is turned on after.
use vstd::prelude::*;

verus! {

/// What the processor offers.
#[derive(Clone, Copy, Debug, PartialEq, Eq, Structural)]
pub struct Hardening {
    /// Pointer authentication.
    pub pac: bool,
    /// Branch target identification.
    pub bti: bool,
    /// Privileged access never.
    pub pan: bool,
    /// Address translation that honours it.
    pub pan2: bool,
}

/// System control bits that turn pointer authentication on, for the instruction keys A
/// and B and the data keys A and B.
pub const SCTLR_PAC: u64 = 0xC800_2000;

/// The register values to set, and what the processor offers.
///
/// `keys` are the values of the key registers, in the order instruction A, instruction
/// B, data A, data B and generic, two words each.
pub struct HardeningPlan {
    pub offers: Hardening,
    /// The keys for addresses, where the processor has them.
    pub addr_keys: Option<[u64; 8]>,
    /// The generic key, where the processor has it too.
    pub generic_key: Option<[u64; 2]>,
    /// The system control value to set after the keys.
    pub sctlr: Option<u64>,
    /// Whether to set the processor state that denies the kernel user pages.
    pub set_pan: bool,
}

/// A field of four bits.
pub open spec fn field(reg: u64, shift: u64) -> u64 {
    (reg >> shift) & 0xF
}

/// Whether the processor authenticates addresses, with either algorithm.
pub open spec fn has_pac(isar1: u64) -> bool {
    field(isar1, 4) != 0 || field(isar1, 8) != 0
}

/// Whether the processor authenticates data, with either algorithm.
pub open spec fn has_generic_pac(isar1: u64) -> bool {
    field(isar1, 24) != 0 || field(isar1, 28) != 0
}

impl HardeningPlan {
    /// Whether this is the plan for a processor with these registers: the keys are set
    /// where it can use them, and only then the function is turned on. User pages are
    /// denied to the kernel wherever the processor can deny them.
    pub open spec fn is_plan(
        &self,
        keys: Seq<u64>,
        isar1: u64,
        pfr1: u64,
        mmfr1: u64,
        sctlr: u64,
    ) -> bool {
        &&& self.offers == (Hardening {
            pac: has_pac(isar1),
            bti: field(pfr1, 0) != 0,
            pan: field(mmfr1, 20) != 0,
            pan2: field(mmfr1, 20) >= 2,
        })
        &&& match self.addr_keys {
            Some(k) => has_pac(isar1) && k@ == keys.take(8),
            None => !has_pac(isar1),
        }
        &&& match self.generic_key {
            Some(k) => has_pac(isar1) && has_generic_pac(isar1) && k@ == keys.skip(8),
            None => !(has_pac(isar1) && has_generic_pac(isar1)),
        }
        &&& self.sctlr == (if has_pac(isar1) {
            Some(sctlr | SCTLR_PAC)
        } else {
            None
        })
        &&& self.set_pan == (field(mmfr1, 20) != 0)
    }
}

/// One step of the generator: the next state.
pub open spec fn next_state(state: u64) -> u64 {
    state.wrapping_add(0x9E37_79B9_7F4A_7C15)
}

/// The number that a state gives.
pub open spec fn mixed(state: u64) -> u64 {
    let y = (state ^ (state >> 30)).wrapping_mul(0xBF58_476D_1CE4_E5B9);
    let z = (y ^ (y >> 27)).wrapping_mul(0x94D0_49BB_1331_11EB);
    z ^ (z >> 31)
}

/// The state after `n` steps.
pub open spec fn state_after(state: u64, n: nat) -> u64
    decreases n,
{
    if n == 0 {
        state
    } else {
        next_state(state_after(state, (n - 1) as nat))
    }
}

/// The next number of the SplitMix64 generator.
pub fn splitmix64(state: &mut u64) -> (r: u64)
    ensures
        *final(state) == next_state(*old(state)),
        r == mixed(next_state(*old(state))),
{
    *state = state.wrapping_add(0x9E37_79B9_7F4A_7C15);
    let x = *state;
    let y = (x ^ (x >> 30)).wrapping_mul(0xBF58_476D_1CE4_E5B9);
    let z = (y ^ (y >> 27)).wrapping_mul(0x94D0_49BB_1331_11EB);
    z ^ (z >> 31)
}

/// Key words from nothing but the counter of the processor, for want of better.
pub fn counter_keys(cntpct: u64) -> (r: [u64; 10])
    ensures
        forall|i: int|
            0 <= i < 10 ==> #[trigger] r@[i] == mixed(
                state_after(cntpct ^ 0xA076_1D64_78BD_642F, (i + 1) as nat),
            ),
{
    let mut seed = cntpct ^ 0xA076_1D64_78BD_642F;
    let ghost first = seed;
    let mut keys: [u64; 10] = [0u64;10];
    let mut i: usize = 0;
    while i < 10
        invariant
            i <= 10,
            seed == state_after(first, i as nat),
            forall|j: int|
                0 <= j < i ==> #[trigger] keys@[j] == mixed(state_after(first, (j + 1) as nat)),
        decreases 10 - i,
    {
        keys[i] = splitmix64(&mut seed);
        i += 1;
    }
    keys
}

/// Decides what to turn on, from the feature registers and the system control register
/// as they are.
pub fn enable(keys: &[u64; 10], isar1: u64, pfr1: u64, mmfr1: u64, sctlr: u64) -> (r: HardeningPlan)
    ensures
        r.is_plan(keys@, isar1, pfr1, mmfr1, sctlr),
{
    let pac_addr = (isar1 >> 4) & 0xF != 0 || (isar1 >> 8) & 0xF != 0;
    let pac_generic = (isar1 >> 24) & 0xF != 0 || (isar1 >> 28) & 0xF != 0;
    let bti = (pfr1 >> 0) & 0xF != 0;
    let pan = (mmfr1 >> 20) & 0xF;
    let offers = Hardening { pac: pac_addr, bti, pan: pan != 0, pan2: pan >= 2 };
    if !pac_addr {
        return HardeningPlan {
            offers,
            addr_keys: None,
            generic_key: None,
            sctlr: None,
            set_pan: pan != 0,
        };
    }
    let addr: [u64; 8] = [
        keys[0],
        keys[1],
        keys[2],
        keys[3],
        keys[4],
        keys[5],
        keys[6],
        keys[7],
    ];
    assert(addr@ =~= keys@.take(8));
    let generic_key = if pac_generic {
        let generic: [u64; 2] = [keys[8], keys[9]];
        assert(generic@ =~= keys@.skip(8));
        Some(generic)
    } else {
        None
    };
    HardeningPlan {
        offers,
        addr_keys: Some(addr),
        generic_key,
        sctlr: Some(sctlr | SCTLR_PAC),
        set_pan: pan != 0,
    }
}

} // verus!
