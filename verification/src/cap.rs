//! Capabilities.
//!
//! All physical memory that the kernel does not keep for itself starts out as
//! untyped capabilities of the root task. Retyping carves kernel objects out of
//! an untyped capability, at a watermark that only moves forward. This module is
//! pure bookkeeping: it touches no memory.
use vstd::prelude::*;

use crate::align;

verus! {

/// Number of slots of the root capability node.
pub const CNODE_SLOTS: usize = 32;

/// A range of physical memory.
#[derive(Clone, Copy, Debug, PartialEq, Eq, Structural)]
pub struct PhysRegion {
    pub base: u64,
    pub size: u64,
}

impl PhysRegion {
    /// Whether the region is not empty and ends within the address range.
    pub open spec fn valid(self) -> bool {
        self.size != 0 && self.base + self.size <= u64::MAX
    }

    /// Whether the address lies in the region.
    pub open spec fn has(self, p: int) -> bool {
        self.base <= p < self.base + self.size
    }

    /// The first address after the region.
    pub fn end(&self) -> (r: u64)
        requires
            self.base + self.size <= u64::MAX,
        ensures
            r == self.base + self.size,
    {
        self.base + self.size
    }

    /// Whether the region is not empty and ends within the address range.
    pub fn is_valid(&self) -> (r: bool)
        ensures
            r == self.valid(),
    {
        self.size != 0 && self.base.checked_add(self.size).is_some()
    }
}

/// A capability.
#[derive(Clone, Copy, Debug, PartialEq, Eq, Structural)]
pub enum Cap {
    /// The null capability.
    Empty,
    /// The control block of the root task.
    RootTcb,
    /// An address space, by its root translation table.
    AddrSpace { root_pa: u64 },
    /// The right to write to the debug console.
    Console,
    /// A task control block.
    Tcb { base: u64 },
    /// Physical memory that has not become objects yet.
    ///
    /// The first `used` bytes are spent.
    Untyped { base: u64, size: u64, used: u64 },
    /// A frame that can be mapped into user space.
    Frame { base: u64, mapped: bool },
    /// An intermediate page table of a user address space.
    PageTable { base: u64, installed: bool },
    /// A synchronous IPC endpoint.
    Endpoint { base: u64 },
}

impl Cap {
    /// Whether an untyped capability stays within the address range and has not
    /// spent more than it holds. Every other capability is valid.
    pub open spec fn valid(self) -> bool {
        match self {
            Cap::Untyped { base, size, used } => base + size <= u64::MAX && used <= size,
            _ => true,
        }
    }

    /// Whether this is an untyped capability that holds the address, spent or not.
    pub open spec fn spans(self, p: int) -> bool {
        match self {
            Cap::Untyped { base, size, .. } => base <= p < base + size,
            _ => false,
        }
    }
}

/// Kinds of objects that retyping makes.
#[derive(Clone, Copy, Debug, PartialEq, Eq, Structural)]
pub enum ObjKind {
    Frame,
    PageTable,
    Tcb,
    Endpoint,
}

impl ObjKind {
    /// The capability to a fresh object of this kind at `base`.
    pub open spec fn fresh(self, base: u64) -> Cap {
        match self {
            ObjKind::Frame => Cap::Frame { base, mapped: false },
            ObjKind::PageTable => Cap::PageTable { base, installed: false },
            ObjKind::Tcb => Cap::Tcb { base },
            ObjKind::Endpoint => Cap::Endpoint { base },
        }
    }

    /// The capability to a fresh object of this kind at `base`.
    pub fn cap(self, base: u64) -> (r: Cap)
        ensures
            r == self.fresh(base),
    {
        match self {
            ObjKind::Frame => Cap::Frame { base, mapped: false },
            ObjKind::PageTable => Cap::PageTable { base, installed: false },
            ObjKind::Tcb => Cap::Tcb { base },
            ObjKind::Endpoint => Cap::Endpoint { base },
        }
    }
}

/// Why the first capabilities could not be made.
#[derive(Clone, Copy, Debug, PartialEq, Eq, Structural)]
pub enum CapError {
    OutOfSlots,
    BadRegion,
}

/// Why an object could not be carved.
#[derive(Clone, Copy, Debug, PartialEq, Eq, Structural)]
pub enum RetypeError {
    /// The slot number is out of range.
    BadSlot,
    /// The slot does not hold an untyped capability.
    NotUntyped,
    /// Not enough room is left in the untyped capability.
    Exhausted,
    /// The capability node is full.
    OutOfSlots,
    /// The memory of the object could not be prepared.
    PrepFailed,
}

/// The capability in a slot, or none where the slot number is out of range.
pub open spec fn lookup(caps: Seq<Cap>, slot: int) -> Option<Cap> {
    if 0 <= slot < caps.len() {
        Some(caps[slot])
    } else {
        None
    }
}

/// Where retyping the capability in `slot` would carve, or why it cannot.
pub open spec fn carve_site(caps: Seq<Cap>, slot: int, granule: int) -> Result<u64, RetypeError> {
    match lookup(caps, slot) {
        None => Err(RetypeError::BadSlot),
        Some(Cap::Untyped { base, size, used }) => {
            let site = align::up(base + used, granule);
            if caps.len() == CNODE_SLOTS {
                Err(RetypeError::OutOfSlots)
            } else if site + granule > base + size {
                Err(RetypeError::Exhausted)
            } else {
                Ok(site as u64)
            }
        },
        Some(_) => Err(RetypeError::NotUntyped),
    }
}

/// The capabilities after an object has been carved at `site`.
pub open spec fn carved(
    caps: Seq<Cap>,
    slot: int,
    kind: ObjKind,
    granule: int,
    site: u64,
) -> Seq<Cap> {
    match caps[slot] {
        Cap::Untyped { base, size, used } => caps.update(
            slot,
            Cap::Untyped { base, size, used: (site + granule - base) as u64 },
        ).push(kind.fresh(site)),
        _ => caps,
    }
}

/// The root capability node.
pub struct CNode {
    slots: [Cap; CNODE_SLOTS],
    used: usize,
}

impl CNode {
    /// The capabilities in the filled slots.
    pub closed spec fn view(&self) -> Seq<Cap> {
        self.slots@.subrange(0, self.used as int)
    }

    pub closed spec fn rep(&self) -> bool {
        self.used <= CNODE_SLOTS
    }

    pub open spec fn wf(&self) -> bool {
        &&& self.rep()
        &&& self@.len() <= CNODE_SLOTS
        &&& forall|i: int| 0 <= i < self@.len() ==> (#[trigger] self@[i]).valid()
    }

    /// A node in which no slot is filled.
    pub fn new() -> (r: Self)
        ensures
            r.wf(),
            r@ == Seq::<Cap>::empty(),
    {
        CNode { slots: [Cap::Empty;CNODE_SLOTS], used: 0 }
    }

    /// The filled slots.
    pub fn slots(&self) -> (r: &[Cap])
        requires
            self.wf(),
        ensures
            r@ == self@,
    {
        &self.slots[0..self.used]
    }

    /// The capability in a slot, or none where the slot number is out of range.
    pub fn cap(&self, slot: usize) -> (r: Option<Cap>)
        requires
            self.wf(),
        ensures
            r == lookup(self@, slot as int),
    {
        if slot < self.used {
            Some(self.slots[slot])
        } else {
            None
        }
    }

    /// The capability that a slot number in a register names.
    pub fn cap_at(&self, slot: u64) -> (r: Option<Cap>)
        requires
            self.wf(),
        ensures
            r == lookup(self@, slot as int),
    {
        if slot < self.used as u64 {
            Some(self.slots[slot as usize])
        } else {
            None
        }
    }

    /// The capability in a slot, to be changed in place.
    pub fn cap_mut(&mut self, slot: usize) -> (r: Option<&mut Cap>)
        requires
            old(self).wf(),
        ensures
            match r {
                Some(c) => {
                    &&& slot < old(self)@.len()
                    &&& *c == old(self)@[slot as int]
                    &&& final(self)@ == old(self)@.update(slot as int, *final(c))
                    &&& (*final(c)).valid() ==> final(self).wf()
                },
                None => slot >= old(self)@.len() && *final(self) == *old(self),
            },
    {
        if slot >= self.used {
            return None;
        }
        let ghost used = self.used;
        let ghost before = self.slots@;
        let r = &mut self.slots[slot];
        proof {
            let after = before.update(slot as int, *final(r));
            assert(after.subrange(0, used as int) =~= before.subrange(0, used as int).update(
                slot as int,
                *final(r),
            ));
        }
        Some(r)
    }

    /// Fills the next slot.
    pub(crate) fn push(&mut self, cap: Cap) -> (r: Result<(), CapError>)
        requires
            old(self).wf(),
            cap.valid(),
        ensures
            final(self).wf(),
            match r {
                Ok(_) => old(self)@.len() < CNODE_SLOTS && final(self)@ == old(self)@.push(cap),
                Err(e) => {
                    &&& old(self)@.len() == CNODE_SLOTS
                    &&& e == CapError::OutOfSlots
                    &&& *final(self) == *old(self)
                },
            },
    {
        if self.used == CNODE_SLOTS {
            return Err(CapError::OutOfSlots);
        }
        self.slots[self.used] = cap;
        self.used += 1;
        assert(self@ =~= old(self)@.push(cap));
        Ok(())
    }

    /// Where retyping the capability in `slot` would carve, or why it cannot.
    ///
    /// Nothing changes yet: [`CNode::commit`] records the object once its memory
    /// is ready.
    pub fn site(&self, slot: u64, granule: u64) -> (r: Result<u64, RetypeError>)
        requires
            self.wf(),
            granule > 0,
        ensures
            r == carve_site(self@, slot as int, granule as int),
            r is Ok ==> r->Ok_0 + granule <= u64::MAX,
    {
        let (base, size, used) = match self.cap_at(slot) {
            None => {
                return Err(RetypeError::BadSlot);
            },
            Some(Cap::Untyped { base, size, used }) => (base, size, used),
            Some(_) => {
                return Err(RetypeError::NotUntyped);
            },
        };
        assert(self@[slot as int].valid());
        if self.used == CNODE_SLOTS {
            return Err(RetypeError::OutOfSlots);
        }
        let mark = base + used;
        proof {
            align::lemma_up(mark as int, granule as int);
        }
        let site = match align::align_up(mark, granule) {
            Some(site) => site,
            None => {
                return Err(RetypeError::Exhausted);
            },
        };
        let end = match site.checked_add(granule) {
            Some(end) => end,
            None => {
                return Err(RetypeError::Exhausted);
            },
        };
        if end > base + size {
            return Err(RetypeError::Exhausted);
        }
        Ok(site)
    }

    /// Records the object that was carved at the site that [`CNode::site`] gave,
    /// and gives its slot.
    pub fn commit(&mut self, slot: u64, kind: ObjKind, granule: u64, site: u64) -> (r: usize)
        requires
            old(self).wf(),
            granule > 0,
            carve_site(old(self)@, slot as int, granule as int) == Ok::<u64, RetypeError>(site),
        ensures
            final(self).wf(),
            final(self)@ == carved(old(self)@, slot as int, kind, granule as int, site),
            r == old(self)@.len(),
    {
        let new_slot = self.used;
        if let Cap::Untyped { base, size, used } = self.slots[slot as usize] {
            assert(self@[slot as int].valid());
            proof {
                align::lemma_up(base + used, granule as int);
            }
            self.slots[slot as usize] = Cap::Untyped { base, size, used: site + granule - base };
            assert(self@ =~= old(self)@.update(
                slot as int,
                Cap::Untyped { base, size, used: (site + granule - base) as u64 },
            ));
        }
        let _ = self.push(kind.cap(site));
        new_slot
    }

    /// Carves an object out of the untyped capability in `slot` and gives the
    /// slot of its capability.
    ///
    /// `granule` is the size and the alignment of the object. Once everything
    /// else is in order, `prep` prepares the memory at the site; only where it
    /// answers true does the node change.
    pub fn retype<F: FnOnce(u64) -> bool>(
        &mut self,
        slot: usize,
        kind: ObjKind,
        granule: u64,
        prep: F,
    ) -> (r: Result<usize, RetypeError>)
        requires
            old(self).wf(),
            align::is_pow2(granule),
            carve_site(old(self)@, slot as int, granule as int) matches Ok(site)
                ==> call_requires(prep, (site,)),
        ensures
            final(self).wf(),
            match carve_site(old(self)@, slot as int, granule as int) {
                Err(e) => r == Err::<usize, RetypeError>(e) && final(self)@ == old(self)@,
                Ok(site) => {
                    ||| {
                        &&& call_ensures(prep, (site,), true)
                        &&& r == Ok::<usize, RetypeError>(old(self)@.len() as usize)
                        &&& final(self)@ == carved(
                            old(self)@,
                            slot as int,
                            kind,
                            granule as int,
                            site,
                        )
                    }
                    ||| {
                        &&& call_ensures(prep, (site,), false)
                        &&& r == Err::<usize, RetypeError>(RetypeError::PrepFailed)
                        &&& final(self)@ == old(self)@
                    }
                },
            },
    {
        let site = match self.site(slot as u64, granule) {
            Ok(site) => site,
            Err(e) => {
                return Err(e);
            },
        };
        if !prep(site) {
            return Err(RetypeError::PrepFailed);
        }
        Ok(self.commit(slot as u64, kind, granule, site))
    }
}

/// Whether some reserved region holds the address.
pub open spec fn is_reserved(reserved: Seq<PhysRegion>, p: int) -> bool {
    exists|i: int| 0 <= i < reserved.len() && (#[trigger] reserved[i]).has(p)
}

/// The maximal runs of addresses from `lo` to `hi` that no reserved region holds,
/// in ascending order, each as its first address and the address after its last.
pub open spec fn free_runs(lo: int, hi: int, reserved: Seq<PhysRegion>) -> Seq<(int, int)>
    decreases hi - lo,
{
    if hi <= lo {
        Seq::empty()
    } else {
        let runs = free_runs(lo, hi - 1, reserved);
        if is_reserved(reserved, hi - 1) {
            runs
        } else if runs.len() > 0 && runs.last().1 == hi - 1 {
            runs.drop_last().push((runs.last().0, hi))
        } else {
            runs.push((hi - 1, hi))
        }
    }
}

/// The untyped capability to a run of addresses of which nothing is spent.
pub open spec fn untyped(run: (int, int)) -> Cap {
    Cap::Untyped { base: run.0 as u64, size: (run.1 - run.0) as u64, used: 0 }
}

/// Whether every region is valid.
pub open spec fn all_valid(regions: Seq<PhysRegion>) -> bool {
    forall|i: int| 0 <= i < regions.len() ==> (#[trigger] regions[i]).valid()
}

/// Every run is made of free addresses and lies between the bounds.
proof fn lemma_runs_free(lo: int, hi: int, reserved: Seq<PhysRegion>)
    ensures
        forall|i: int|
            #![trigger free_runs(lo, hi, reserved)[i]]
            0 <= i < free_runs(lo, hi, reserved).len() ==> {
                let r = free_runs(lo, hi, reserved)[i];
                &&& lo <= r.0 < r.1 <= hi
                &&& !is_reserved(reserved, r.1 - 1)
            },
    decreases hi - lo,
{
    if lo < hi {
        lemma_runs_free(lo, hi - 1, reserved);
        let before = free_runs(lo, hi - 1, reserved);
        let runs = free_runs(lo, hi, reserved);
        assert forall|i: int| 0 <= i < runs.len() implies lo <= (#[trigger] runs[i]).0 < runs[i].1
            <= hi && !is_reserved(reserved, runs[i].1 - 1) by {
            if i < before.len() {
                assert(lo <= before[i].0 < before[i].1 <= hi - 1);
            }
        }
    }
}

/// Past a boundary, a stretch of free addresses is one more run.
proof fn lemma_runs_free_stretch(lo: int, c: int, b: int, reserved: Seq<PhysRegion>)
    requires
        lo <= c < b,
        c == lo || is_reserved(reserved, c - 1),
        forall|p: int| c <= p < b ==> !is_reserved(reserved, p),
    ensures
        free_runs(lo, b, reserved) == free_runs(lo, c, reserved).push((c, b)),
    decreases b - c,
{
    lemma_runs_free(lo, c, reserved);
    let runs = free_runs(lo, b - 1, reserved);
    if b == c + 1 {
        if runs.len() > 0 {
            assert(runs.last() == runs[runs.len() - 1]);
        }
    } else {
        lemma_runs_free_stretch(lo, c, b - 1, reserved);
        assert(runs.drop_last() =~= free_runs(lo, c, reserved));
    }
}

/// A stretch of reserved addresses adds no run.
proof fn lemma_runs_reserved_stretch(lo: int, c: int, b: int, reserved: Seq<PhysRegion>)
    requires
        lo <= c <= b,
        forall|p: int| c <= p < b ==> is_reserved(reserved, p),
    ensures
        free_runs(lo, b, reserved) == free_runs(lo, c, reserved),
    decreases b - c,
{
    if c < b {
        lemma_runs_reserved_stretch(lo, c, b - 1, reserved);
    }
}

/// The runs that end before a reserved address are the first of all runs.
proof fn lemma_runs_prefix(lo: int, a: int, hi: int, reserved: Seq<PhysRegion>)
    requires
        lo <= a <= hi,
        a == hi || is_reserved(reserved, a),
    ensures
        free_runs(lo, a, reserved).len() <= free_runs(lo, hi, reserved).len(),
        free_runs(lo, hi, reserved).take(free_runs(lo, a, reserved).len() as int) == free_runs(
            lo,
            a,
            reserved,
        ),
    decreases hi - a,
{
    let first = free_runs(lo, a, reserved);
    let all = free_runs(lo, hi, reserved);
    if a < hi {
        lemma_runs_reserved_stretch(lo, a, a + 1, reserved);
        if a + 1 < hi {
            let rest = free_runs(lo, hi - 1, reserved);
            lemma_runs_prefix(lo, a, hi - 1, reserved);
            lemma_runs_free(lo, a, reserved);
            assert(rest.take(first.len() as int) =~= first);
            if rest.len() == first.len() {
                assert(rest =~= first);
            }
            assert(all.take(first.len() as int) =~= first) by {
                assert forall|i: int| 0 <= i < first.len() implies all[i] == first[i] by {
                    assert(rest.take(first.len() as int)[i] == rest[i]);
                }
            }
        } else {
            assert(all.take(first.len() as int) =~= first);
        }
    } else {
        assert(all.take(first.len() as int) =~= first);
    }
}

/// Gives the node an untyped capability for each free run of a memory region.
fn push_untypeds(cnode: &mut CNode, m: PhysRegion, reserved: &[PhysRegion]) -> (r: Result<
    (),
    CapError,
>)
    requires
        old(cnode).wf(),
        m.valid(),
    ensures
        final(cnode).wf(),
        ({
            let caps = old(cnode)@;
            let fresh = free_runs(m.base as int, m.base + m.size, reserved@).map_values(
                |run: (int, int)| untyped(run),
            );
            let room = CNODE_SLOTS - caps.len();
            if !all_valid(reserved@) {
                r == Err::<(), CapError>(CapError::BadRegion) && final(cnode)@ == caps
            } else if fresh.len() <= room {
                r == Ok::<(), CapError>(()) && final(cnode)@ == caps + fresh
            } else {
                &&& r == Err::<(), CapError>(CapError::OutOfSlots)
                &&& final(cnode)@ == caps + fresh.take(room)
            }
        }),
{
    let end = m.end();
    let ghost caps = cnode@;
    let ghost lo = m.base as int;
    let ghost make = |run: (int, int)| untyped(run);
    let ghost all = free_runs(lo, end as int, reserved@);
    let mut cursor = m.base;
    assert(cnode@ =~= caps + free_runs(lo, lo, reserved@).map_values(make));
    loop
        invariant
            lo == m.base,
            end == m.base + m.size,
            make == (|run: (int, int)| untyped(run)),
            all == free_runs(lo, end as int, reserved@),
            lo <= cursor < end,
            cnode.wf(),
            caps.len() <= CNODE_SLOTS,
            cursor == m.base || is_reserved(reserved@, cursor - 1),
            cnode@ == caps + free_runs(lo, cursor as int, reserved@).map_values(make),
            cursor == m.base ==> cnode@ == caps,
            cursor > m.base ==> all_valid(reserved@),
            caps == old(cnode)@,
        decreases end - cursor,
    {
        let mut next: Option<PhysRegion> = None;
        let mut i: usize = 0;
        while i < reserved.len()
            invariant
                i <= reserved.len(),
                lo <= cursor < end,
                lo == m.base,
                end == m.base + m.size,
                caps == old(cnode)@,
                cnode.wf(),
                cursor == m.base ==> cnode@ == caps,
                cursor > m.base ==> all_valid(reserved@),
                forall|j: int| 0 <= j < i ==> (#[trigger] reserved@[j]).valid(),
                match next {
                    Some(n) => {
                        &&& reserved@.contains(n)
                        &&& n.valid()
                        &&& n.base + n.size > cursor
                        &&& n.base < end
                        &&& forall|j: int|
                            0 <= j < i && (#[trigger] reserved@[j]).base + reserved@[j].size
                                > cursor ==> n.base <= reserved@[j].base
                    },
                    None => forall|j: int|
                        0 <= j < i && (#[trigger] reserved@[j]).base + reserved@[j].size > cursor
                            ==> end <= reserved@[j].base,
                },
            decreases reserved.len() - i,
        {
            let r = reserved[i];
            assert(r == reserved@[i as int]);
            if !r.is_valid() {
                return Err(CapError::BadRegion);
            }
            if r.end() > cursor && r.base < end {
                match next {
                    Some(n) if n.base <= r.base => {},
                    _ => {
                        next = Some(r);
                        assert(reserved@.contains(r));
                    },
                }
            }
            i += 1;
        }
        match next {
            Some(r) => {
                let ghost k = choose|k: int| 0 <= k < reserved@.len() && reserved@[k] == r;
                assert(reserved@[k].has(r.base as int));
                let ghost runs = free_runs(lo, cursor as int, reserved@);
                if r.base > cursor {
                    proof {
                        assert forall|p: int| cursor <= p < r.base implies !is_reserved(
                            reserved@,
                            p,
                        ) by {
                            if is_reserved(reserved@, p) {
                                let j = choose|j: int|
                                    0 <= j < reserved@.len() && (#[trigger] reserved@[j]).has(p);
                                assert(reserved@[j].base + reserved@[j].size > cursor);
                            }
                        }
                        lemma_runs_free_stretch(lo, cursor as int, r.base as int, reserved@);
                        lemma_runs_prefix(lo, r.base as int, end as int, reserved@);
                        let grown = runs.push((cursor as int, r.base as int));
                        assert(grown.map_values(make) =~= runs.map_values(make).push(
                            untyped((cursor as int, r.base as int)),
                        ));
                        lemma_room(caps, all, runs, (cursor as int, r.base as int), make);
                    }
                    cnode.push(Cap::Untyped { base: cursor, size: r.base - cursor, used: 0 })?;
                    assert(cnode@ =~= caps + free_runs(
                        lo,
                        r.base as int,
                        reserved@,
                    ).map_values(make));
                }
                let past = r.end();
                proof {
                    let from = if r.base > cursor {
                        r.base as int
                    } else {
                        cursor as int
                    };
                    let to = if past >= end {
                        end as int
                    } else {
                        past as int
                    };
                    assert forall|p: int| from <= p < to implies is_reserved(reserved@, p) by {
                        assert(reserved@[k].has(p));
                    }
                    lemma_runs_reserved_stretch(lo, from, to, reserved@);
                }
                if past >= end {
                    return Ok(());
                }
                assert(reserved@[k].has(past - 1));
                cursor = past;
            },
            None => {
                proof {
                    assert forall|p: int| cursor <= p < end implies !is_reserved(reserved@, p) by {
                        if is_reserved(reserved@, p) {
                            let j = choose|j: int|
                                0 <= j < reserved@.len() && (#[trigger] reserved@[j]).has(p);
                            assert(reserved@[j].base + reserved@[j].size > cursor);
                        }
                    }
                    let runs = free_runs(lo, cursor as int, reserved@);
                    lemma_runs_free_stretch(lo, cursor as int, end as int, reserved@);
                    assert(all.map_values(make) =~= runs.map_values(make).push(
                        untyped((cursor as int, end as int)),
                    ));
                    assert(all.take(all.len() as int) =~= all);
                    lemma_room(caps, all, runs, (cursor as int, end as int), make);
                }
                cnode.push(Cap::Untyped { base: cursor, size: end - cursor, used: 0 })?;
                assert(cnode@ =~= caps + all.map_values(make));
                return Ok(());
            },
        }
    }
}

/// Where no slot is left for the next run, the slots were filled by the first runs.
proof fn lemma_room(
    caps: Seq<Cap>,
    all: Seq<(int, int)>,
    runs: Seq<(int, int)>,
    next: (int, int),
    make: spec_fn((int, int)) -> Cap,
)
    requires
        runs.len() < all.len(),
        all.take((runs.len() + 1) as int) == runs.push(next),
        caps.len() <= CNODE_SLOTS,
    ensures
        caps.len() + runs.len() == CNODE_SLOTS ==> {
            &&& all.map_values(make).len() > CNODE_SLOTS - caps.len()
            &&& caps + runs.map_values(make) == caps + all.map_values(make).take(
                CNODE_SLOTS - caps.len(),
            )
        },
{
    if caps.len() + runs.len() == CNODE_SLOTS {
        assert forall|i: int| 0 <= i < runs.len() implies runs[i] == all[i] by {
            assert(all.take((runs.len() + 1) as int)[i] == runs.push(next)[i]);
        }
        assert(runs.map_values(make) =~= all.map_values(make).take(CNODE_SLOTS - caps.len()));
    }
}

/// The capabilities that are there before any memory: null, the control block of
/// the root task, its address space and the console.
pub open spec fn first_caps(addr_space_root: u64) -> Seq<Cap> {
    seq![Cap::Empty, Cap::RootTcb, Cap::AddrSpace { root_pa: addr_space_root }, Cap::Console]
}

/// The capabilities after the free memory of each region has been added to them.
pub open spec fn with_memory(
    caps: Seq<Cap>,
    memory: Seq<PhysRegion>,
    reserved: Seq<PhysRegion>,
) -> Result<Seq<Cap>, CapError>
    decreases memory.len(),
{
    if memory.len() == 0 {
        Ok(caps)
    } else {
        match with_memory(caps, memory.drop_last(), reserved) {
            Err(e) => Err(e),
            Ok(before) => {
                let m = memory.last();
                let fresh = free_runs(m.base as int, m.base + m.size, reserved).map_values(
                    |run: (int, int)| untyped(run),
                );
                if !m.valid() || !all_valid(reserved) {
                    Err(CapError::BadRegion)
                } else if before.len() + fresh.len() > CNODE_SLOTS {
                    Err(CapError::OutOfSlots)
                } else {
                    Ok(before + fresh)
                }
            },
        }
    }
}

/// An error is not undone by more memory.
proof fn lemma_memory_error(caps: Seq<Cap>, memory: Seq<PhysRegion>, n: int, reserved: Seq<PhysRegion>)
    requires
        0 <= n <= memory.len(),
        with_memory(caps, memory.take(n), reserved) is Err,
    ensures
        with_memory(caps, memory, reserved) == with_memory(caps, memory.take(n), reserved),
    decreases memory.len() - n,
{
    if n == memory.len() {
        assert(memory.take(n) =~= memory);
    } else {
        assert(memory.take(n + 1).drop_last() =~= memory.take(n));
        lemma_memory_error(caps, memory, n + 1, reserved);
    }
}

/// Makes the root capability node.
///
/// What no reserved region holds of the physical memory becomes untyped
/// capabilities, in the order of the regions. The reserved regions may overlap.
pub fn bootstrap(memory: &[PhysRegion], reserved: &[PhysRegion], addr_space_root: u64) -> (r: Result<
    CNode,
    CapError,
>)
    ensures
        match r {
            Ok(cnode) => {
                &&& cnode.wf()
                &&& with_memory(first_caps(addr_space_root), memory@, reserved@) == Ok::<
                    Seq<Cap>,
                    CapError,
                >(cnode@)
            },
            Err(e) => with_memory(first_caps(addr_space_root), memory@, reserved@) == Err::<
                Seq<Cap>,
                CapError,
            >(e),
        },
{
    let mut cnode = CNode::new();
    cnode.push(Cap::Empty)?;
    cnode.push(Cap::RootTcb)?;
    cnode.push(Cap::AddrSpace { root_pa: addr_space_root })?;
    cnode.push(Cap::Console)?;
    let ghost caps = first_caps(addr_space_root);
    assert(cnode@ =~= caps);
    let mut i: usize = 0;
    while i < memory.len()
        invariant
            i <= memory.len(),
            cnode.wf(),
            caps == first_caps(addr_space_root),
            with_memory(caps, memory@.take(i as int), reserved@) == Ok::<Seq<Cap>, CapError>(
                cnode@,
            ),
        decreases memory.len() - i,
    {
        let m = memory[i];
        proof {
            let next = memory@.take(i + 1);
            assert(next.drop_last() =~= memory@.take(i as int));
            assert(next.last() == m);
            if with_memory(caps, next, reserved@) is Err {
                lemma_memory_error(caps, memory@, i + 1, reserved@);
            }
        }
        if !m.is_valid() {
            return Err(CapError::BadRegion);
        }
        push_untypeds(&mut cnode, m, reserved)?;
        i += 1;
    }
    assert(memory@.take(memory@.len() as int) =~= memory@);
    Ok(cnode)
}

/// Whether the memory of an object or what is left of an untyped capability holds
/// the address.
pub open spec fn area(cap: Cap, granule: int, p: int) -> bool {
    match cap {
        Cap::Untyped { base, size, used } => base + used <= p < base + size,
        Cap::Tcb { base } => base <= p < base + granule,
        Cap::Frame { base, .. } => base <= p < base + granule,
        Cap::PageTable { base, .. } => base <= p < base + granule,
        Cap::Endpoint { base } => base <= p < base + granule,
        _ => false,
    }
}

/// Whether no address belongs to two capabilities.
pub open spec fn exclusive(caps: Seq<Cap>, granule: int) -> bool {
    forall|i: int, j: int, p: int|
        #![trigger area(caps[i], granule, p), area(caps[j], granule, p)]
        0 <= i < caps.len() && 0 <= j < caps.len() && area(caps[i], granule, p) && area(
            caps[j],
            granule,
            p,
        ) ==> i == j
}

/// Whether no address lies in two of the regions.
pub open spec fn disjoint_regions(regions: Seq<PhysRegion>) -> bool {
    forall|i: int, j: int, p: int|
        #![trigger regions[i].has(p), regions[j].has(p)]
        0 <= i < regions.len() && 0 <= j < regions.len() && regions[i].has(p) && regions[j].has(p)
            ==> i == j
}

/// Whether some run holds the address.
spec fn in_runs(runs: Seq<(int, int)>, p: int) -> bool {
    exists|i: int| 0 <= i < runs.len() && (#[trigger] runs[i]).0 <= p < runs[i].1
}

/// The runs hold the free addresses between the bounds and no others, each once.
proof fn lemma_runs_cover(lo: int, hi: int, reserved: Seq<PhysRegion>)
    ensures
        forall|p: int| #[trigger]
            in_runs(free_runs(lo, hi, reserved), p) <==> lo <= p < hi && !is_reserved(reserved, p),
        forall|i: int, j: int|
            0 <= i < j < free_runs(lo, hi, reserved).len() ==> (#[trigger] free_runs(
                lo,
                hi,
                reserved,
            )[i]).1 <= (#[trigger] free_runs(lo, hi, reserved)[j]).0,
        forall|i: int|
            0 <= i < free_runs(lo, hi, reserved).len() ==> {
                let r = #[trigger] free_runs(lo, hi, reserved)[i];
                lo <= r.0 < r.1 <= hi
            },
    decreases hi - lo,
{
    lemma_runs_free(lo, hi, reserved);
    if lo < hi {
        let before = free_runs(lo, hi - 1, reserved);
        let runs = free_runs(lo, hi, reserved);
        lemma_runs_cover(lo, hi - 1, reserved);
        assert forall|p: int| #[trigger] in_runs(runs, p) <==> lo <= p < hi && !is_reserved(
            reserved,
            p,
        ) by {
            assert(in_runs(before, p) <==> lo <= p < hi - 1 && !is_reserved(reserved, p));
            if in_runs(runs, p) {
                let i = choose|i: int| 0 <= i < runs.len() && (#[trigger] runs[i]).0 <= p < runs[i].1;
                if i < before.len() && before[i].0 <= p < before[i].1 {
                    assert(in_runs(before, p));
                }
            }
            if in_runs(before, p) {
                let i = choose|i: int|
                    0 <= i < before.len() && (#[trigger] before[i]).0 <= p < before[i].1;
                assert(runs[i].0 <= p < runs[i].1);
            }
            if p == hi - 1 && !is_reserved(reserved, p) {
                assert(runs[runs.len() - 1].0 <= p < runs[runs.len() - 1].1);
            }
        }
        assert forall|i: int, j: int| 0 <= i < j < runs.len() implies (#[trigger] runs[i]).1 <= (
        #[trigger] runs[j]).0 by {
            assert(before[i].1 <= hi - 1);
            if j < before.len() {
                assert(before[i].1 <= before[j].0);
            }
        }
    }
}

/// Whether some untyped capability holds the address, spent or not.
pub open spec fn in_untyped(caps: Seq<Cap>, p: int) -> bool {
    exists|i: int|
        0 <= i < caps.len() && (#[trigger] caps[i]).spans(p)
}

/// Whether some region of memory holds the address.
pub open spec fn in_memory(memory: Seq<PhysRegion>, p: int) -> bool {
    exists|i: int| 0 <= i < memory.len() && (#[trigger] memory[i]).has(p)
}

/// The untyped capabilities that the root task starts with hold the memory that
/// nothing is reserved of: all of it, and nothing else.
pub proof fn lemma_untyped_is_free_memory(
    addr_space_root: u64,
    memory: Seq<PhysRegion>,
    reserved: Seq<PhysRegion>,
    caps: Seq<Cap>,
    p: int,
)
    requires
        with_memory(first_caps(addr_space_root), memory, reserved) == Ok::<Seq<Cap>, CapError>(
            caps,
        ),
    ensures
        in_untyped(caps, p) <==> in_memory(memory, p) && !is_reserved(reserved, p),
    decreases memory.len(),
{
    let first = first_caps(addr_space_root);
    if memory.len() > 0 {
        let m = memory.last();
        let rest = memory.drop_last();
        let before = with_memory(first, rest, reserved)->Ok_0;
        let runs = free_runs(m.base as int, m.base + m.size, reserved);
        let fresh = runs.map_values(|run: (int, int)| untyped(run));
        lemma_untyped_is_free_memory(addr_space_root, rest, reserved, before, p);
        lemma_runs_cover(m.base as int, m.base + m.size, reserved);
        assert(in_runs(runs, p) <==> m.has(p) && !is_reserved(reserved, p));
        assert(caps == before + fresh);
        if in_untyped(caps, p) {
            let i = choose|i: int|
                0 <= i < caps.len() && (#[trigger] caps[i]).spans(p);
            if i < before.len() {
                assert(before[i] == caps[i]);
                assert(in_untyped(before, p));
            } else {
                let k = i - before.len();
                assert(caps[i] == fresh[k]);
                assert(runs[k].0 <= p < runs[k].1);
                assert(in_runs(runs, p));
            }
        }
        if in_memory(memory, p) && !is_reserved(reserved, p) {
            let i = choose|i: int| 0 <= i < memory.len() && (#[trigger] memory[i]).has(p);
            if i < rest.len() {
                assert(rest[i].has(p));
                let k = choose|k: int|
                    0 <= k < before.len() && (#[trigger] before[k]).spans(p);
                assert(caps[k] == before[k]);
            } else {
                let k = choose|k: int| 0 <= k < runs.len() && (#[trigger] runs[k]).0 <= p < runs[k].1;
                assert(caps[before.len() + k] == fresh[k]);
            }
        }
        if in_memory(rest, p) {
            let i = choose|i: int| 0 <= i < rest.len() && (#[trigger] rest[i]).has(p);
            assert(memory[i].has(p));
        }
        if m.has(p) {
            assert(memory[memory.len() - 1].has(p));
        }
    } else {
        assert(caps == first);
    }
}

/// Where the regions of memory do not overlap, no address belongs to two of the
/// capabilities that the root task starts with.
pub proof fn lemma_first_caps_exclusive(
    addr_space_root: u64,
    memory: Seq<PhysRegion>,
    reserved: Seq<PhysRegion>,
    caps: Seq<Cap>,
    granule: int,
)
    requires
        with_memory(first_caps(addr_space_root), memory, reserved) == Ok::<Seq<Cap>, CapError>(
            caps,
        ),
        disjoint_regions(memory),
    ensures
        exclusive(caps, granule),
    decreases memory.len(),
{
    let first = first_caps(addr_space_root);
    if memory.len() > 0 {
        let m = memory.last();
        let rest = memory.drop_last();
        let before = with_memory(first, rest, reserved)->Ok_0;
        let runs = free_runs(m.base as int, m.base + m.size, reserved);
        let fresh = runs.map_values(|run: (int, int)| untyped(run));
        assert(disjoint_regions(rest)) by {
            assert forall|i: int, j: int, p: int|
                #![trigger rest[i].has(p), rest[j].has(p)]
                0 <= i < rest.len() && 0 <= j < rest.len() && rest[i].has(p) && rest[j].has(
                    p,
                ) implies i == j by {
                assert(memory[i].has(p) && memory[j].has(p));
            }
        }
        lemma_first_caps_exclusive(addr_space_root, rest, reserved, before, granule);
        lemma_runs_cover(m.base as int, m.base + m.size, reserved);
        assert forall|i: int, j: int, p: int|
            #![trigger area(caps[i], granule, p), area(caps[j], granule, p)]
            0 <= i < caps.len() && 0 <= j < caps.len() && area(caps[i], granule, p) && area(
                caps[j],
                granule,
                p,
            ) implies i == j by {
            let n = before.len();
            lemma_untyped_is_free_memory(addr_space_root, rest, reserved, before, p);
            lemma_only_untyped(addr_space_root, rest, reserved, before);
            if i < n && j < n {
                assert(area(before[i], granule, p) && area(before[j], granule, p));
            } else if i >= n && j >= n {
                assert(caps[i] == untyped(runs[i - n]) && caps[j] == untyped(runs[j - n]));
            } else {
                let (k, l) = if i < n {
                    (i, j)
                } else {
                    (j, i)
                };
                assert(caps[k] == before[k]);
                assert(in_untyped(before, p));
                let a = choose|a: int| 0 <= a < rest.len() && (#[trigger] rest[a]).has(p);
                assert(caps[l] == untyped(runs[l - n]));
                assert(memory[a].has(p) && memory[memory.len() - 1].has(p));
            }
        }
    } else {
        assert(caps == first);
    }
}

/// Only untyped capabilities own memory at the start.
proof fn lemma_only_untyped(
    addr_space_root: u64,
    memory: Seq<PhysRegion>,
    reserved: Seq<PhysRegion>,
    caps: Seq<Cap>,
)
    requires
        with_memory(first_caps(addr_space_root), memory, reserved) == Ok::<Seq<Cap>, CapError>(
            caps,
        ),
    ensures
        forall|i: int, granule: int, p: int|
            0 <= i < caps.len() && #[trigger] area(caps[i], granule, p) ==> caps[i] is Untyped,
    decreases memory.len(),
{
    let first = first_caps(addr_space_root);
    if memory.len() > 0 {
        let before = with_memory(first, memory.drop_last(), reserved)->Ok_0;
        lemma_only_untyped(addr_space_root, memory.drop_last(), reserved, before);
        assert forall|i: int, granule: int, p: int|
            0 <= i < caps.len() && #[trigger] area(caps[i], granule, p) implies caps[i] is Untyped by {
            if i < before.len() {
                assert(area(before[i], granule, p));
            }
        }
    } else {
        assert(caps == first);
    }
}

/// Carving keeps the memory of the capabilities apart: the new object lies in what
/// was left of its untyped capability, aligned, and in nothing else.
pub proof fn lemma_carved_exclusive(
    caps: Seq<Cap>,
    slot: int,
    kind: ObjKind,
    granule: int,
    site: u64,
)
    requires
        granule > 0,
        exclusive(caps, granule),
        forall|i: int| 0 <= i < caps.len() ==> (#[trigger] caps[i]).valid(),
        carve_site(caps, slot, granule) == Ok::<u64, RetypeError>(site),
    ensures
        exclusive(carved(caps, slot, kind, granule, site), granule),
        site as int % granule == 0,
        forall|p: int| site <= p < site + granule ==> #[trigger] area(caps[slot], granule, p),
        forall|i: int|
            0 <= i < caps.len() && i != slot ==> carved(caps, slot, kind, granule, site)[i]
                == #[trigger] caps[i],
{
    let after = carved(caps, slot, kind, granule, site);
    assert(caps[slot].valid());
    if let Cap::Untyped { base, size, used } = caps[slot] {
        align::lemma_up(base + used, granule);
        assert forall|i: int, j: int, p: int|
            #![trigger area(after[i], granule, p), area(after[j], granule, p)]
            0 <= i < after.len() && 0 <= j < after.len() && area(after[i], granule, p) && area(
                after[j],
                granule,
                p,
            ) implies i == j by {
            let a = if i == caps.len() {
                slot
            } else {
                i
            };
            let b = if j == caps.len() {
                slot
            } else {
                j
            };
            assert(area(caps[a], granule, p) && area(caps[b], granule, p));
        }
    }
}

/// What is carved later from the same capability starts where the first carve ended, or
/// after it, whatever the two sizes are.
pub proof fn lemma_carves_ascend(
    caps: Seq<Cap>,
    slot: int,
    kind: ObjKind,
    granule: int,
    site: u64,
    later: int,
    next: u64,
)
    requires
        granule > 0,
        later > 0,
        forall|i: int| 0 <= i < caps.len() ==> (#[trigger] caps[i]).valid(),
        carve_site(caps, slot, granule) == Ok::<u64, RetypeError>(site),
        carve_site(carved(caps, slot, kind, granule, site), slot, later) == Ok::<
            u64,
            RetypeError,
        >(next),
    ensures
        site + granule <= next,
{
    assert(caps[slot].valid());
    if let Cap::Untyped { base, size, used } = caps[slot] {
        align::lemma_up(base + used, granule);
        align::lemma_up(site + granule, later);
    }
}

/// Whether a capability is to untyped memory within one of the regions, with nothing of
/// it spent.
pub open spec fn untyped_within(memory: Seq<PhysRegion>, c: Cap) -> bool {
    c matches Cap::Untyped { base, size, used } ==> {
        &&& used == 0
        &&& size > 0
        &&& exists|j: int|
            0 <= j < memory.len() && (#[trigger] memory[j]).base <= base && base + size
                <= memory[j].base + memory[j].size
    }
}

/// The root task starts with its own control block, its address space, the console and
/// untyped memory, and with nothing else.
pub proof fn lemma_first_caps_shape(
    addr_space_root: u64,
    memory: Seq<PhysRegion>,
    reserved: Seq<PhysRegion>,
    caps: Seq<Cap>,
)
    requires
        with_memory(first_caps(addr_space_root), memory, reserved) == Ok::<Seq<Cap>, CapError>(
            caps,
        ),
    ensures
        caps.len() >= 4,
        caps.take(4) == first_caps(addr_space_root),
        forall|i: int|
            4 <= i < caps.len() ==> (#[trigger] caps[i]) is Untyped && caps[i].valid()
                && untyped_within(memory, caps[i]),
    decreases memory.len(),
{
    let first = first_caps(addr_space_root);
    if memory.len() > 0 {
        let m = memory.last();
        let rest = memory.drop_last();
        let before = with_memory(first, rest, reserved)->Ok_0;
        let runs = free_runs(m.base as int, m.base + m.size, reserved);
        let fresh = runs.map_values(|run: (int, int)| untyped(run));
        lemma_first_caps_shape(addr_space_root, rest, reserved, before);
        lemma_runs_free(m.base as int, m.base + m.size, reserved);
        assert(caps == before + fresh);
        assert(caps.take(4) =~= before.take(4));
        assert forall|i: int| 4 <= i < caps.len() implies (#[trigger] caps[i]) is Untyped
            && caps[i].valid() && untyped_within(memory, caps[i]) by {
            if i < before.len() {
                assert(before[i] == caps[i]);
                let c = before[i];
                let j = choose|j: int|
                    0 <= j < rest.len() && (#[trigger] rest[j]).base <= c->Untyped_base
                        && c->Untyped_base + c->size <= rest[j].base + rest[j].size;
                assert(memory[j] == rest[j]);
            } else {
                let k = i - before.len();
                assert(caps[i] == fresh[k]);
                assert(runs[k].0 < runs[k].1);
                assert(memory[memory.len() - 1] == m);
            }
        }
    } else {
        assert(caps == first);
        assert(caps.take(4) =~= first);
    }
}

} // verus!
