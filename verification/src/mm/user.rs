//! User address spaces.
//!
//! Before the root task runs, frames come from a window of physical memory, one after
//! the other. A user mapping is never both writable and executable, what the user
//! executes the kernel does not, and the first page is never mapped.
use std::ops::Range;

use vstd::prelude::*;

use crate::mm::mem::{self, PhysMem};
use crate::mm::paging::{self, MmuError};
use crate::mm::tree::{self, Space};
use crate::mm::walk::{self, Attempt, TableSource};
use crate::platform::Platform;

verus! {

/// Permissions of user mappings.
///
/// Only [`UserPerm::TextUser`] can be executed, and only by the user.
#[derive(Clone, Copy, Debug, PartialEq, Eq, Structural)]
pub enum UserPerm {
    TextUser,
    RoUser,
    RwUser,
}

impl UserPerm {
    /// The descriptor bits that stand for the permission.
    pub open spec fn bits(self) -> u64 {
        match self {
            UserPerm::TextUser => tree::DESC_PAGE | paging::ATTR_AF | paging::SH_INNER
                | paging::AP_RO_ALL | paging::IDX_NORMAL | paging::PXN,
            UserPerm::RoUser => tree::DESC_PAGE | paging::ATTR_AF | paging::SH_INNER
                | paging::AP_RO_ALL | paging::IDX_NORMAL | paging::UXN | paging::PXN,
            UserPerm::RwUser => tree::DESC_PAGE | paging::ATTR_AF | paging::SH_INNER
                | paging::AP_RW_ALL | paging::IDX_NORMAL | paging::UXN | paging::PXN,
        }
    }

    /// The descriptor bits that stand for the permission.
    pub fn attrs(self) -> (r: u64)
        ensures
            r == self.bits(),
            r != 0,
    {
        proof {
            lemma_user_w_xor_x(self);
        }
        match self {
            UserPerm::TextUser => tree::DESC_PAGE | paging::ATTR_AF | paging::SH_INNER
                | paging::AP_RO_ALL | paging::IDX_NORMAL | paging::PXN,
            UserPerm::RoUser => tree::DESC_PAGE | paging::ATTR_AF | paging::SH_INNER
                | paging::AP_RO_ALL | paging::IDX_NORMAL | paging::UXN | paging::PXN,
            UserPerm::RwUser => tree::DESC_PAGE | paging::ATTR_AF | paging::SH_INNER
                | paging::AP_RW_ALL | paging::IDX_NORMAL | paging::UXN | paging::PXN,
        }
    }
}

/// No user mapping is both writable and executable, only text is executable, and the
/// kernel executes none.
pub proof fn lemma_user_w_xor_x(perm: UserPerm)
    ensures
        perm.bits() != 0,
        !(paging::user_writes(perm.bits()) && paging::user_executes(perm.bits())),
        paging::user_executes(perm.bits()) <==> perm == UserPerm::TextUser,
        paging::user_writes(perm.bits()) <==> perm == UserPerm::RwUser,
        paging::user_reads(perm.bits()),
        !paging::kernel_executes(perm.bits()),
{
    match perm {
        UserPerm::TextUser => {
            assert(({
                let d: u64 = 0b11u64 | 0x400 | 0x300 | 0xC0 | 0 | 0x20_0000_0000_0000;
                d != 0 && d & 0xC0 != 0x40 && d & 0x40 != 0 && d & 0x20_0000_0000_0000 != 0 && d
                    & 0x40_0000_0000_0000 == 0
            })) by (bit_vector);
        },
        UserPerm::RoUser => {
            assert(({
                let d: u64 = 0b11u64 | 0x400 | 0x300 | 0xC0 | 0 | 0x40_0000_0000_0000
                    | 0x20_0000_0000_0000;
                d != 0 && d & 0xC0 != 0x40 && d & 0x40 != 0 && d & 0x20_0000_0000_0000 != 0 && d
                    & 0x40_0000_0000_0000 != 0
            })) by (bit_vector);
        },
        UserPerm::RwUser => {
            assert(({
                let d: u64 = 0b11u64 | 0x400 | 0x300 | 0x40 | 0 | 0x40_0000_0000_0000
                    | 0x20_0000_0000_0000;
                d != 0 && d & 0xC0 == 0x40 && d & 0x40 != 0 && d & 0x20_0000_0000_0000 != 0 && d
                    & 0x40_0000_0000_0000 != 0
            })) by (bit_vector);
        },
    }
}

/// Gives out the frames of a window, one after the other.
///
/// A frame is filled with zeros when it is given out. Nothing is ever given back: all
/// memory that is left belongs to the root task.
pub struct FrameAlloc {
    plat: Platform,
    start: u64,
    next: u64,
    end: u64,
}

impl FrameAlloc {
    /// The first frame that has not been given out.
    pub closed spec fn mark(&self) -> u64 {
        self.next
    }

    /// The window that the frames come from.
    pub closed spec fn window(&self) -> (u64, u64) {
        (self.start, self.end)
    }

    pub closed spec fn platform(&self) -> Platform {
        self.plat
    }

    /// The bounds are whole frames and in order.
    pub closed spec fn wf(&self) -> bool {
        &&& self.start <= self.next <= self.end
        &&& self.start as int % self.plat.page_size() == 0
        &&& self.next as int % self.plat.page_size() == 0
        &&& self.end as int % self.plat.page_size() == 0
    }

    /// The number of frames that have not been given out.
    pub open spec fn left(&self) -> int {
        (self.window().1 - self.mark()) / self.platform().page_size()
    }

    /// Whether `c` is a frame that can still be given out.
    pub closed spec fn holds(&self, c: u64) -> bool {
        self.next <= c < self.end && (c - self.next) % self.plat.page_size() == 0
    }

    /// The allocator goes with the memory: none of the frames that are left is a table.
    pub open spec fn clear_of(&self, m: &PhysMem) -> bool {
        &&& self.wf()
        &&& self.platform() == m.platform()
        &&& self.window().1 <= tree::VA_SPAN
        &&& forall|c: u64| #[trigger] self.holds(c) ==> !m.homes().contains_key(c)
    }

    /// What the parts of an allocator have to do with each other.
    pub proof fn lemma_parts(&self)
        ensures
            self.wf() ==> self.window().0 <= self.mark() <= self.window().1,
            self.wf() ==> self.mark() as int % self.platform().page_size() == 0,
            forall|c: u64| #[trigger]
                self.holds(c) <==> self.mark() <= c < self.window().1 && (c - self.mark())
                    % self.platform().page_size() == 0,
    {
    }

    /// The window is made of whole frames.
    pub proof fn lemma_ends(&self)
        requires
            self.wf(),
        ensures
            self.window().0 as int % self.platform().page_size() == 0,
            self.window().1 as int % self.platform().page_size() == 0,
    {
    }

    /// Frames from a window of physical memory, none of them given out.
    pub fn new(plat: Platform, window: Range<u64>) -> (r: Result<Self, MmuError>)
        ensures
            ({
                let g = plat.page_size();
                let bad = window.start as int % g != 0 || window.end as int % g != 0 || window.end
                    <= window.start;
                match r {
                    Ok(fa) => {
                        &&& !bad
                        &&& fa.wf()
                        &&& fa.platform() == plat
                        &&& fa.window() == (window.start, window.end)
                        &&& fa.mark() == window.start
                    },
                    Err(e) => bad && e == MmuError::Misaligned,
                }
            }),
    {
        let g = plat.granule();
        if window.start % g != 0 || window.end % g != 0 || window.end <= window.start {
            return Err(MmuError::Misaligned);
        }
        Ok(FrameAlloc { plat, start: window.start, next: window.start, end: window.end })
    }

    /// Gives out `n` frames in a row, filled with zeros, and answers the address of the
    /// first.
    pub fn alloc_contig(&mut self, n: u64, m: &mut PhysMem) -> (r: Result<u64, MmuError>)
        requires
            old(m).wf(),
            old(self).clear_of(old(m)),
        ensures
            final(m).wf(),
            final(m).settled() == old(m).settled(),
            final(m).platform() == old(m).platform(),
            final(m).homes() == old(m).homes(),
            final(m).space() == old(m).space(),
            final(self).clear_of(final(m)),
            final(self).window() == old(self).window(),
            final(self).platform() == old(self).platform(),
            ({
                let g = old(m).platform().page_size();
                let first = old(self).mark();
                match r {
                    Ok(pa) => {
                        &&& 0 < n <= old(self).left()
                        &&& pa == first
                        &&& final(self).mark() == first + n * g
                        &&& final(self).left() == old(self).left() - n
                        &&& final(m)@ == cleared(old(m).platform(), old(m)@, first as int, n as int)
                    },
                    Err(e) => {
                        &&& n == 0 || n > old(self).left()
                        &&& e == MmuError::OutOfFrames
                        &&& *final(self) == *old(self)
                        &&& final(m)@ == old(m)@
                    },
                }
            }),
    {
        let g = self.plat.granule();
        let base = self.next;
        let room = (self.end - base) / g;
        if n == 0 || n > room {
            return Err(MmuError::OutOfFrames);
        }
        proof {
            vstd::arithmetic::div_mod::lemma_fundamental_div_mod(self.end - base, g as int);
            assert(n * g <= g * room) by (nonlinear_arith)
                requires
                    n <= room,
                    g > 0,
            ;
        }
        let len = n * g;
        let end = base + len;
        let ghost plat = m.platform();
        let ghost before = m@;
        assert(m@ =~= cleared(plat, before, base as int, 0));
        let mut i: u64 = 0;
        while i < n
            invariant
                i <= n,
                g == plat.page_size(),
                plat == self.plat,
                m.platform() == plat,
                m.wf(),
                m.settled() == old(m).settled(),
                m.homes() == old(m).homes(),
                m.space() == old(m).space(),
                *self == *old(self),
                self.clear_of(m),
                base == self.next,
                n * g == len,
                base + len == end,
                end <= self.end,
                m@ == cleared(plat, before, base as int, i as int),
            decreases n - i,
        {
            assert(0 <= i * g && i * g + g <= len) by (nonlinear_arith)
                requires
                    0 <= i < n,
                    n * g == len,
                    g > 0,
            ;
            let frame = base + i * g;
            proof {
                vstd::arithmetic::div_mod::lemma_mod_multiples_basic(i as int, g as int);
                assert(self.holds(frame));
                assert(frame as int % plat.page_size() == 0);
            }
            m.zero(frame);
            i = i + 1;
            proof {
                lemma_cleared_step(plat, before, base as int, i - 1);
            }
        }
        self.next = end;
        proof {
            let q = room as int;
            let rest = (self.end - base) % (g as int);
            assert(self.end - end == (q - n) * g + rest) by (nonlinear_arith)
                requires
                    self.end - base == g * q + rest,
                    end == base + n * g,
            ;
            vstd::arithmetic::div_mod::lemma_fundamental_div_mod_converse(
                self.end - end,
                g as int,
                q - n,
                rest,
            );
            vstd::arithmetic::div_mod::lemma_mod_multiples_basic(n as int, g as int);
            assert forall|c: u64| #[trigger] self.holds(c) implies old(self).holds(c) by {
                assert((c - base) % (g as int) == (c - end) % (g as int)) by {
                    vstd::arithmetic::div_mod::lemma_mod_multiples_vanish(
                        n as int,
                        c - end,
                        g as int,
                    );
                    assert(g * n + (c - end) == c - base) by (nonlinear_arith)
                        requires
                            n * g == len,
                            base + len == end,
                    ;
                }
            }
        }
        Ok(base)
    }

    /// Gives out one frame, filled with zeros.
    pub fn alloc_one(&mut self, m: &mut PhysMem) -> (r: Result<u64, MmuError>)
        requires
            old(m).wf(),
            old(self).clear_of(old(m)),
        ensures
            final(m).wf(),
            final(m).settled() == old(m).settled(),
            final(m).platform() == old(m).platform(),
            final(m).homes() == old(m).homes(),
            final(m).space() == old(m).space(),
            final(self).clear_of(final(m)),
            final(self).window() == old(self).window(),
            final(self).platform() == old(self).platform(),
            ({
                let g = old(m).platform().page_size();
                let first = old(self).mark();
                match r {
                    Ok(pa) => {
                        &&& old(self).left() > 0
                        &&& pa == first
                        &&& final(self).mark() == first + g
                        &&& final(self).left() == old(self).left() - 1
                        &&& final(m)@ == old(m)@.insert(first, mem::zeros(old(m).platform()))
                    },
                    Err(e) => {
                        &&& old(self).left() == 0
                        &&& e == MmuError::OutOfFrames
                        &&& *final(self) == *old(self)
                        &&& final(m)@ == old(m)@
                    },
                }
            }),
    {
        proof {
            let plat = m.platform();
            lemma_cleared_step(plat, m@, self.next as int, 0);
            assert(cleared(plat, m@, self.next as int, 0) =~= m@);
        }
        self.alloc_contig(1, m)
    }

    /// The part of the window that has been given out.
    pub fn used(&self) -> (r: Range<u64>)
        ensures
            r.start == self.window().0,
            r.end == self.mark(),
    {
        self.start..self.next
    }
}

/// Memory after `n` frames in a row have been filled with zeros.
pub open spec fn cleared(
    plat: Platform,
    m: Map<u64, Seq<u64>>,
    first: int,
    n: int,
) -> Map<u64, Seq<u64>> {
    Map::new(
        |t: u64| m.contains_key(t) || in_frames(plat, first, n, t),
        |t: u64|
            if in_frames(plat, first, n, t) {
                mem::zeros(plat)
            } else {
                m[t]
            },
    )
}

/// Whether `t` is one of `n` frames in a row.
pub open spec fn in_frames(plat: Platform, first: int, n: int, t: u64) -> bool {
    first <= t < first + n * plat.page_size() && (t - first) % plat.page_size() == 0
}

proof fn lemma_cleared_step(plat: Platform, m: Map<u64, Seq<u64>>, first: int, i: int)
    requires
        0 <= i,
        0 <= first,
        first + i * plat.page_size() <= u64::MAX,
    ensures
        cleared(plat, m, first, i + 1) == cleared(plat, m, first, i).insert(
            (first + i * plat.page_size()) as u64,
            mem::zeros(plat),
        ),
{
    let g = plat.page_size();
    let frame = (first + i * g) as u64;
    assert((i + 1) * g == i * g + g) by (nonlinear_arith);
    assert forall|t: u64| in_frames(plat, first, i + 1, t) <==> (in_frames(plat, first, i, t) || t
        == frame) by {
        vstd::arithmetic::div_mod::lemma_mod_multiples_basic(i, g);
        if first + i * g <= t < first + i * g + g && (t - first) % g == 0 {
            vstd::arithmetic::div_mod::lemma_fundamental_div_mod(t - first, g);
            let q = (t - first) / g;
            assert(q == i) by (nonlinear_arith)
                requires
                    t - first == g * q,
                    i * g <= t - first < i * g + g,
                    g > 0,
            ;
            assert(g * i == i * g) by (nonlinear_arith);
        }
        if i > 0 {
            assert(i * g >= 0) by (nonlinear_arith)
                requires
                    i > 0,
                    g > 0,
            ;
        }
    }
    assert(cleared(plat, m, first, i + 1) =~= cleared(plat, m, first, i).insert(
        frame,
        mem::zeros(plat),
    ));
}

impl TableSource for FrameAlloc {
    closed spec fn fresh(&self) -> Set<u64> {
        Set::new(|c: u64| self.holds(c))
    }

    closed spec fn free(&self) -> nat {
        self.left() as nat
    }

    closed spec fn next(&self) -> int {
        self.next as int
    }

    open spec fn empty_error() -> MmuError {
        MmuError::OutOfFrames
    }

    closed spec fn origin(&self) -> int {
        self.start as int
    }

    closed spec fn limit(&self) -> int {
        self.end as int
    }

    closed spec fn sound(&self, plat: Platform) -> bool {
        &&& self.plat == plat
        &&& self.wf()
        &&& self.end <= tree::VA_SPAN
    }

    fn take(&mut self, m: &mut PhysMem) -> (r: Result<u64, MmuError>) {
        assert(self.clear_of(m)) by {
            assert forall|c: u64| #[trigger] self.holds(c) implies !m.homes().contains_key(c) by {
                assert(self.fresh().contains(c));
            }
        }
        let r = self.alloc_one(m);
        assert(r matches Ok(c) ==> self.fresh() =~= old(self).fresh().remove(c));
        r
    }
}

impl FrameAlloc {
    /// As a source of tables, the allocator gives out the frames that are left.
    pub proof fn lemma_source(&self)
        ensures
            forall|m: PhysMem| #[trigger] walk::apart(self, &m) <==> self.clear_of(&m),
            forall|c: u64| #[trigger] self.fresh().contains(c) <==> self.holds(c),
            self.wf() ==> self.free() == self.left(),
            self.origin() == self.window().0,
            self.limit() == self.window().1,
            self.next() == self.mark(),
    {
        assert forall|m: PhysMem| #[trigger] walk::apart(self, &m) <==> self.clear_of(&m) by {
            if walk::apart(self, &m) {
                assert forall|c: u64| #[trigger] self.holds(c) implies !m.homes().contains_key(
                    c,
                ) by {
                    assert(self.fresh().contains(c));
                }
            }
        }
    }
}

/// Whether a range is made of whole pages, not empty, leaves out the first page and ends
/// within 48 bits.
pub open spec fn range_fits(plat: Platform, va: int, pa: int, len: int) -> bool {
    let g = plat.page_size();
    &&& va % g == 0 && pa % g == 0 && len % g == 0
    &&& len != 0
    &&& g <= va
    &&& va + len <= tree::VA_SPAN
}

/// What mapping a range in user space does: the range must be made of whole pages,
/// not be empty, leave out the first page and end within 48 bits.
pub open spec fn user_mapped(
    plat: Platform,
    s: Space,
    free: nat,
    root: u64,
    va: int,
    pa: int,
    len: int,
    perm: UserPerm,
) -> Attempt {
    let g = plat.page_size();
    if va % g != 0 || pa % g != 0 || len % g != 0 || len == 0 {
        Attempt { space: s, free, answer: Err(MmuError::Misaligned) }
    } else if va < g {
        Attempt { space: s, free, answer: Err(MmuError::NullPage) }
    } else if va + len > tree::VA_SPAN {
        Attempt { space: s, free, answer: Err(MmuError::Misaligned) }
    } else {
        walk::map_many(
            plat,
            s,
            free,
            MmuError::OutOfFrames,
            root,
            va,
            pa,
            perm.bits(),
            (len / g) as nat,
        )
    }
}

/// A user address space that is being built.
pub struct UserSpace {
    root: u64,
}

impl UserSpace {
    /// The root table.
    pub closed spec fn root(&self) -> u64 {
        self.root
    }

    /// An address space in which nothing is mapped.
    pub fn new(fa: &mut FrameAlloc, m: &mut PhysMem) -> (r: Result<Self, MmuError>)
        requires
            old(m).wf(),
            old(fa).clear_of(old(m)),
        ensures
            final(m).wf(),
            final(m).settled() == old(m).settled(),
            final(m).platform() == old(m).platform(),
            final(m).space() == old(m).space(),
            final(fa).clear_of(final(m)),
            walk::kept(old(m), final(m), old(fa), final(fa)),
            match r {
                Ok(us) => {
                    &&& old(fa).left() > 0
                    &&& us.root() == old(fa).mark()
                    &&& final(m).is_root(us.root())
                    &&& !old(m).homes().contains_key(us.root())
                    &&& final(fa).mark() == old(fa).mark() + old(m).platform().page_size()
                    &&& final(fa).left() == old(fa).left() - 1
                },
                Err(e) => {
                    &&& old(fa).left() == 0
                    &&& e == MmuError::OutOfFrames
                    &&& *final(fa) == *old(fa)
                    &&& final(m)@ == old(m)@
                },
            },
    {
        proof {
            fa.lemma_source();
            fa.lemma_parts();
        }
        let root = match fa.alloc_one(m) {
            Ok(root) => root,
            Err(e) => {
                return Err(e);
            },
        };
        proof {
            fa.lemma_source();
            fa.lemma_parts();
            assert(old(fa).holds(root)) by {
                let g = m.platform().page_size();
                vstd::arithmetic::div_mod::lemma_fundamental_div_mod(
                    old(fa).window().1 - old(fa).mark(),
                    g,
                );
                let left = old(fa).left();
                assert(g * left >= g) by (nonlinear_arith)
                    requires
                        left >= 1,
                        g > 0,
                ;
            }
            assert forall|c: u64| #[trigger] fa.holds(c) implies old(fa).holds(c) && c != root by {
                let g = m.platform().page_size();
                vstd::arithmetic::div_mod::lemma_mod_multiples_vanish(1, c - fa.mark(), g);
            }
        }
        m.make_root(root);
        Ok(UserSpace { root })
    }

    /// The address of the root table.
    pub fn root_pa(&self) -> (r: u64)
        ensures
            r == self.root(),
    {
        self.root
    }

    /// Maps the user range of `len` bytes at `va` to the physical range at `pa`.
    pub fn map_range(
        &mut self,
        fa: &mut FrameAlloc,
        m: &mut PhysMem,
        va: u64,
        pa: u64,
        len: u64,
        perm: UserPerm,
    ) -> (r: Result<(), MmuError>)
        requires
            old(m).wf(),
            old(fa).clear_of(old(m)),
            old(m).is_root(old(self).root()),
            range_fits(old(m).platform(), va as int, pa as int, len as int) ==> pa + len
                <= u64::MAX + 1,
        ensures
            final(m).wf(),
            final(m).settled() == old(m).settled(),
            final(m).platform() == old(m).platform(),
            final(fa).clear_of(final(m)),
            final(self).root() == old(self).root(),
            walk::kept(old(m), final(m), old(fa), final(fa)),
            (Attempt { space: final(m).space(), free: final(fa).left() as nat, answer: r })
                == user_mapped(
                old(m).platform(),
                old(m).space(),
                old(fa).left() as nat,
                old(self).root(),
                va as int,
                pa as int,
                len as int,
                perm,
            ),
    {
        proof {
            fa.lemma_source();
        }
        let g = m.plat().granule();
        if va % g != 0 || pa % g != 0 || len % g != 0 || len == 0 {
            return Err(MmuError::Misaligned);
        }
        if va < g {
            return Err(MmuError::NullPage);
        }
        let end = match va.checked_add(len) {
            Some(end) => end,
            None => {
                return Err(MmuError::Misaligned);
            },
        };
        if end > tree::VA_SPAN {
            return Err(MmuError::Misaligned);
        }
        let attrs = perm.attrs();
        proof {
            let page = m.platform().page_size();
            assert(len / g * page == len) by {
                vstd::arithmetic::div_mod::lemma_fundamental_div_mod(len as int, page);
                vstd::arithmetic::mul::lemma_mul_is_commutative(len as int / page, page);
            }
        }
        let r = walk::map_pages(m, fa, self.root, va, pa, attrs, len / g);
        proof {
            fa.lemma_source();
        }
        r
    }
}

/// Why an address cannot be mapped in user space, if it cannot.
pub open spec fn user_page_error(plat: Platform, va: int) -> Option<MmuError> {
    let g = plat.page_size();
    if va % g != 0 {
        Some(MmuError::Misaligned)
    } else if va < g {
        Some(MmuError::NullPage)
    } else if va >= tree::VA_SPAN {
        Some(MmuError::Misaligned)
    } else {
        None
    }
}

fn check_user_page(plat: Platform, va: u64) -> (r: Result<(), MmuError>)
    ensures
        r == (match user_page_error(plat, va as int) {
            Some(e) => Err::<(), MmuError>(e),
            None => Ok::<(), MmuError>(()),
        }),
{
    let g = plat.granule();
    if va % g != 0 {
        return Err(MmuError::Misaligned);
    }
    if va < g {
        return Err(MmuError::NullPage);
    }
    if va >= tree::VA_SPAN {
        return Err(MmuError::Misaligned);
    }
    Ok(())
}

/// What mapping a single frame in user space does. No table is made on the way.
pub open spec fn frame_mapped(
    plat: Platform,
    s: Space,
    root: u64,
    va: int,
    pa: u64,
    perm: UserPerm,
) -> (Space, Result<(), MmuError>) {
    let page = plat.page(va);
    match user_page_error(plat, va) {
        Some(e) => (s, Err(e)),
        None => if walk::missing(plat, s, root, page) > 0 {
            (s, Err(MmuError::MissingTable))
        } else if s.leaves.contains_key((root, page)) {
            (s, Err(MmuError::Overlap))
        } else {
            (
                Space { leaves: s.leaves.insert((root, page), pa | perm.bits()), ..s },
                Ok(()),
            )
        },
    }
}

/// Maps the frame at `pa` to the user page at `va`, in the address space at `root`.
///
/// The tables on the way must be there already.
pub fn user_map_frame(m: &mut PhysMem, root: u64, va: u64, pa: u64, perm: UserPerm) -> (r: Result<
    (),
    MmuError,
>)
    requires
        old(m).wf(),
        old(m).is_root(root),
    ensures
        final(m).wf(),
        final(m).settled() == old(m).settled(),
        final(m).platform() == old(m).platform(),
        final(m).homes() == old(m).homes(),
        final(m)@.dom() == old(m)@.dom(),
        forall|t: u64| #[trigger]
            old(m)@.contains_key(t) && !old(m).homes().contains_key(t) ==> final(m)@[t] == old(
                m,
            )@[t],
        (final(m).space(), r) == frame_mapped(
            old(m).platform(),
            old(m).space(),
            root,
            va as int,
            pa,
            perm,
        ),
{
    let ghost plat = m.platform();
    let ghost page = plat.page(va as int);
    match check_user_page(m.plat(), va) {
        Ok(_) => {},
        Err(e) => {
            return Err(e);
        },
    }
    let (t, level) = match walk::descend(m, root, va) {
        Ok(found) => found,
        Err(e) => {
            return Err(e);
        },
    };
    if level < tree::LEAF_LEVEL {
        return Err(MmuError::MissingTable);
    }
    let i = walk::index(m.plat(), va, tree::LEAF_LEVEL);
    proof {
        walk::lemma_top(plat, va as int);
        walk::lemma_step(plat, page, 3);
        tree::lemma_reach_home(plat, m@, m.homes(), root, 3, plat.prefix(page, 3));
        assert(m.space().leaves.contains_key((root, page)) == (m@[t][i as int] != 0));
    }
    if m.read(t, i) != 0 {
        return Err(MmuError::Overlap);
    }
    let attrs = perm.attrs();
    proof {
        assert(attrs != 0 ==> (pa | attrs) != 0) by (bit_vector);
    }
    m.set_leaf(t, i, pa | attrs, Ghost(root), Ghost(page));
    Ok(())
}

/// What installing a table in user space does: it goes to the first level on the way
/// to the page where none is.
pub open spec fn table_installed(plat: Platform, s: Space, root: u64, va: int) -> (
    Space,
    Result<u64, MmuError>,
) {
    let page = plat.page(va);
    let need = walk::missing(plat, s, root, page);
    match user_page_error(plat, va) {
        Some(e) => (s, Err(e)),
        None => if need == 0 {
            (s, Err(MmuError::Overlap))
        } else {
            (
                Space { nodes: s.nodes.insert((root, 4 - need, plat.prefix(page, 4 - need))), ..s },
                Ok((4 - need) as u64),
            )
        },
    }
}

/// Installs the frame at `table` as the first table that is missing on the way to the
/// user page at `va`, and answers its level.
pub fn user_install_table(m: &mut PhysMem, root: u64, va: u64, table: u64) -> (r: Result<
    u64,
    MmuError,
>)
    requires
        old(m).wf(),
        old(m).is_root(root),
        old(m)@.contains_key(table),
        old(m)@[table] == mem::zeros(old(m).platform()),
        !old(m).homes().contains_key(table),
    ensures
        final(m).wf(),
        final(m).settled() == old(m).settled(),
        final(m).platform() == old(m).platform(),
        forall|t: u64| #[trigger]
            old(m).homes().contains_key(t) ==> final(m).homes().contains_key(t)
                && final(m).homes()[t] == old(m).homes()[t],
        forall|t: u64| #[trigger]
            final(m).homes().contains_key(t) <==> old(m).homes().contains_key(t) || (r is Ok && t
                == table),
        final(m)@.dom() == old(m)@.dom(),
        forall|t: u64| #[trigger]
            old(m)@.contains_key(t) && !old(m).homes().contains_key(t) ==> final(m)@[t] == old(
                m,
            )@[t],
        (final(m).space(), r) == table_installed(
            old(m).platform(),
            old(m).space(),
            root,
            va as int,
        ),
{
    let ghost plat = m.platform();
    let ghost page = plat.page(va as int);
    match check_user_page(m.plat(), va) {
        Ok(_) => {},
        Err(e) => {
            return Err(e);
        },
    }
    let (t, level) = match walk::descend(m, root, va) {
        Ok(found) => found,
        Err(e) => {
            return Err(e);
        },
    };
    if level == tree::LEAF_LEVEL {
        return Err(MmuError::Overlap);
    }
    let i = walk::index(m.plat(), va, level);
    proof {
        walk::lemma_top(plat, va as int);
        walk::lemma_closed(m, root, page);
        walk::lemma_step(plat, page, level as int);
        tree::lemma_reach_home(
            plat,
            m@,
            m.homes(),
            root,
            level as int,
            plat.prefix(page, level as int),
        );
        assert(m.space().nodes.contains((root, level + 1, plat.prefix(page, level + 1))) == (
        m@[t][i as int] != 0));
    }
    m.link(t, i, table);
    Ok(level + 1)
}

} // verus!
