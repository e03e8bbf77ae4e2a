//! Physical memory, frame by frame.
//!
//! The kernel keeps a record of what it has put into the frames it works with, and
//! a journal of the changes, from which the machine's memory is brought up to date.
//! Frames that serve as translation tables form trees, and stay trees.
use vstd::prelude::*;

use crate::mm::tree::{self, Home, Space};
use crate::objmap::ObjMap;
use crate::platform::Platform;

verus! {

/// A change to physical memory.
#[derive(Clone, Copy, Debug, PartialEq, Eq, Structural)]
pub enum MemOp {
    /// All words of the frame become 0.
    Zero { frame: u64 },
    /// One word of the frame is set.
    Write { frame: u64, index: usize, value: u64 },
}

/// A frame of zeros.
pub open spec fn zeros(plat: Platform) -> Seq<u64> {
    Seq::new(plat.table_len() as nat, |k: int| 0u64)
}

/// Memory after a change.
pub open spec fn applied(plat: Platform, m: Map<u64, Seq<u64>>, op: MemOp) -> Map<u64, Seq<u64>> {
    match op {
        MemOp::Zero { frame } => m.insert(frame, zeros(plat)),
        MemOp::Write { frame, index, value } => m.insert(
            frame,
            m[frame].update(index as int, value),
        ),
    }
}

/// Memory after a journal of changes.
pub open spec fn replayed(plat: Platform, m: Map<u64, Seq<u64>>, ops: Seq<MemOp>) -> Map<
    u64,
    Seq<u64>,
>
    decreases ops.len(),
{
    if ops.len() == 0 {
        m
    } else {
        applied(plat, replayed(plat, m, ops.drop_last()), ops.last())
    }
}

/// The journal tells every change: memory as it was when the journal was taken becomes
/// memory as it is now by carrying out the changes that have been noted since.
pub proof fn lemma_journal_tells_every_change(before: &PhysMem, after: &PhysMem)
    requires
        before.wf(),
        after.wf(),
        after.platform() == before.platform(),
        before.journal() == Seq::<MemOp>::empty(),
        after.settled() == before.settled(),
    ensures
        replayed(before.platform(), before@, after.journal()) == after@,
{
}

/// Physical memory, as far as the kernel has written it.
pub struct PhysMem {
    plat: Platform,
    frames: ObjMap<Vec<u64>>,
    journal: Vec<MemOp>,
    /// Memory when the journal was last taken.
    settled: Ghost<Map<u64, Seq<u64>>>,
    /// Where the tables belong.
    home: Ghost<Map<u64, Home>>,
}

impl View for PhysMem {
    type V = Map<u64, Seq<u64>>;

    /// The words of the frames, by address.
    closed spec fn view(&self) -> Map<u64, Seq<u64>> {
        Map::new(|k: u64| self.frames@.contains_key(k), |k: u64| self.frames@[k]@)
    }
}

impl PhysMem {
    /// The machine this memory belongs to.
    pub closed spec fn platform(&self) -> Platform {
        self.plat
    }

    /// Where the frames that serve as tables belong.
    pub closed spec fn homes(&self) -> Map<u64, Home> {
        self.home@
    }

    /// Memory when the journal was last taken.
    pub closed spec fn settled(&self) -> Map<u64, Seq<u64>> {
        self.settled@
    }

    /// The changes since then.
    pub closed spec fn journal(&self) -> Seq<MemOp> {
        self.journal@
    }

    pub closed spec fn rep(&self) -> bool {
        self.frames.wf()
    }

    /// The frames are whole, the tables form trees, and the journal accounts for
    /// every change.
    pub open spec fn wf(&self) -> bool {
        &&& self.rep()
        &&& forall|t: u64| #[trigger]
            self@.contains_key(t) ==> self@[t].len() == self.platform().table_len()
                && self.platform().table_addr(t)
        &&& tree::trees(self.platform(), self@, self.homes())
        &&& self@ == replayed(self.platform(), self.settled(), self.journal())
    }

    /// What the tables translate.
    pub open spec fn space(&self) -> Space {
        tree::space(self.platform(), self@, self.homes())
    }

    /// Whether a tree of tables starts at `root`.
    pub open spec fn is_root(&self, root: u64) -> bool {
        tree::is_root(self.homes(), root)
    }

    /// Memory of which nothing has been written.
    pub fn new(plat: Platform) -> (r: Self)
        ensures
            r.wf(),
            r.platform() == plat,
            r@ == Map::<u64, Seq<u64>>::empty(),
            r.homes() == Map::<u64, Home>::empty(),
            r.journal() == Seq::<MemOp>::empty(),
    {
        let r = PhysMem {
            plat,
            frames: ObjMap::new(),
            journal: Vec::new(),
            settled: Ghost(Map::empty()),
            home: Ghost(Map::empty()),
        };
        assert(r@ =~= Map::<u64, Seq<u64>>::empty());
        r
    }

    /// The machine this memory belongs to.
    pub fn plat(&self) -> (r: Platform)
        ensures
            r == self.platform(),
    {
        self.plat
    }

    /// Whether the kernel has written the frame.
    pub fn has(&self, frame: u64) -> (r: bool)
        requires
            self.wf(),
        ensures
            r == self@.contains_key(frame),
    {
        self.frames.contains(frame)
    }

    /// A word of a frame.
    pub fn read(&self, frame: u64, index: usize) -> (r: u64)
        requires
            self.wf(),
            self@.contains_key(frame),
            index < self.platform().table_len(),
        ensures
            r == self@[frame][index as int],
    {
        self.frames.get(frame)[index]
    }

    fn put(&mut self, frame: u64, index: usize, value: u64)
        requires
            old(self).rep(),
            old(self)@.contains_key(frame),
            index < old(self)@[frame].len(),
        ensures
            final(self).rep(),
            final(self).platform() == old(self).platform(),
            final(self).settled() == old(self).settled(),
            final(self).homes() == old(self).homes(),
            final(self).journal() == old(self).journal().push(
                MemOp::Write { frame, index, value },
            ),
            final(self)@ == old(self)@.insert(
                frame,
                old(self)@[frame].update(index as int, value),
            ),
    {
        let words = self.frames.get_mut(frame);
        words[index] = value;
        self.journal.push(MemOp::Write { frame, index, value });
        assert(self@ =~= old(self)@.insert(frame, old(self)@[frame].update(index as int, value)));
    }

    proof fn lemma_journaled(before: PhysMem, after: PhysMem, op: MemOp)
        requires
            before.wf(),
            after.platform() == before.platform(),
            after.settled() == before.settled(),
            after.journal() == before.journal().push(op),
        ensures
            replayed(after.platform(), after.settled(), after.journal()) == applied(
                before.platform(),
                before@,
                op,
            ),
    {
        assert(after.journal().drop_last() =~= before.journal());
    }

    /// Fills a frame with zeros, as every frame is before it is used.
    ///
    /// Tables in use are never cleared.
    pub fn zero(&mut self, frame: u64)
        requires
            old(self).wf(),
            old(self).platform().table_addr(frame),
            !old(self).homes().contains_key(frame),
        ensures
            final(self).wf(),
            final(self).settled() == old(self).settled(),
            final(self).platform() == old(self).platform(),
            final(self)@ == old(self)@.insert(frame, zeros(old(self).platform())),
            final(self).homes() == old(self).homes(),
            final(self).space() == old(self).space(),
    {
        let n = self.plat.entries() as usize;
        let mut words: Vec<u64> = Vec::new();
        while words.len() < n
            invariant
                words.len() <= n,
                n == self.platform().table_len(),
                forall|i: int| 0 <= i < words.len() ==> words@[i] == 0,
            decreases n - words.len(),
        {
            words.push(0);
        }
        assert(words@ =~= zeros(self.platform()));
        self.frames.insert(frame, words);
        self.journal.push(MemOp::Zero { frame });
        proof {
            assert(self@ =~= old(self)@.insert(frame, zeros(self.platform())));
            Self::lemma_journaled(*old(self), *self, MemOp::Zero { frame });
            tree::lemma_outside(
                self.platform(),
                old(self)@,
                self.homes(),
                frame,
                zeros(self.platform()),
            );
        }
    }

    /// Sets a word of a frame that is no table.
    pub fn write(&mut self, frame: u64, index: usize, value: u64)
        requires
            old(self).wf(),
            old(self)@.contains_key(frame),
            !old(self).homes().contains_key(frame),
            index < old(self).platform().table_len(),
        ensures
            final(self).wf(),
            final(self).settled() == old(self).settled(),
            final(self).platform() == old(self).platform(),
            final(self)@ == old(self)@.insert(
                frame,
                old(self)@[frame].update(index as int, value),
            ),
            final(self).homes() == old(self).homes(),
            final(self).space() == old(self).space(),
    {
        self.put(frame, index, value);
        proof {
            Self::lemma_journaled(*old(self), *self, MemOp::Write { frame, index, value });
            tree::lemma_outside(
                self.platform(),
                old(self)@,
                self.homes(),
                frame,
                self@[frame],
            );
        }
    }

    /// Lets a frame of zeros be the start of a tree.
    pub fn make_root(&mut self, frame: u64)
        requires
            old(self).wf(),
            old(self)@.contains_key(frame),
            old(self)@[frame] == zeros(old(self).platform()),
            !old(self).homes().contains_key(frame),
        ensures
            final(self).wf(),
            final(self).settled() == old(self).settled(),
            final(self).platform() == old(self).platform(),
            final(self)@ == old(self)@,
            final(self).is_root(frame),
            final(self).homes() == old(self).homes().insert(
                frame,
                Home { root: frame, level: 0, prefix: 0 },
            ),
            final(self).space() == old(self).space(),
    {
        proof {
            tree::lemma_new_root(self.platform(), self@, self.homes(), frame);
        }
        self.home = Ghost(self.home@.insert(frame, Home { root: frame, level: 0, prefix: 0 }));
        assert(self@ =~= old(self)@);
    }

    /// Hangs a frame of zeros into an empty entry of a table.
    pub fn link(&mut self, table: u64, index: usize, child: u64)
        requires
            old(self).wf(),
            old(self).homes().contains_key(table),
            old(self).homes()[table].level < 3,
            tree::reach(
                old(self).platform(),
                old(self)@,
                old(self).homes()[table].root,
                old(self).homes()[table].level,
                old(self).homes()[table].prefix,
            ) == Some(table),
            index < old(self).platform().table_len(),
            old(self)@[table][index as int] == 0,
            old(self)@.contains_key(child),
            old(self)@[child] == zeros(old(self).platform()),
            !old(self).homes().contains_key(child),
        ensures
            final(self).wf(),
            final(self).settled() == old(self).settled(),
            final(self).platform() == old(self).platform(),
            ({
                let place = Home {
                    root: old(self).homes()[table].root,
                    level: old(self).homes()[table].level + 1,
                    prefix: old(self).homes()[table].prefix * old(self).platform().table_len()
                        + index,
                };
                &&& final(self).homes() == old(self).homes().insert(child, place)
                &&& final(self)@ == old(self)@.insert(
                    table,
                    old(self)@[table].update(index as int, tree::table_desc(child)),
                )
                &&& tree::reach(
                    final(self).platform(),
                    final(self)@,
                    place.root,
                    place.level,
                    place.prefix,
                ) == Some(child)
                &&& final(self).space() == (Space {
                    nodes: old(self).space().nodes.insert(
                        (place.root, place.level, place.prefix),
                    ),
                    ..old(self).space()
                })
            }),
    {
        let ghost place = Home {
            root: self.homes()[table].root,
            level: self.homes()[table].level + 1,
            prefix: self.homes()[table].prefix * self.platform().table_len() + index,
        };
        proof {
            tree::lemma_link(
                self.platform(),
                self@,
                self.homes(),
                table,
                index as int,
                child,
            );
        }
        self.put(table, index, child | tree::DESC_TABLE);
        self.home = Ghost(self.home@.insert(child, place));
        proof {
            assert(self@ =~= old(self)@.insert(
                table,
                old(self)@[table].update(index as int, tree::table_desc(child)),
            ));
            Self::lemma_journaled(
                *old(self),
                *self,
                MemOp::Write { frame: table, index, value: tree::table_desc(child) },
            );
        }
    }

    /// Maps a page, by its entry in a table of the last level.
    pub(crate) fn set_leaf(
        &mut self,
        table: u64,
        index: usize,
        desc: u64,
        Ghost(root): Ghost<u64>,
        Ghost(page): Ghost<int>,
    )
        requires
            old(self).wf(),
            old(self).is_root(root),
            0 <= page,
            index == page % old(self).platform().table_len(),
            tree::reach(
                old(self).platform(),
                old(self)@,
                root,
                3,
                page / old(self).platform().table_len(),
            ) == Some(table),
            desc != 0,
        ensures
            final(self).wf(),
            final(self).settled() == old(self).settled(),
            final(self).platform() == old(self).platform(),
            final(self).homes() == old(self).homes(),
            final(self)@ == old(self)@.insert(
                table,
                old(self)@[table].update(index as int, desc),
            ),
            final(self).space() == (Space {
                leaves: old(self).space().leaves.insert((root, page), desc),
                ..old(self).space()
            }),
    {
        proof {
            let plat = self.platform();
            tree::lemma_split(plat, page);
            tree::lemma_reach_home(
                plat,
                self@,
                self.homes(),
                root,
                3,
                page / plat.table_len(),
            );
            tree::lemma_set_leaf(plat, self@, self.homes(), root, page, table, desc);
        }
        self.put(table, index, desc);
        proof {
            Self::lemma_journaled(
                *old(self),
                *self,
                MemOp::Write { frame: table, index, value: desc },
            );
        }
    }

    /// Takes the journal: the changes since it was last taken, oldest first.
    pub fn take_journal(&mut self) -> (r: Vec<MemOp>)
        requires
            old(self).wf(),
        ensures
            final(self).wf(),
            r@ == old(self).journal(),
            old(self)@ == replayed(old(self).platform(), old(self).settled(), r@),
            final(self).journal() == Seq::<MemOp>::empty(),
            final(self).settled() == old(self)@,
            final(self)@ == old(self)@,
            final(self).platform() == old(self).platform(),
            final(self).homes() == old(self).homes(),
            final(self).space() == old(self).space(),
    {
        let mut ops: Vec<MemOp> = Vec::new();
        let mut i: usize = 0;
        while i < self.journal.len()
            invariant
                i <= self.journal.len(),
                ops@ == self.journal@.take(i as int),
            decreases self.journal.len() - i,
        {
            ops.push(self.journal[i]);
            i += 1;
            assert(ops@ =~= self.journal@.take(i as int));
        }
        assert(ops@ =~= self.journal@);
        self.journal = Vec::new();
        self.settled = Ghost(self@);
        assert(self@ =~= old(self)@);
        ops
    }
}

} // verus!
