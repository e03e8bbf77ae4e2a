//! Mapping pages, with tables made on the way.
use vstd::prelude::*;

use crate::mm::mem::{self, PhysMem};
use crate::mm::paging::MmuError;
use crate::mm::tree::{self, Space};
use crate::platform::Platform;

verus! {

/// The number of tables that are missing on the way to a page.
pub open spec fn missing(plat: Platform, s: Space, root: u64, page: int) -> nat {
    if s.nodes.contains((root, 3, plat.prefix(page, 3))) {
        0
    } else if s.nodes.contains((root, 2, plat.prefix(page, 2))) {
        1
    } else if s.nodes.contains((root, 1, plat.prefix(page, 1))) {
        2
    } else {
        3
    }
}

/// The space after the first `k` of the missing tables have been made, from the top.
pub open spec fn grown(plat: Platform, s: Space, root: u64, page: int, k: nat) -> Space {
    let m = missing(plat, s, root, page);
    Space {
        nodes: s.nodes.union(
            Set::new(
                |n: (u64, int, int)|
                    n.0 == root && 4 - m <= n.1 < 4 - m + k && n.2 == plat.prefix(page, n.1),
            ),
        ),
        ..s
    }
}

/// What an attempt to map something leaves behind: the space, the number of free
/// tables, and the answer.
#[verifier::ext_equal]
pub struct Attempt {
    pub space: Space,
    pub free: nat,
    pub answer: Result<(), MmuError>,
}

/// What an attempt to map one page does.
///
/// A page that is mapped stays as it is. Otherwise the missing tables are made; where
/// they run out, those that were made remain, empty, and no page is mapped.
pub open spec fn map_one(
    plat: Platform,
    s: Space,
    free: nat,
    empty: MmuError,
    root: u64,
    page: int,
    desc: u64,
) -> Attempt {
    let m = missing(plat, s, root, page);
    if s.leaves.contains_key((root, page)) {
        Attempt { space: s, free, answer: Err(MmuError::Overlap) }
    } else if m > free {
        Attempt { space: grown(plat, s, root, page, free), free: 0, answer: Err(empty) }
    } else {
        Attempt {
            space: Space {
                leaves: s.leaves.insert((root, page), desc),
                ..grown(plat, s, root, page, m)
            },
            free: (free - m) as nat,
            answer: Ok(()),
        }
    }
}

/// What an attempt to map `n` pages in a row does: one after the other, up to the
/// first that fails.
pub open spec fn map_many(
    plat: Platform,
    s: Space,
    free: nat,
    empty: MmuError,
    root: u64,
    va: int,
    pa: int,
    attrs: u64,
    n: nat,
) -> Attempt
    decreases n,
{
    if n == 0 {
        Attempt { space: s, free, answer: Ok(()) }
    } else {
        let before = map_many(plat, s, free, empty, root, va, pa, attrs, (n - 1) as nat);
        let off = (n - 1) * plat.page_size();
        if before.answer is Err {
            before
        } else {
            map_one(
                plat,
                before.space,
                before.free,
                empty,
                root,
                plat.page(va + off),
                ((pa + off) as u64) | attrs,
            )
        }
    }
}

/// Whether a source of frames is sound and none of its frames is a table already.
pub open spec fn apart<A: TableSource>(a: &A, m: &PhysMem) -> bool {
    &&& a.sound(m.platform())
    &&& forall|c: u64| #[trigger] a.fresh().contains(c) ==> !m.homes().contains_key(c)
}

/// Where frames for new tables come from.
pub trait TableSource: Sized {
    /// The frames that can still be given out.
    spec fn fresh(&self) -> Set<u64>;

    /// How many they are.
    spec fn free(&self) -> nat;

    /// The one that comes next.
    spec fn next(&self) -> int;

    /// What is answered once none is left.
    spec fn empty_error() -> MmuError;

    /// Where the frames start.
    spec fn origin(&self) -> int;

    /// Where the frames end.
    spec fn limit(&self) -> int;

    /// The state of the source itself is sound.
    spec fn sound(&self, plat: Platform) -> bool;

    /// Gives out a frame of zeros.
    fn take(&mut self, m: &mut PhysMem) -> (r: Result<u64, MmuError>)
        requires
            old(m).wf(),
            old(self).sound(old(m).platform()),
            forall|c: u64| #[trigger]
                old(self).fresh().contains(c) ==> !old(m).homes().contains_key(c),
        ensures
            final(m).wf(),
            final(m).settled() == old(m).settled(),
            final(m).platform() == old(m).platform(),
            final(m).homes() == old(m).homes(),
            final(m).space() == old(m).space(),
            final(self).sound(old(m).platform()),
            final(self).origin() == old(self).origin(),
            final(self).limit() == old(self).limit(),
            match r {
                Ok(c) => {
                    &&& old(self).free() > 0
                    &&& final(self).free() == old(self).free() - 1
                    &&& c == old(self).next()
                    &&& old(self).fresh().contains(c)
                    &&& final(self).fresh() == old(self).fresh().remove(c)
                    &&& final(m)@ == old(m)@.insert(c, mem::zeros(old(m).platform()))
                },
                Err(e) => {
                    &&& old(self).free() == 0
                    &&& e == Self::empty_error()
                    &&& *final(self) == *old(self)
                    &&& final(m)@ == old(m)@
                },
            },
    ;
}

/// What mapping leaves alone: the tables there were, the contents of the frames that
/// are no tables and were not free, and where new tables come from.
pub open spec fn kept<A: TableSource>(m1: &PhysMem, m2: &PhysMem, a1: &A, a2: &A) -> bool {
    &&& a2.origin() == a1.origin()
    &&& a2.limit() == a1.limit()
    &&& forall|t: u64| #[trigger]
        m1.homes().contains_key(t) ==> m2.homes().contains_key(t) && m2.homes()[t]
            == m1.homes()[t]
    &&& forall|t: u64| #[trigger]
        m2.homes().contains_key(t) ==> m1.homes().contains_key(t) || a1.fresh().contains(t)
    &&& forall|t: u64| #[trigger] a2.fresh().contains(t) ==> a1.fresh().contains(t)
    &&& forall|t: u64| #[trigger]
        m1@.contains_key(t) && !m2.homes().contains_key(t) && !a1.fresh().contains(t)
            ==> m2@.contains_key(t) && m2@[t] == m1@[t]
    &&& forall|t: u64| #[trigger]
        m2@.contains_key(t) && !m2.homes().contains_key(t) && !a1.fresh().contains(t)
            ==> m1@.contains_key(t)
}

/// The index of an address in the table of a level.
pub fn index(plat: Platform, va: u64, level: u64) -> (r: usize)
    requires
        level <= 3,
    ensures
        r == plat.index(plat.page(va as int), level as int),
        r < plat.table_len(),
{
    let n = plat.entries();
    let mut q = va % tree::VA_SPAN / plat.granule();
    let mut l: u64 = 3;
    while l > level
        invariant
            level <= l <= 3,
            n == plat.table_len(),
            q == plat.prefix(plat.page(va as int), l + 1),
        decreases l,
    {
        q = q / n;
        l = l - 1;
    }
    (q % n) as usize
}

/// A place on the way to a page is reached from the place above it.
pub proof fn lemma_step(plat: Platform, page: int, level: int)
    requires
        0 <= page,
        0 <= level <= 3,
    ensures
        0 <= plat.prefix(page, level),
        0 <= plat.prefix(page, level + 1),
        plat.prefix(page, level) == plat.prefix(page, level + 1) / plat.table_len(),
        plat.index(page, level) == plat.prefix(page, level + 1) % plat.table_len(),
        plat.prefix(page, level) * plat.table_len() + plat.index(page, level) == plat.prefix(
            page,
            level + 1,
        ),
    decreases 4 - level,
{
    if level < 3 {
        lemma_step(plat, page, level + 1);
    }
    tree::lemma_split(plat, plat.prefix(page, level + 1));
}

/// A page number spells no more than its four indices.
pub proof fn lemma_top(plat: Platform, va: int)
    ensures
        0 <= plat.page(va),
        plat.prefix(plat.page(va), 0) == 0,
{
    reveal_with_fuel(Platform::prefix, 5);
}

/// Where there is a table, there are the tables above it.
pub proof fn lemma_closed(m: &PhysMem, root: u64, page: int)
    requires
        m.wf(),
        m.is_root(root),
        0 <= page,
    ensures
        ({
            let plat = m.platform();
            let s = m.space();
            &&& s.nodes.contains((root, 3, plat.prefix(page, 3))) ==> s.nodes.contains(
                (root, 2, plat.prefix(page, 2)),
            )
            &&& s.nodes.contains((root, 2, plat.prefix(page, 2))) ==> s.nodes.contains(
                (root, 1, plat.prefix(page, 1)),
            )
            &&& s.leaves.contains_key((root, page)) ==> s.nodes.contains(
                (root, 3, plat.prefix(page, 3)),
            )
        }),
{
    let plat = m.platform();
    lemma_step(plat, page, 1);
    lemma_step(plat, page, 2);
    lemma_step(plat, page, 3);
}

/// Maps the page of `va` to the descriptor `pa | attrs`, in the tree at `root`.
pub fn map_page<A: TableSource>(
    m: &mut PhysMem,
    source: &mut A,
    root: u64,
    va: u64,
    pa: u64,
    attrs: u64,
) -> (r: Result<(), MmuError>)
    requires
        old(m).wf(),
        old(m).is_root(root),
        apart(old(source), old(m)),
        attrs != 0,
    ensures
        final(m).wf(),
        final(m).settled() == old(m).settled(),
        final(m).platform() == old(m).platform(),
        apart(final(source), final(m)),
        kept(old(m), final(m), old(source), final(source)),
        (Attempt { space: final(m).space(), free: final(source).free(), answer: r }) == map_one(
            old(m).platform(),
            old(m).space(),
            old(source).free(),
            A::empty_error(),
            root,
            old(m).platform().page(va as int),
            pa | attrs,
        ),
{
    let ghost plat = m.platform();
    let ghost page = plat.page(va as int);
    let ghost s = m.space();
    let ghost free = source.free();
    let ghost need = missing(plat, s, root, page);
    proof {
        lemma_top(plat, va as int);
        lemma_closed(m, root, page);
        assert(grown(plat, s, root, page, 0).nodes =~= s.nodes);
    }
    let mut t = root;
    let mut level: u64 = 0;
    while level < tree::LEAF_LEVEL
        invariant
            level <= 3,
            m.wf(),
            m.settled() == old(m).settled(),
            m.platform() == plat,
            plat == old(m).platform(),
            m.is_root(root),
            apart(source, m),
            page == plat.page(va as int),
            0 <= page,
            plat.prefix(page, 0) == 0,
            s == old(m).space(),
            free == old(source).free(),
            need == missing(plat, s, root, page),
            tree::reach(plat, m@, root, level as int, plat.prefix(page, level as int)) == Some(t),
            level <= 3 - need ==> m.space() == s && source.free() == free,
            level > 3 - need ==> {
                &&& m.space() == grown(plat, s, root, page, (level + need - 3) as nat)
                &&& source.free() == free - (level + need - 3)
            },
            s.leaves.contains_key((root, page)) ==> need == 0,
            s.nodes.contains((root, 3, plat.prefix(page, 3))) ==> s.nodes.contains(
                (root, 2, plat.prefix(page, 2)),
            ),
            s.nodes.contains((root, 2, plat.prefix(page, 2))) ==> s.nodes.contains(
                (root, 1, plat.prefix(page, 1)),
            ),
            kept(old(m), m, old(source), source),
        decreases 3 - level,
    {
        let i = index(m.plat(), va, level);
        proof {
            lemma_step(plat, page, level as int);
            tree::lemma_reach_home(
                plat,
                m@,
                m.homes(),
                root,
                level as int,
                plat.prefix(page, level as int),
            );
            assert(tree::entry_ok(plat, m@, m.homes(), t, i as int));
            assert(m.space().nodes.contains((root, level + 1, plat.prefix(page, level + 1)))
                == (m@[t][i as int] != 0));
        }
        let entry = m.read(t, i);
        if entry == 0 {
            let ghost before = *m;
            let child = match source.take(m) {
                Ok(child) => child,
                Err(e) => {
                    return Err(e);
                },
            };
            proof {
                // the empty frame changes none of the tables
                tree::lemma_reach_home(
                    plat,
                    before@,
                    before.homes(),
                    root,
                    level as int,
                    plat.prefix(page, level as int),
                );
                lemma_reach_same(
                    &before,
                    m,
                    child,
                    root,
                    level as int,
                    plat.prefix(page, level as int),
                );
            }
            m.link(t, i, child);
            proof {
                let k = (level + need - 3) as nat;
                assert(m.space().nodes =~= grown(plat, s, root, page, (k + 1) as nat).nodes);
            }
            t = child;
        } else if entry & tree::DESC_KIND == tree::DESC_TABLE {
            t = entry & m.plat().addr_mask();
        } else {
            proof {
                tree::lemma_table_desc(plat, entry & plat.addr_bits());
            }
            return Err(MmuError::BadTable);
        }
        level = level + 1;
    }
    let i = index(m.plat(), va, tree::LEAF_LEVEL);
    proof {
        lemma_step(plat, page, 3);
        tree::lemma_reach_home(plat, m@, m.homes(), root, 3, plat.prefix(page, 3));
        assert(m.space().leaves.contains_key((root, page)) == (m@[t][i as int] != 0));
    }
    if m.read(t, i) != 0 {
        return Err(MmuError::Overlap);
    }
    proof {
        assert(attrs != 0 ==> (pa | attrs) != 0) by (bit_vector);
    }
    m.set_leaf(t, i, pa | attrs, Ghost(root), Ghost(page));
    Ok(())
}

/// A frame that is no table does not matter to the way to a table.
proof fn lemma_reach_same(
    m1: &PhysMem,
    m2: &PhysMem,
    frame: u64,
    root: u64,
    level: int,
    prefix: int,
)
    requires
        m1.wf(),
        m1.is_root(root),
        !m1.homes().contains_key(frame),
        m2.platform() == m1.platform(),
        m2@ == m1@.insert(frame, m2@[frame]),
        0 <= level <= 3,
        0 <= prefix,
    ensures
        tree::reach(m2.platform(), m2@, root, level, prefix) == tree::reach(
            m1.platform(),
            m1@,
            root,
            level,
            prefix,
        ),
    decreases level,
{
    if level > 0 {
        let plat = m1.platform();
        tree::lemma_split(plat, prefix);
        lemma_reach_same(m1, m2, frame, root, level - 1, prefix / plat.table_len());
        if tree::reach(plat, m1@, root, level - 1, prefix / plat.table_len()) is Some {
            tree::lemma_reach_home(
                plat,
                m1@,
                m1.homes(),
                root,
                level - 1,
                prefix / plat.table_len(),
            );
        }
    }
}

/// Maps `n` pages in a row, starting with that of `va`, to the frames in a row from
/// `pa` on.
pub fn map_pages<A: TableSource>(
    m: &mut PhysMem,
    source: &mut A,
    root: u64,
    va: u64,
    pa: u64,
    attrs: u64,
    n: u64,
) -> (r: Result<(), MmuError>)
    requires
        old(m).wf(),
        old(m).is_root(root),
        apart(old(source), old(m)),
        attrs != 0,
        va + n * old(m).platform().page_size() <= u64::MAX + 1,
        pa + n * old(m).platform().page_size() <= u64::MAX + 1,
    ensures
        final(m).wf(),
        final(m).settled() == old(m).settled(),
        final(m).platform() == old(m).platform(),
        apart(final(source), final(m)),
        kept(old(m), final(m), old(source), final(source)),
        (Attempt { space: final(m).space(), free: final(source).free(), answer: r }) == map_many(
            old(m).platform(),
            old(m).space(),
            old(source).free(),
            A::empty_error(),
            root,
            va as int,
            pa as int,
            attrs,
            n as nat,
        ),
{
    let g = m.plat().granule();
    let ghost plat = m.platform();
    let ghost s = m.space();
    let ghost free = source.free();
    let mut i: u64 = 0;
    while i < n
        invariant
            i <= n,
            g == plat.page_size(),
            plat == old(m).platform(),
            m.platform() == plat,
            m.wf(),
            m.settled() == old(m).settled(),
            m.is_root(root),
            apart(source, m),
            attrs != 0,
            va + n * plat.page_size() <= u64::MAX + 1,
            pa + n * plat.page_size() <= u64::MAX + 1,
            s == old(m).space(),
            free == old(source).free(),
            kept(old(m), m, old(source), source),
            (Attempt { space: m.space(), free: source.free(), answer: Ok(()) }) == map_many(
                plat,
                s,
                free,
                A::empty_error(),
                root,
                va as int,
                pa as int,
                attrs,
                i as nat,
            ),
        decreases n - i,
    {
        proof {
            let page = plat.page_size();
            assert(0 <= i * page <= (n - 1) * page && (n - 1) * page + page == n * page)
                by (nonlinear_arith)
                requires
                    0 <= i <= n - 1,
                    page > 0,
            ;
        }
        let off = i * g;
        let ghost mid = *m;
        match map_page(m, source, root, va + off, pa + off, attrs) {
            Ok(_) => {},
            Err(e) => {
                proof {
                    lemma_map_many_error(
                        plat,
                        s,
                        free,
                        A::empty_error(),
                        root,
                        va as int,
                        pa as int,
                        attrs,
                        (i + 1) as nat,
                        n as nat,
                    );
                }
                return Err(e);
            },
        }
        i = i + 1;
    }
    Ok(())
}

/// A failure ends the row.
pub proof fn lemma_map_many_error(
    plat: Platform,
    s: Space,
    free: nat,
    empty: MmuError,
    root: u64,
    va: int,
    pa: int,
    attrs: u64,
    k: nat,
    n: nat,
)
    requires
        k <= n,
        map_many(plat, s, free, empty, root, va, pa, attrs, k).answer is Err,
    ensures
        map_many(plat, s, free, empty, root, va, pa, attrs, n) == map_many(
            plat,
            s,
            free,
            empty,
            root,
            va,
            pa,
            attrs,
            k,
        ),
    decreases n - k,
{
    if k < n {
        lemma_map_many_error(plat, s, free, empty, root, va, pa, attrs, k, (n - 1) as nat);
    }
}

/// Goes down the tree at `root` towards the page of `va`, as far as there are tables:
/// gives the last table and its level.
pub fn descend(m: &PhysMem, root: u64, va: u64) -> (r: Result<(u64, u64), MmuError>)
    requires
        m.wf(),
        m.is_root(root),
    ensures
        ({
            let plat = m.platform();
            let page = plat.page(va as int);
            r matches Ok((t, level)) && {
                &&& level == 3 - missing(plat, m.space(), root, page)
                &&& tree::reach(plat, m@, root, level as int, plat.prefix(page, level as int))
                    == Some(t)
            }
        }),
{
    let ghost plat = m.platform();
    let ghost page = plat.page(va as int);
    let ghost need = missing(plat, m.space(), root, page);
    proof {
        lemma_top(plat, va as int);
        lemma_closed(m, root, page);
    }
    let mut t = root;
    let mut level: u64 = 0;
    while level < tree::LEAF_LEVEL
        invariant
            level <= 3 - need,
            m.wf(),
            m.is_root(root),
            plat == m.platform(),
            page == plat.page(va as int),
            0 <= page,
            need == missing(plat, m.space(), root, page),
            tree::reach(plat, m@, root, level as int, plat.prefix(page, level as int)) == Some(t),
            m.space().nodes.contains((root, 3, plat.prefix(page, 3))) ==> m.space().nodes.contains(
                (root, 2, plat.prefix(page, 2)),
            ),
            m.space().nodes.contains((root, 2, plat.prefix(page, 2))) ==> m.space().nodes.contains(
                (root, 1, plat.prefix(page, 1)),
            ),
        decreases 3 - level,
    {
        let i = index(m.plat(), va, level);
        proof {
            lemma_step(plat, page, level as int);
            tree::lemma_reach_home(
                plat,
                m@,
                m.homes(),
                root,
                level as int,
                plat.prefix(page, level as int),
            );
            assert(tree::entry_ok(plat, m@, m.homes(), t, i as int));
            assert(m.space().nodes.contains((root, level + 1, plat.prefix(page, level + 1)))
                == (m@[t][i as int] != 0));
        }
        let entry = m.read(t, i);
        if entry == 0 {
            return Ok((t, level));
        }
        if entry & tree::DESC_KIND != tree::DESC_TABLE {
            proof {
                tree::lemma_table_desc(plat, entry & plat.addr_bits());
            }
            return Err(MmuError::BadTable);
        }
        t = entry & m.plat().addr_mask();
        level = level + 1;
    }
    Ok((t, level))
}

} // verus!
