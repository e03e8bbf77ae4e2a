//! Translation tables as trees.
//!
//! An address space is a tree of tables, four levels deep. Every table has a home:
//! the one place in the one tree where it belongs. As long as each entry leads to
//! a table whose home it is, no two entries share a table, and a change in one
//! place shows up in no other.
use vstd::prelude::*;

use crate::platform::Platform;

verus! {

/// Level of the tables whose entries are pages.
pub const LEAF_LEVEL: u64 = 3;

/// Mask of the low bits that tell what a descriptor is.
pub const DESC_KIND: u64 = 0b11;

/// A descriptor that leads to a table of the next level.
pub const DESC_TABLE: u64 = 0b11;

/// A descriptor that maps a page.
pub const DESC_PAGE: u64 = 0b11;

/// Size of the address range that a tree translates: 48 bits.
pub const VA_SPAN: u64 = 0x1_0000_0000_0000;

/// The place of a table: its tree, its level and the number that the indices of the
/// levels above it spell.
pub struct Home {
    pub root: u64,
    pub level: int,
    pub prefix: int,
}

/// What a set of trees translates: which tables there are, by place, and which page
/// of which tree has which descriptor.
#[verifier::ext_equal]
pub struct Space {
    pub nodes: Set<(u64, int, int)>,
    pub leaves: Map<(u64, int), u64>,
}

impl Platform {
    /// The bits of a descriptor that hold an address.
    pub open spec fn addr_bits(self) -> u64 {
        match self {
            Platform::Virt => 0x0000_FFFF_FFFF_F000,
            Platform::Apple => 0x0000_FFFF_FFFF_C000,
        }
    }

    /// The bits of a descriptor that hold an address.
    pub fn addr_mask(self) -> (r: u64)
        ensures
            r == self.addr_bits(),
    {
        match self {
            Platform::Virt => 0x0000_FFFF_FFFF_F000,
            Platform::Apple => 0x0000_FFFF_FFFF_C000,
        }
    }

    /// The number of the page that holds an address, within a tree.
    pub open spec fn page(self, va: int) -> int {
        (va % VA_SPAN as int) / self.page_size()
    }

    /// What is left of a page number at a level: the number that the indices of the
    /// levels above spell.
    pub open spec fn prefix(self, page: int, level: int) -> int
        decreases 4 - level,
    {
        if level >= 4 {
            page
        } else {
            self.prefix(page, level + 1) / self.table_len()
        }
    }

    /// The index that a page has in the table of a level.
    pub open spec fn index(self, page: int, level: int) -> int {
        self.prefix(page, level + 1) % self.table_len()
    }

    /// Whether a table can stand at the address.
    pub open spec fn table_addr(self, pa: u64) -> bool {
        pa as int % self.page_size() == 0 && pa < VA_SPAN
    }
}

/// The descriptor that leads to the table at `child`.
pub open spec fn table_desc(child: u64) -> u64 {
    child | DESC_TABLE
}

/// A table descriptor is not 0 and gives its address back.
pub proof fn lemma_table_desc(plat: Platform, child: u64)
    requires
        plat.table_addr(child),
    ensures
        table_desc(child) != 0,
        table_desc(child) & DESC_KIND == DESC_TABLE,
        table_desc(child) & plat.addr_bits() == child,
{
    assert((child | 0b11) != 0 && (child | 0b11) & 0b11 == 0b11) by (bit_vector);
    match plat {
        Platform::Virt => {
            assert((child | 0b11) & 0x0000_FFFF_FFFF_F000 == child) by (bit_vector)
                requires
                    child % 4096 == 0,
                    child < 0x1_0000_0000_0000,
            ;
        },
        Platform::Apple => {
            assert((child | 0b11) & 0x0000_FFFF_FFFF_C000 == child) by (bit_vector)
                requires
                    child % 16384 == 0,
                    child < 0x1_0000_0000_0000,
            ;
        },
    }
}

/// The table in place `(root, level, prefix)`, if there is one.
pub open spec fn reach(
    plat: Platform,
    tables: Map<u64, Seq<u64>>,
    root: u64,
    level: int,
    prefix: int,
) -> Option<u64>
    decreases level,
{
    if level <= 0 {
        if prefix == 0 {
            Some(root)
        } else {
            None
        }
    } else {
        match reach(plat, tables, root, level - 1, prefix / plat.table_len()) {
            Some(t) => {
                let entry = tables[t][prefix % plat.table_len()];
                if entry == 0 {
                    None
                } else {
                    Some(entry & plat.addr_bits())
                }
            },
            None => None,
        }
    }
}

/// The descriptor of a page; 0 where the page is not mapped.
pub open spec fn leaf(plat: Platform, tables: Map<u64, Seq<u64>>, root: u64, page: int) -> u64 {
    match reach(plat, tables, root, 3, page / plat.table_len()) {
        Some(t) => tables[t][page % plat.table_len()],
        None => 0,
    }
}

/// Whether a tree starts at `root`.
pub open spec fn is_root(home: Map<u64, Home>, root: u64) -> bool {
    home.contains_key(root) && home[root] == (Home { root, level: 0, prefix: 0 })
}

/// Whether an entry of a table is right: empty, or leading to the table whose home
/// it is. Entries of the last level map pages and may be anything.
pub open spec fn entry_ok(
    plat: Platform,
    tables: Map<u64, Seq<u64>>,
    home: Map<u64, Home>,
    t: u64,
    i: int,
) -> bool {
    let entry = tables[t][i];
    let child = entry & plat.addr_bits();
    home[t].level < 3 && entry != 0 ==> {
        &&& entry == table_desc(child)
        &&& plat.table_addr(child)
        &&& home.contains_key(child)
        &&& home[child] == (Home {
            root: home[t].root,
            level: home[t].level + 1,
            prefix: home[t].prefix * plat.table_len() + i,
        })
    }
}

/// Whether the tables form trees.
pub open spec fn trees(plat: Platform, tables: Map<u64, Seq<u64>>, home: Map<u64, Home>) -> bool {
    &&& forall|t: u64| #[trigger]
        home.contains_key(t) ==> {
            &&& tables.contains_key(t)
            &&& tables[t].len() == plat.table_len()
            &&& plat.table_addr(t)
            &&& 0 <= home[t].level <= 3
            &&& 0 <= home[t].prefix
            &&& home[t].level == 0 ==> home[t].prefix == 0 && home[t].root == t
            &&& is_root(home, home[t].root)
        }
    &&& forall|t: u64, i: int|
        home.contains_key(t) && 0 <= i < plat.table_len() ==> #[trigger] entry_ok(
            plat,
            tables,
            home,
            t,
            i,
        )
}

/// What the trees translate.
pub open spec fn space(
    plat: Platform,
    tables: Map<u64, Seq<u64>>,
    home: Map<u64, Home>,
) -> Space {
    Space {
        nodes: Set::new(
            |k: (u64, int, int)|
                is_root(home, k.0) && 1 <= k.1 <= 3 && 0 <= k.2 && reach(
                    plat,
                    tables,
                    k.0,
                    k.1,
                    k.2,
                ) is Some,
        ),
        leaves: Map::new(
            |k: (u64, int)| is_root(home, k.0) && 0 <= k.1 && leaf(plat, tables, k.0, k.1) != 0,
            |k: (u64, int)| leaf(plat, tables, k.0, k.1),
        ),
    }
}

/// A number is its quotient and remainder by the length of a table.
pub proof fn lemma_split(plat: Platform, p: int)
    requires
        0 <= p,
    ensures
        p == p / plat.table_len() * plat.table_len() + p % plat.table_len(),
        0 <= p / plat.table_len() <= p,
        0 <= p % plat.table_len() < plat.table_len(),
        p > 0 ==> p / plat.table_len() < p,
{
}

/// The pieces of a number are unique.
pub proof fn lemma_join(plat: Platform, q: int, i: int)
    requires
        0 <= q,
        0 <= i < plat.table_len(),
    ensures
        (q * plat.table_len() + i) / plat.table_len() == q,
        (q * plat.table_len() + i) % plat.table_len() == i,
        0 <= q * plat.table_len() + i,
{
}

/// A table that can be reached is at home where it is reached.
pub proof fn lemma_reach_home(
    plat: Platform,
    tables: Map<u64, Seq<u64>>,
    home: Map<u64, Home>,
    root: u64,
    level: int,
    prefix: int,
)
    requires
        trees(plat, tables, home),
        is_root(home, root),
        0 <= level <= 3,
        0 <= prefix,
        reach(plat, tables, root, level, prefix) is Some,
    ensures
        ({
            let t = reach(plat, tables, root, level, prefix)->0;
            &&& home.contains_key(t)
            &&& home[t] == (Home { root, level, prefix })
        }),
    decreases level,
{
    if level > 0 {
        lemma_split(plat, prefix);
        lemma_reach_home(plat, tables, home, root, level - 1, prefix / plat.table_len());
        let t = reach(plat, tables, root, level - 1, prefix / plat.table_len())->0;
        assert(entry_ok(plat, tables, home, t, prefix % plat.table_len()));
    }
}

/// Setting an entry of the last level changes that page of that tree and nothing
/// else.
pub proof fn lemma_set_leaf(
    plat: Platform,
    tables: Map<u64, Seq<u64>>,
    home: Map<u64, Home>,
    root: u64,
    page: int,
    t: u64,
    desc: u64,
)
    requires
        trees(plat, tables, home),
        is_root(home, root),
        0 <= page,
        reach(plat, tables, root, 3, page / plat.table_len()) == Some(t),
        desc != 0,
    ensures
        ({
            let after = tables.insert(t, tables[t].update(page % plat.table_len(), desc));
            &&& trees(plat, after, home)
            &&& space(plat, after, home) == (Space {
                leaves: space(plat, tables, home).leaves.insert((root, page), desc),
                ..space(plat, tables, home)
            })
        }),
{
    let i = page % plat.table_len();
    let after = tables.insert(t, tables[t].update(i, desc));
    lemma_split(plat, page);
    lemma_reach_home(plat, tables, home, root, 3, page / plat.table_len());
    assert(trees(plat, after, home)) by {
        assert forall|u: u64, j: int|
            home.contains_key(u) && 0 <= j < plat.table_len() implies #[trigger] entry_ok(
            plat,
            after,
            home,
            u,
            j,
        ) by {
            assert(entry_ok(plat, tables, home, u, j));
        }
    }
    assert forall|r: u64, l: int, p: int|
        is_root(home, r) && l <= 3 && 0 <= p implies #[trigger] reach(plat, after, r, l, p)
        == reach(plat, tables, r, l, p) by {
        lemma_upper_levels(plat, tables, after, home, t, r, l, p);
    }
    let before = space(plat, tables, home);
    assert(space(plat, after, home).nodes =~= before.nodes);
    assert forall|r: u64, n: int| is_root(home, r) && 0 <= n implies #[trigger] leaf(
        plat,
        after,
        r,
        n,
    ) == (if r == root && n == page {
        desc
    } else {
        leaf(plat, tables, r, n)
    }) by {
        lemma_split(plat, n);
        if reach(plat, tables, r, 3, n / plat.table_len()) is Some {
            lemma_reach_home(plat, tables, home, r, 3, n / plat.table_len());
        }
    }
    assert(space(plat, after, home).leaves =~= before.leaves.insert((root, page), desc));
}

/// The way to a table does not go through the entries of a table of the last level.
proof fn lemma_upper_levels(
    plat: Platform,
    tables: Map<u64, Seq<u64>>,
    after: Map<u64, Seq<u64>>,
    home: Map<u64, Home>,
    t: u64,
    root: u64,
    level: int,
    prefix: int,
)
    requires
        trees(plat, tables, home),
        is_root(home, root),
        home.contains_key(t),
        home[t].level == 3,
        level <= 3,
        0 <= prefix,
        after == tables.insert(t, after[t]),
    ensures
        reach(plat, after, root, level, prefix) == reach(plat, tables, root, level, prefix),
    decreases level,
{
    if level > 0 {
        let up = prefix / plat.table_len();
        lemma_split(plat, prefix);
        lemma_upper_levels(plat, tables, after, home, t, root, level - 1, up);
        if reach(plat, tables, root, level - 1, up) is Some {
            lemma_reach_home(plat, tables, home, root, level - 1, up);
        }
    }
}

/// Hanging an empty table into an empty entry adds its place and translates nothing
/// new.
pub proof fn lemma_link(
    plat: Platform,
    tables: Map<u64, Seq<u64>>,
    home: Map<u64, Home>,
    t: u64,
    i: int,
    child: u64,
)
    requires
        trees(plat, tables, home),
        home.contains_key(t),
        home[t].level < 3,
        reach(plat, tables, home[t].root, home[t].level, home[t].prefix) == Some(t),
        0 <= i < plat.table_len(),
        tables[t][i] == 0,
        !home.contains_key(child),
        plat.table_addr(child),
        tables.contains_key(child),
        tables[child] == Seq::new(plat.table_len() as nat, |k: int| 0u64),
    ensures
        ({
            let place = Home {
                root: home[t].root,
                level: home[t].level + 1,
                prefix: home[t].prefix * plat.table_len() + i,
            };
            let after = tables.insert(t, tables[t].update(i, table_desc(child)));
            let home2 = home.insert(child, place);
            &&& trees(plat, after, home2)
            &&& reach(plat, after, place.root, place.level, place.prefix) == Some(child)
            &&& space(plat, after, home2) == (Space {
                nodes: space(plat, tables, home).nodes.insert(
                    (place.root, place.level, place.prefix),
                ),
                ..space(plat, tables, home)
            })
        }),
{
    let place = Home {
        root: home[t].root,
        level: home[t].level + 1,
        prefix: home[t].prefix * plat.table_len() + i,
    };
    let after = tables.insert(t, tables[t].update(i, table_desc(child)));
    let home2 = home.insert(child, place);
    lemma_table_desc(plat, child);
    lemma_join(plat, home[t].prefix, i);
    assert(is_root(home, home[t].root));
    assert forall|r: u64| #[trigger] is_root(home2, r) == is_root(home, r) by {}
    assert(trees(plat, after, home2)) by {
        assert forall|u: u64| #[trigger] home2.contains_key(u) implies is_root(
            home2,
            home2[u].root,
        ) by {
            if u != child {
                assert(home.contains_key(u));
                assert(is_root(home, home[u].root));
            }
            assert(is_root(home2, home2[u].root) == is_root(home, home2[u].root));
        }
        assert forall|u: u64, j: int|
            home2.contains_key(u) && 0 <= j < plat.table_len() implies #[trigger] entry_ok(
            plat,
            after,
            home2,
            u,
            j,
        ) by {
            if u != child {
                assert(entry_ok(plat, tables, home, u, j));
            }
        }
    }
    assert forall|r: u64, l: int, p: int|
        is_root(home, r) && l <= 3 && 0 <= p implies #[trigger] reach(plat, after, r, l, p) == (
    if r == place.root && l == place.level && p == place.prefix {
        Some(child)
    } else {
        reach(plat, tables, r, l, p)
    }) by {
        lemma_link_reach(plat, tables, home, t, i, child, r, l, p);
    }
    assert(reach(plat, after, place.root, place.level, place.prefix) == Some(child));
    let before = space(plat, tables, home);
    assert(space(plat, after, home2).nodes =~= before.nodes.insert(
        (place.root, place.level, place.prefix),
    ));
    assert forall|r: u64, n: int| is_root(home, r) && 0 <= n implies #[trigger] leaf(
        plat,
        after,
        r,
        n,
    ) == leaf(plat, tables, r, n) by {
        lemma_split(plat, n);
        let q = n / plat.table_len();
        if r == place.root && place.level == 3 && q == place.prefix {
            lemma_missing(plat, tables, home, t, i);
        } else if reach(plat, tables, r, 3, q) is Some {
            lemma_reach_home(plat, tables, home, r, 3, q);
        }
    }
    assert(space(plat, after, home2).leaves =~= before.leaves);
}

/// Nothing is in the place below an empty entry.
proof fn lemma_missing(
    plat: Platform,
    tables: Map<u64, Seq<u64>>,
    home: Map<u64, Home>,
    t: u64,
    i: int,
)
    requires
        trees(plat, tables, home),
        home.contains_key(t),
        home[t].level < 3,
        reach(plat, tables, home[t].root, home[t].level, home[t].prefix) == Some(t),
        0 <= i < plat.table_len(),
        tables[t][i] == 0,
    ensures
        reach(
            plat,
            tables,
            home[t].root,
            home[t].level + 1,
            home[t].prefix * plat.table_len() + i,
        ) is None,
{
    lemma_join(plat, home[t].prefix, i);
}

proof fn lemma_link_reach(
    plat: Platform,
    tables: Map<u64, Seq<u64>>,
    home: Map<u64, Home>,
    t: u64,
    i: int,
    child: u64,
    r: u64,
    l: int,
    p: int,
)
    requires
        trees(plat, tables, home),
        home.contains_key(t),
        home[t].level < 3,
        reach(plat, tables, home[t].root, home[t].level, home[t].prefix) == Some(t),
        0 <= i < plat.table_len(),
        tables[t][i] == 0,
        !home.contains_key(child),
        plat.table_addr(child),
        tables.contains_key(child),
        tables[child] == Seq::new(plat.table_len() as nat, |k: int| 0u64),
        is_root(home, r),
        l <= 3,
        0 <= p,
    ensures
        reach(
            plat,
            tables.insert(t, tables[t].update(i, table_desc(child))),
            r,
            l,
            p,
        ) == (if r == home[t].root && l == home[t].level + 1 && p == home[t].prefix
            * plat.table_len() + i {
            Some(child)
        } else {
            reach(plat, tables, r, l, p)
        }),
    decreases l,
{
    let after = tables.insert(t, tables[t].update(i, table_desc(child)));
    lemma_table_desc(plat, child);
    lemma_join(plat, home[t].prefix, i);
    if l > 0 {
        let up = p / plat.table_len();
        let k = p % plat.table_len();
        lemma_split(plat, p);
        lemma_link_reach(plat, tables, home, t, i, child, r, l - 1, up);
        if r == home[t].root && l - 1 == home[t].level + 1 && up == home[t].prefix
            * plat.table_len() + i {
            lemma_missing(plat, tables, home, t, i);
            assert(after[child][k] == 0);
        } else if reach(plat, tables, r, l - 1, up) is Some {
            lemma_reach_home(plat, tables, home, r, l - 1, up);
        }
    }
}

/// A new tree, made of one empty table, translates nothing.
pub proof fn lemma_new_root(
    plat: Platform,
    tables: Map<u64, Seq<u64>>,
    home: Map<u64, Home>,
    root: u64,
)
    requires
        trees(plat, tables, home),
        !home.contains_key(root),
        plat.table_addr(root),
        tables.contains_key(root),
        tables[root] == Seq::new(plat.table_len() as nat, |k: int| 0u64),
    ensures
        ({
            let home2 = home.insert(root, Home { root, level: 0, prefix: 0 });
            &&& trees(plat, tables, home2)
            &&& is_root(home2, root)
            &&& space(plat, tables, home2) == space(plat, tables, home)
        }),
{
    let home2 = home.insert(root, Home { root, level: 0, prefix: 0 });
    assert forall|r: u64| #[trigger] is_root(home2, r) == (r == root || is_root(home, r)) by {}
    assert(trees(plat, tables, home2)) by {
        assert forall|u: u64| #[trigger] home2.contains_key(u) implies is_root(
            home2,
            home2[u].root,
        ) by {
            if u != root {
                assert(home.contains_key(u));
                assert(is_root(home, home[u].root));
            }
            assert(is_root(home2, home2[u].root) == (home2[u].root == root || is_root(
                home,
                home2[u].root,
            )));
        }
        assert forall|u: u64, j: int|
            home2.contains_key(u) && 0 <= j < plat.table_len() implies #[trigger] entry_ok(
            plat,
            tables,
            home2,
            u,
            j,
        ) by {
            if u != root {
                assert(entry_ok(plat, tables, home, u, j));
            }
        }
    }
    assert forall|l: int, p: int| 1 <= l <= 3 && 0 <= p implies #[trigger] reach(
        plat,
        tables,
        root,
        l,
        p,
    ) is None by {
        lemma_empty_root(plat, tables, root, l, p);
    }
    assert forall|n: int| 0 <= n implies #[trigger] leaf(plat, tables, root, n) == 0 by {
        lemma_split(plat, n);
        assert(reach(plat, tables, root, 3, n / plat.table_len()) is None);
    }
    assert(space(plat, tables, home2) =~= space(plat, tables, home));
}

proof fn lemma_empty_root(
    plat: Platform,
    tables: Map<u64, Seq<u64>>,
    root: u64,
    l: int,
    p: int,
)
    requires
        tables[root] == Seq::new(plat.table_len() as nat, |k: int| 0u64),
        1 <= l,
        0 <= p,
    ensures
        reach(plat, tables, root, l, p) is None,
    decreases l,
{
    lemma_split(plat, p);
    if l > 1 {
        lemma_empty_root(plat, tables, root, l - 1, p / plat.table_len());
    }
}

/// What stands outside the trees has no part in what they translate.
pub proof fn lemma_outside(
    plat: Platform,
    tables: Map<u64, Seq<u64>>,
    home: Map<u64, Home>,
    t: u64,
    words: Seq<u64>,
)
    requires
        trees(plat, tables, home),
        !home.contains_key(t),
    ensures
        trees(plat, tables.insert(t, words), home),
        space(plat, tables.insert(t, words), home) == space(plat, tables, home),
{
    let after = tables.insert(t, words);
    assert(trees(plat, after, home)) by {
        assert forall|u: u64, j: int|
            home.contains_key(u) && 0 <= j < plat.table_len() implies #[trigger] entry_ok(
            plat,
            after,
            home,
            u,
            j,
        ) by {
            assert(entry_ok(plat, tables, home, u, j));
        }
    }
    assert forall|r: u64, l: int, p: int|
        is_root(home, r) && l <= 3 && 0 <= p implies #[trigger] reach(plat, after, r, l, p)
        == reach(plat, tables, r, l, p) by {
        lemma_outside_reach(plat, tables, home, t, words, r, l, p);
    }
    assert forall|r: u64, n: int| is_root(home, r) && 0 <= n implies #[trigger] leaf(
        plat,
        after,
        r,
        n,
    ) == leaf(plat, tables, r, n) by {
        lemma_split(plat, n);
        if reach(plat, tables, r, 3, n / plat.table_len()) is Some {
            lemma_reach_home(plat, tables, home, r, 3, n / plat.table_len());
        }
    }
    assert(space(plat, after, home) =~= space(plat, tables, home));
}

proof fn lemma_outside_reach(
    plat: Platform,
    tables: Map<u64, Seq<u64>>,
    home: Map<u64, Home>,
    t: u64,
    words: Seq<u64>,
    r: u64,
    l: int,
    p: int,
)
    requires
        trees(plat, tables, home),
        !home.contains_key(t),
        is_root(home, r),
        l <= 3,
        0 <= p,
    ensures
        reach(plat, tables.insert(t, words), r, l, p) == reach(plat, tables, r, l, p),
    decreases l,
{
    if l > 0 {
        let up = p / plat.table_len();
        lemma_split(plat, p);
        lemma_outside_reach(plat, tables, home, t, words, r, l - 1, up);
        if reach(plat, tables, r, l - 1, up) is Some {
            lemma_reach_home(plat, tables, home, r, l - 1, up);
        }
    }
}

} // verus!
