//! What mapping promises as a whole.
use vstd::prelude::*;

use crate::abi::KERNEL_VA_OFFSET;
use crate::mm::paging::{self, KernelLayout, MmuError, Perm, Request};
use crate::mm::tree::{self, Space};
use crate::mm::walk;
use crate::platform::Platform;

verus! {

/// The upper half is a linear alias: an address there and the physical address it
/// stands for have the same page number, each in its tree.
pub proof fn lemma_alias_is_linear(plat: Platform, pa: int)
    requires
        0 <= pa < tree::VA_SPAN,
    ensures
        plat.page(pa + KERNEL_VA_OFFSET) == plat.page(pa),
        plat.page(pa) == pa / plat.page_size(),
{
    assert((pa + KERNEL_VA_OFFSET) % (tree::VA_SPAN as int) == pa);
}

/// Whether one of `n` pages in a row, the first that of `va`, is `page`.
pub open spec fn in_row(plat: Platform, va: int, n: nat, page: int) -> bool {
    exists|k: int| 0 <= k < n && #[trigger] plat.page(va + k * plat.page_size()) == page
}

/// The page of an address in a range is one of the pages in a row that the alias of the
/// range has in the upper half.
pub proof fn lemma_alias_in_row(plat: Platform, pa: int, len: int, p: int)
    requires
        pa % plat.page_size() == 0,
        len % plat.page_size() == 0,
        0 <= pa <= p < pa + len,
        pa + len <= tree::VA_SPAN,
    ensures
        in_row(plat, pa + KERNEL_VA_OFFSET, (len / plat.page_size()) as nat, plat.page(p)),
{
    let g = plat.page_size();
    let va = pa + KERNEL_VA_OFFSET;
    let k = (p - pa) / g;
    let n = (len / g) as nat;
    let rest = (p - pa) % g;
    vstd::arithmetic::div_mod::lemma_fundamental_div_mod(p - pa, g);
    vstd::arithmetic::div_mod::lemma_fundamental_div_mod(len, g);
    assert(0 <= k < n) by (nonlinear_arith)
        requires
            p - pa == g * k + rest,
            0 <= rest < g,
            0 <= p - pa < len,
            len == g * n,
            g > 0,
    ;
    let at = pa + k * g;
    assert(at == p - rest) by (nonlinear_arith)
        requires
            p - pa == g * k + rest,
            at == pa + k * g,
    ;
    lemma_alias_is_linear(plat, at);
    assert(va + k * g == at + KERNEL_VA_OFFSET);
    assert(plat.page(at) == plat.page(p)) by {
        vstd::arithmetic::div_mod::lemma_fundamental_div_mod_converse(p, g, pa / g + k, rest);
        vstd::arithmetic::div_mod::lemma_fundamental_div_mod(pa, g);
        assert(g * (pa / g + k) + rest == p) by (nonlinear_arith)
            requires
                pa == g * (pa / g),
                p - pa == g * k + rest,
        ;
        vstd::arithmetic::div_mod::lemma_fundamental_div_mod_converse(at, g, pa / g + k, 0);
        assert(g * (pa / g + k) == at) by (nonlinear_arith)
            requires
                pa == g * (pa / g),
                at == pa + k * g,
        ;
    }
    assert(0 <= k < n && plat.page(va + k * g) == plat.page(p));
}

/// Pages that were mapped in a row translate to the frames in a row, none of them was
/// mapped before, and no other page of any tree has changed.
pub proof fn lemma_mapped_row_translates(
    plat: Platform,
    s: Space,
    free: nat,
    empty: MmuError,
    root: u64,
    va: int,
    pa: int,
    attrs: u64,
    n: nat,
)
    requires
        walk::map_many(plat, s, free, empty, root, va, pa, attrs, n).answer is Ok,
    ensures
        ({
            let after = walk::map_many(plat, s, free, empty, root, va, pa, attrs, n).space;
            &&& forall|k: int|
                0 <= k < n ==> {
                    let page = #[trigger] plat.page(va + k * plat.page_size());
                    &&& !s.leaves.contains_key((root, page))
                    &&& after.leaves.contains_key((root, page))
                    &&& after.leaves[(root, page)] == ((pa + k * plat.page_size()) as u64) | attrs
                }
            &&& forall|r: u64, page: int|
                r != root || !in_row(plat, va, n, page) ==> (#[trigger] after.leaves.contains_key(
                    (r, page),
                ) <==> s.leaves.contains_key((r, page)))
            &&& forall|r: u64, page: int| #[trigger]
                s.leaves.contains_key((r, page)) ==> after.leaves.contains_key((r, page))
                    && after.leaves[(r, page)] == s.leaves[(r, page)]
        }),
    decreases n,
{
    if n > 0 {
        let m = (n - 1) as nat;
        let before = walk::map_many(plat, s, free, empty, root, va, pa, attrs, m);
        let after = walk::map_many(plat, s, free, empty, root, va, pa, attrs, n).space;
        let last = plat.page(va + m * plat.page_size());
        lemma_mapped_row_translates(plat, s, free, empty, root, va, pa, attrs, m);
        assert(after.leaves == before.space.leaves.insert(
            (root, last),
            ((pa + m * plat.page_size()) as u64) | attrs,
        ));
        assert forall|k: int| 0 <= k < n implies {
            let page = #[trigger] plat.page(va + k * plat.page_size());
            &&& !s.leaves.contains_key((root, page))
            &&& after.leaves.contains_key((root, page))
            &&& after.leaves[(root, page)] == ((pa + k * plat.page_size()) as u64) | attrs
        } by {
            let page = plat.page(va + k * plat.page_size());
            if k < m {
                assert(before.space.leaves.contains_key((root, page)));
                assert(page != last);
            } else {
                assert(k == m);
                if s.leaves.contains_key((root, last)) {
                    assert(before.space.leaves.contains_key((root, last)));
                }
            }
        }
        assert forall|r: u64, page: int|
            r != root || !in_row(plat, va, n, page) implies (#[trigger] after.leaves.contains_key(
            (r, page),
        ) <==> s.leaves.contains_key((r, page))) by {
            if r == root {
                assert(!in_row(plat, va, m, page)) by {
                    if in_row(plat, va, m, page) {
                        let k = choose|k: int|
                            0 <= k < m && #[trigger] plat.page(va + k * plat.page_size()) == page;
                        assert(0 <= k < n && plat.page(va + k * plat.page_size()) == page);
                    }
                }
                if page == last {
                    assert(0 <= m < n && plat.page(va + m * plat.page_size()) == page);
                }
            }
            assert(before.space.leaves.contains_key((r, page)) <==> s.leaves.contains_key(
                (r, page),
            ));
        }
        assert forall|r: u64, page: int| #[trigger]
            s.leaves.contains_key((r, page)) implies after.leaves.contains_key((r, page))
            && after.leaves[(r, page)] == s.leaves[(r, page)] by {
            assert(before.space.leaves.contains_key((r, page)));
        }
    }
}

/// A mapping that exists is never changed, whether more is mapped or that fails.
pub proof fn lemma_mappings_are_kept(
    plat: Platform,
    s: Space,
    free: nat,
    empty: MmuError,
    root: u64,
    va: int,
    pa: int,
    attrs: u64,
    n: nat,
    r: u64,
    page: int,
)
    requires
        s.leaves.contains_key((r, page)),
    ensures
        ({
            let after = walk::map_many(plat, s, free, empty, root, va, pa, attrs, n).space;
            &&& after.leaves.contains_key((r, page))
            &&& after.leaves[(r, page)] == s.leaves[(r, page)]
        }),
    decreases n,
{
    if n > 0 {
        lemma_mappings_are_kept(
            plat,
            s,
            free,
            empty,
            root,
            va,
            pa,
            attrs,
            (n - 1) as nat,
            r,
            page,
        );
    }
}

/// Whether a request maps the page in the tree.
pub open spec fn asks(plat: Platform, req: Request, r: u64, page: int) -> bool {
    r == req.root && req.len > 0 && in_row(
        plat,
        req.va,
        (req.len / plat.page_size()) as nat,
        page,
    )
}

/// A list of ranges that could be mapped maps exactly the pages it asks for.
pub proof fn lemma_requests_map_what_they_ask(
    plat: Platform,
    s: Space,
    free: nat,
    reqs: Seq<Request>,
    r: u64,
    page: int,
)
    requires
        paging::map_requests(plat, s, free, reqs).answer is Ok,
    ensures
        paging::map_requests(plat, s, free, reqs).space.leaves.contains_key((r, page)) <==> (
        s.leaves.contains_key((r, page)) || exists|i: int|
            0 <= i < reqs.len() && asks(plat, #[trigger] reqs[i], r, page)),
    decreases reqs.len(),
{
    if reqs.len() > 0 {
        let before = paging::map_requests(plat, s, free, reqs.drop_last());
        let req = reqs.last();
        lemma_requests_map_what_they_ask(plat, s, free, reqs.drop_last(), r, page);
        let after = paging::map_requests(plat, s, free, reqs);
        if req.len > 0 {
            let n = (req.len / plat.page_size()) as nat;
            lemma_mapped_row_translates(
                plat,
                before.space,
                before.free,
                MmuError::OutOfTables,
                req.root,
                req.va,
                req.pa,
                req.attrs,
                n,
            );
            if asks(plat, req, r, page) {
                let k = choose|k: int|
                    0 <= k < n && #[trigger] plat.page(req.va + k * plat.page_size()) == page;
                assert(after.space.leaves.contains_key(
                    (req.root, plat.page(req.va + k * plat.page_size())),
                ));
                assert(asks(plat, reqs[reqs.len() - 1], r, page));
            }
            assert(before.space.leaves.contains_key((r, page))
                ==> after.space.leaves.contains_key((r, page)));
            assert(!asks(plat, req, r, page) ==> (after.space.leaves.contains_key((r, page))
                <==> before.space.leaves.contains_key((r, page))));
        }
        if exists|i: int|
            0 <= i < reqs.drop_last().len() && asks(
                plat,
                #[trigger] reqs.drop_last()[i],
                r,
                page,
            ) {
            let i = choose|i: int|
                0 <= i < reqs.drop_last().len() && asks(
                    plat,
                    #[trigger] reqs.drop_last()[i],
                    r,
                    page,
                );
            assert(asks(plat, reqs[i], r, page));
        }
        if exists|i: int| 0 <= i < reqs.len() && asks(plat, #[trigger] reqs[i], r, page) {
            let i = choose|i: int| 0 <= i < reqs.len() && asks(plat, #[trigger] reqs[i], r, page);
            if i < reqs.len() - 1 {
                assert(asks(plat, reqs.drop_last()[i], r, page));
            }
        }
    }
}

/// Whether a range of physical addresses holds the page.
pub open spec fn range_has(plat: Platform, start: int, end: int, page: int) -> bool {
    start <= page * plat.page_size() < end
}

/// Once translation is on, a page that lies in no part of the layout is mapped in
/// neither half. The page below the boot stack is such a page.
pub proof fn lemma_guard_is_unmapped(
    plat: Platform,
    s: Space,
    free: nat,
    layout: &KernelLayout,
    root0: u64,
    root1: u64,
    page: int,
)
    requires
        layout.in_range(),
        paging::map_requests(plat, s, free, layout.requests(plat, root0, root1)).answer is Ok,
        0 <= page,
        page * plat.page_size() < tree::VA_SPAN,
        !s.leaves.contains_key((root0, page)),
        !s.leaves.contains_key((root1, page)),
        !range_has(plat, layout.text.start as int, layout.text.end as int, page),
        !range_has(plat, layout.rodata.start as int, layout.rodata.end as int, page),
        !range_has(plat, layout.rw[0].start as int, layout.rw[0].end as int, page),
        !range_has(plat, layout.rw[1].start as int, layout.rw[1].end as int, page),
        !range_has(
            plat,
            paging::page_floor(plat, layout.dtb.start as int),
            paging::page_ceil(plat, layout.dtb.end as int),
            page,
        ),
        !range_has(plat, layout.devices[0].start as int, layout.devices[0].end as int, page),
        !range_has(plat, layout.devices[1].start as int, layout.devices[1].end as int, page),
        !range_has(plat, layout.devices[2].start as int, layout.devices[2].end as int, page),
    ensures
        ({
            let after = paging::map_requests(
                plat,
                s,
                free,
                layout.requests(plat, root0, root1),
            ).space;
            &&& !after.leaves.contains_key((root0, page))
            &&& !after.leaves.contains_key((root1, page))
        }),
{
    let reqs = layout.requests(plat, root0, root1);
    assert forall|i: int, r: u64| 0 <= i < reqs.len() implies !(#[trigger] asks(
        plat,
        reqs[i],
        r,
        page,
    )) by {
        if asks(plat, reqs[i], r, page) {
            lemma_request_aligned(plat, s, free, reqs, i);
            lemma_asks_range(plat, reqs[i], r, page);
        }
    }
    lemma_requests_map_what_they_ask(plat, s, free, reqs, root0, page);
    lemma_requests_map_what_they_ask(plat, s, free, reqs, root1, page);
}

/// A range that could be mapped was made of whole pages.
pub proof fn lemma_request_aligned(
    plat: Platform,
    s: Space,
    free: nat,
    reqs: Seq<Request>,
    i: int,
)
    requires
        paging::map_requests(plat, s, free, reqs).answer is Ok,
        0 <= i < reqs.len(),
        reqs[i].len > 0,
    ensures
        reqs[i].va % plat.page_size() == 0,
        reqs[i].pa % plat.page_size() == 0,
        reqs[i].len % plat.page_size() == 0,
    decreases reqs.len(),
{
    if i < reqs.len() - 1 {
        lemma_request_aligned(plat, s, free, reqs.drop_last(), i);
    }
}

/// The pages that a range in one of the two halves asks for lie in the range.
#[verifier::rlimit(50)]
proof fn lemma_asks_range(plat: Platform, req: Request, r: u64, page: int)
    requires
        asks(plat, req, r, page),
        req.va % plat.page_size() == 0,
        req.len % plat.page_size() == 0,
        0 <= req.pa,
        req.pa + req.len <= tree::VA_SPAN,
        req.va == req.pa || req.va == req.pa + KERNEL_VA_OFFSET,
    ensures
        range_has(plat, req.pa, req.pa + req.len, page),
{
    let g = plat.page_size();
    let n = (req.len / g) as nat;
    let k = choose|k: int| 0 <= k < n && #[trigger] plat.page(req.va + k * g) == page;
    assert(0 <= k * g && k * g + g <= req.len) by {
        assert(n * g == req.len) by {
            vstd::arithmetic::div_mod::lemma_fundamental_div_mod(req.len, g);
            vstd::arithmetic::mul::lemma_mul_is_commutative(n as int, g);
        }
        assert(0 <= k * g && k * g + g <= n * g) by (nonlinear_arith)
            requires
                0 <= k < n,
                g > 0,
        ;
    }
    let p = req.pa + k * g;
    lemma_alias_is_linear(plat, p);
    assert(plat.page(req.va + k * g) == p / g);
    assert(p % g == 0) by {
        assert(req.pa % g == 0);
        vstd::arithmetic::div_mod::lemma_mod_multiples_vanish(k, req.pa, g);
        assert(g * k + req.pa == p) by (nonlinear_arith)
            requires
                p == req.pa + k * g,
        ;
    }
}

/// Nothing that translation starts out with is both writable and executable for the
/// kernel, and the user can reach none of it.
pub proof fn lemma_first_mappings_w_xor_x(perm: Perm, pa: u64)
    requires
        pa < tree::VA_SPAN,
        pa % 4096 == 0,
    ensures
        ({
            let desc = pa | perm.bits();
            &&& !(paging::kernel_writes(desc) && paging::kernel_executes(desc))
            &&& paging::kernel_executes(desc) <==> perm == Perm::Text
            &&& !paging::user_executes(desc)
            &&& !paging::user_reads(desc)
        }),
{
    paging::lemma_kernel_w_xor_x(perm);
    let b = perm.bits();
    assert((pa | b) & 0x80 == b & 0x80 && (pa | b) & 0x40 == b & 0x40 && (pa | b)
        & 0x20_0000_0000_0000 == b & 0x20_0000_0000_0000 && (pa | b) & 0x40_0000_0000_0000 == b
        & 0x40_0000_0000_0000) by (bit_vector)
        requires
            pa < 0x1_0000_0000_0000,
            pa % 4096 == 0,
    ;
}

/// The descriptor of the `k`th of the frames in a row.
pub open spec fn frame_desc(plat: Platform, pa: int, k: int, attrs: u64) -> u64 {
    ((pa + k * plat.page_size()) as u64) | attrs
}

/// Whether a descriptor leads to one of `n` frames in a row.
pub open spec fn shows_row(plat: Platform, pa: int, n: nat, attrs: u64, desc: u64) -> bool {
    exists|k: int| 0 <= k < n && desc == #[trigger] frame_desc(plat, pa, k, attrs)
}

/// After pages have been mapped in a row, a page is as it was before or leads to one of
/// the frames.
pub proof fn lemma_row_shows(
    plat: Platform,
    s: Space,
    free: nat,
    empty: MmuError,
    root: u64,
    va: int,
    pa: int,
    attrs: u64,
    n: nat,
    r: u64,
    page: int,
)
    requires
        walk::map_many(plat, s, free, empty, root, va, pa, attrs, n).answer is Ok,
        walk::map_many(
            plat,
            s,
            free,
            empty,
            root,
            va,
            pa,
            attrs,
            n,
        ).space.leaves.contains_key((r, page)),
    ensures
        ({
            let after = walk::map_many(plat, s, free, empty, root, va, pa, attrs, n).space;
            ||| s.leaves.contains_key((r, page)) && after.leaves[(r, page)] == s.leaves[(r, page)]
            ||| r == root && in_row(plat, va, n, page) && shows_row(
                plat,
                pa,
                n,
                attrs,
                after.leaves[(r, page)],
            )
        }),
{
    let after = walk::map_many(plat, s, free, empty, root, va, pa, attrs, n).space;
    lemma_mapped_row_translates(plat, s, free, empty, root, va, pa, attrs, n);
    if r == root && in_row(plat, va, n, page) {
        let k = choose|k: int| 0 <= k < n && #[trigger] plat.page(va + k * plat.page_size()) == page;
        assert(after.leaves[(root, plat.page(va + k * plat.page_size()))] == frame_desc(
            plat,
            pa,
            k,
            attrs,
        ));
    } else {
        assert(s.leaves.contains_key((r, page)));
    }
}

/// A frame in a row lies in the range that the row covers and is aligned like its start.
pub proof fn lemma_row_frame(plat: Platform, pa: int, n: nat, k: int)
    requires
        0 <= k < n,
        pa % plat.page_size() == 0,
    ensures
        pa <= pa + k * plat.page_size(),
        pa + k * plat.page_size() + plat.page_size() <= pa + n * plat.page_size(),
        (pa + k * plat.page_size()) % plat.page_size() == 0,
{
    let g = plat.page_size();
    assert(0 <= k * g && k * g + g <= n * g) by (nonlinear_arith)
        requires
            0 <= k < n,
            g > 0,
    ;
    vstd::arithmetic::div_mod::lemma_mod_multiples_vanish(k, pa, g);
    assert(g * k + pa == pa + k * g) by (nonlinear_arith);
}

/// A length of whole pages is as many pages as it says.
pub proof fn lemma_whole_pages(plat: Platform, len: int)
    requires
        0 <= len,
        len % plat.page_size() == 0,
    ensures
        (len / plat.page_size()) * plat.page_size() == len,
{
    vstd::arithmetic::div_mod::lemma_fundamental_div_mod(len, plat.page_size());
    vstd::arithmetic::mul::lemma_mul_is_commutative(len / plat.page_size(), plat.page_size());
}

/// Whether a descriptor makes a page of the upper half safe: the user cannot reach it,
/// and the kernel cannot both write and execute it.
pub open spec fn kernel_safe(desc: u64) -> bool {
    &&& !paging::user_reads(desc)
    &&& !paging::user_executes(desc)
    &&& !(paging::kernel_writes(desc) && paging::kernel_executes(desc))
}

/// Whether all pages of a tree are safe for the upper half.
pub open spec fn tree_kernel_safe(s: Space, r: u64) -> bool {
    forall|page: int| #[trigger]
        s.leaves.contains_key((r, page)) ==> kernel_safe(s.leaves[(r, page)])
}

/// A multiple of the page size is a multiple of 4 KiB.
pub proof fn lemma_page_multiple(plat: Platform, v: int)
    requires
        v % plat.page_size() == 0,
    ensures
        v % 4096 == 0,
{
    match plat {
        Platform::Virt => {},
        Platform::Apple => {},
    }
}

/// Frames that are mapped with a permission of the kernel are safe.
pub proof fn lemma_row_kernel_safe(plat: Platform, pa: int, n: nat, perm: Perm, desc: u64)
    requires
        pa % plat.page_size() == 0,
        0 <= pa,
        pa + n * plat.page_size() <= tree::VA_SPAN,
        shows_row(plat, pa, n, perm.bits(), desc),
    ensures
        kernel_safe(desc),
{
    let k = choose|k: int| 0 <= k < n && desc == #[trigger] frame_desc(plat, pa, k, perm.bits());
    lemma_row_frame(plat, pa, n, k);
    let at = pa + k * plat.page_size();
    lemma_page_multiple(plat, at);
    lemma_first_mappings_w_xor_x(perm, at as u64);
}

/// Whether a range is asked for with a permission of the kernel, within 48 bits.
pub open spec fn kernel_request(req: Request) -> bool {
    &&& 0 <= req.pa
    &&& req.len > 0 ==> req.pa + req.len <= tree::VA_SPAN
    &&& exists|perm: Perm| req.attrs == #[trigger] perm.bits()
}

/// Whether all ranges of a list are asked for with a permission of the kernel.
pub open spec fn kernel_requests(reqs: Seq<Request>) -> bool {
    forall|i: int| 0 <= i < reqs.len() ==> kernel_request(#[trigger] reqs[i])
}

/// Lists of ranges for the kernel leave a tree safe.
pub proof fn lemma_requests_kernel_safe(
    plat: Platform,
    s: Space,
    free: nat,
    reqs: Seq<Request>,
    r: u64,
)
    requires
        paging::map_requests(plat, s, free, reqs).answer is Ok,
        tree_kernel_safe(s, r),
        kernel_requests(reqs),
    ensures
        tree_kernel_safe(paging::map_requests(plat, s, free, reqs).space, r),
    decreases reqs.len(),
{
    if reqs.len() > 0 {
        let before = paging::map_requests(plat, s, free, reqs.drop_last());
        let after = paging::map_requests(plat, s, free, reqs).space;
        let req = reqs.last();
        assert(kernel_request(reqs[reqs.len() - 1]));
        assert forall|i: int| 0 <= i < reqs.drop_last().len() implies kernel_request(
            #[trigger] reqs.drop_last()[i],
        ) by {
            assert(kernel_request(reqs[i]));
        }
        lemma_requests_kernel_safe(plat, s, free, reqs.drop_last(), r);
        if req.len > 0 {
            lemma_request_aligned(plat, s, free, reqs, reqs.len() - 1);
            let perm = choose|perm: Perm| req.attrs == #[trigger] perm.bits();
            let n = (req.len / plat.page_size()) as nat;
            lemma_whole_pages(plat, req.len);
            assert forall|page: int| #[trigger] after.leaves.contains_key((r, page)) implies kernel_safe(
                after.leaves[(r, page)],
            ) by {
                lemma_row_shows(
                    plat,
                    before.space,
                    before.free,
                    MmuError::OutOfTables,
                    req.root,
                    req.va,
                    req.pa,
                    req.attrs,
                    n,
                    r,
                    page,
                );
                if !(before.space.leaves.contains_key((r, page)) && after.leaves[(r, page)]
                    == before.space.leaves[(r, page)]) {
                    lemma_row_kernel_safe(plat, req.pa, n, perm, after.leaves[(r, page)]);
                }
            }
        }
    }
}

/// Once translation is on, no page of the upper half is writable and executable at once,
/// and the user can reach none.
pub proof fn lemma_upper_half_safe(
    plat: Platform,
    s: Space,
    free: nat,
    layout: &KernelLayout,
    root0: u64,
    root1: u64,
)
    requires
        layout.in_range(),
        paging::map_requests(plat, s, free, layout.requests(plat, root0, root1)).answer is Ok,
        tree_kernel_safe(s, root1),
    ensures
        tree_kernel_safe(
            paging::map_requests(plat, s, free, layout.requests(plat, root0, root1)).space,
            root1,
        ),
{
    let dtb_start = paging::page_floor(plat, layout.dtb.start as int);
    let dtb_end = paging::page_ceil(plat, layout.dtb.end as int);
    assert(0 <= dtb_start && dtb_end <= tree::VA_SPAN) by {
        match plat {
            Platform::Virt => {},
            Platform::Apple => {},
        }
    }
    let h = |start: int, end: int, perm: Perm| paging::both_halves(root0, root1, start, end, perm);
    let a = h(layout.text.start as int, layout.text.end as int, Perm::Text);
    let b = h(layout.rodata.start as int, layout.rodata.end as int, Perm::Ro);
    let c = h(layout.rw[0].start as int, layout.rw[0].end as int, Perm::Rw);
    let d = h(layout.rw[1].start as int, layout.rw[1].end as int, Perm::Rw);
    let e = h(dtb_start, dtb_end, Perm::Ro);
    let v0 = h(layout.devices[0].start as int, paging::device_end(layout.devices[0]), Perm::Device);
    let v1 = h(layout.devices[1].start as int, paging::device_end(layout.devices[1]), Perm::Device);
    let v2 = h(layout.devices[2].start as int, paging::device_end(layout.devices[2]), Perm::Device);
    let reqs = layout.requests(plat, root0, root1);
    assert(reqs == a + b + c + d + e + (v0 + v1 + v2));
    lemma_halves_for_kernel(
        root0,
        root1,
        layout.text.start as int,
        layout.text.end as int,
        Perm::Text,
    );
    lemma_halves_for_kernel(
        root0,
        root1,
        layout.rodata.start as int,
        layout.rodata.end as int,
        Perm::Ro,
    );
    lemma_halves_for_kernel(
        root0,
        root1,
        layout.rw[0].start as int,
        layout.rw[0].end as int,
        Perm::Rw,
    );
    lemma_halves_for_kernel(
        root0,
        root1,
        layout.rw[1].start as int,
        layout.rw[1].end as int,
        Perm::Rw,
    );
    lemma_halves_for_kernel(root0, root1, dtb_start, dtb_end, Perm::Ro);
    lemma_halves_for_kernel(
        root0,
        root1,
        layout.devices[0].start as int,
        paging::device_end(layout.devices[0]),
        Perm::Device,
    );
    lemma_halves_for_kernel(
        root0,
        root1,
        layout.devices[1].start as int,
        paging::device_end(layout.devices[1]),
        Perm::Device,
    );
    lemma_halves_for_kernel(
        root0,
        root1,
        layout.devices[2].start as int,
        paging::device_end(layout.devices[2]),
        Perm::Device,
    );
    lemma_kernel_append(a, b);
    lemma_kernel_append(a + b, c);
    lemma_kernel_append(a + b + c, d);
    lemma_kernel_append(a + b + c + d, e);
    lemma_kernel_append(v0, v1);
    lemma_kernel_append(v0 + v1, v2);
    lemma_kernel_append(a + b + c + d + e, v0 + v1 + v2);
    lemma_requests_kernel_safe(plat, s, free, reqs, root1);
}

proof fn lemma_kernel_append(a: Seq<Request>, b: Seq<Request>)
    requires
        kernel_requests(a),
        kernel_requests(b),
    ensures
        kernel_requests(a + b),
{
    assert forall|i: int| 0 <= i < (a + b).len() implies kernel_request(#[trigger] (a + b)[i]) by {
        if i < a.len() {
            assert(kernel_request(a[i]));
        } else {
            assert(kernel_request(b[i - a.len()]));
        }
    }
}

/// A range of the kernel is asked for as one.
proof fn lemma_halves_for_kernel(root0: u64, root1: u64, start: int, end: int, perm: Perm)
    requires
        0 <= start,
        end <= tree::VA_SPAN || end <= start,
    ensures
        kernel_requests(paging::both_halves(root0, root1, start, end, perm)),
{
    let both = paging::both_halves(root0, root1, start, end, perm);
    assert(both[0].attrs == perm.bits());
    assert(both[1].attrs == perm.bits());
}

/// A range that was made visible in the upper half is visible there, every page that was
/// mapped stays, and the upper half stays safe.
pub proof fn lemma_window_opens(
    plat: Platform,
    s: Space,
    free: nat,
    root: u64,
    pa: int,
    len: int,
)
    requires
        paging::map_aligned(
            plat,
            s,
            free,
            root,
            pa + KERNEL_VA_OFFSET,
            pa,
            len,
            Perm::Rw.bits(),
        ).answer is Ok,
        0 <= pa,
        0 <= len,
        pa + len <= tree::VA_SPAN,
    ensures
        ({
            let after = paging::map_aligned(
                plat,
                s,
                free,
                root,
                pa + KERNEL_VA_OFFSET,
                pa,
                len,
                Perm::Rw.bits(),
            ).space;
            &&& forall|p: int|
                pa <= p < pa + len ==> after.leaves.contains_key((root, #[trigger] plat.page(p)))
            &&& keeps(s, after)
            &&& forall|r: u64, page: int|
                r != root ==> (#[trigger] after.leaves.contains_key((r, page))
                    <==> s.leaves.contains_key((r, page)))
            &&& tree_kernel_safe(s, root) ==> tree_kernel_safe(after, root)
        }),
{
    let va = pa + KERNEL_VA_OFFSET;
    let n = (len / plat.page_size()) as nat;
    let after = paging::map_aligned(plat, s, free, root, va, pa, len, Perm::Rw.bits()).space;
    let empty = MmuError::OutOfTables;
    lemma_whole_pages(plat, len);
    lemma_mapped_row_translates(plat, s, free, empty, root, va, pa, Perm::Rw.bits(), n);
    assert forall|p: int| pa <= p < pa + len implies after.leaves.contains_key(
        (root, #[trigger] plat.page(p)),
    ) by {
        lemma_alias_in_row(plat, pa, len, p);
        let k = choose|k: int|
            0 <= k < n && #[trigger] plat.page(va + k * plat.page_size()) == plat.page(p);
        assert(after.leaves.contains_key((root, plat.page(va + k * plat.page_size()))));
    }
    if tree_kernel_safe(s, root) {
        assert forall|page: int| #[trigger] after.leaves.contains_key((root, page)) implies kernel_safe(
            after.leaves[(root, page)],
        ) by {
            lemma_row_shows(
                plat,
                s,
                free,
                empty,
                root,
                va,
                pa,
                Perm::Rw.bits(),
                n,
                root,
                page,
            );
            if !(s.leaves.contains_key((root, page)) && after.leaves[(root, page)]
                == s.leaves[(root, page)]) {
                lemma_row_kernel_safe(plat, pa, n, Perm::Rw, after.leaves[(root, page)]);
            }
        }
    }
}

/// Whether every page that was mapped still is, in the same way.
pub open spec fn keeps(s1: Space, s2: Space) -> bool {
    forall|r: u64, page: int| #[trigger]
        s1.leaves.contains_key((r, page)) ==> s2.leaves.contains_key((r, page))
            && s2.leaves[(r, page)] == s1.leaves[(r, page)]
}

} // verus!
