//! Facts about sequences.
use vstd::prelude::*;

verus! {

/// What appending does to membership.
pub proof fn lemma_push_contains<A>(q: Seq<A>, x: A)
    ensures
        forall|k: A| #[trigger] q.push(x).contains(k) <==> q.contains(k) || k == x,
        q.no_duplicates() && !q.contains(x) ==> q.push(x).no_duplicates(),
{
    assert forall|k: A| #[trigger] q.push(x).contains(k) <==> q.contains(k) || k == x by {
        if q.contains(k) {
            assert(q.push(x)[q.index_of(k)] == k);
        }
        if k == x {
            assert(q.push(x)[q.len() as int] == k);
        }
        if q.push(x).contains(k) {
            let i = q.push(x).index_of(k);
            if i < q.len() {
                assert(q[i] == k);
            }
        }
    }
    if q.no_duplicates() && !q.contains(x) {
        assert forall|i: int, j: int|
            0 <= i < q.push(x).len() && 0 <= j < q.push(x).len() && i != j implies q.push(x)[i]
            != q.push(x)[j] by {
            if i < q.len() {
                assert(q.contains(q[i]));
            }
            if j < q.len() {
                assert(q.contains(q[j]));
            }
        }
    }
}

/// What taking the first element out does to membership.
pub proof fn lemma_drop_first_contains<A>(q: Seq<A>)
    requires
        q.len() > 0,
        q.no_duplicates(),
    ensures
        q.contains(q[0]),
        forall|k: A| #[trigger] q.drop_first().contains(k) <==> q.contains(k) && k != q[0],
        q.drop_first().no_duplicates(),
{
    let r = q.drop_first();
    assert forall|k: A| #[trigger] r.contains(k) <==> q.contains(k) && k != q[0] by {
        if r.contains(k) {
            let i = r.index_of(k);
            assert(q[i + 1] == k);
        }
        if q.contains(k) && k != q[0] {
            let i = q.index_of(k);
            assert(r[i - 1] == k);
        }
    }
}

} // verus!
