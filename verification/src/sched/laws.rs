//! What the scheduler promises as a whole.
use vstd::prelude::*;

use crate::sched::SystemView;
use crate::task::TaskState;

verus! {

/// The system after `n` turns of the round robin.
pub open spec fn turns(s: SystemView, n: nat) -> SystemView
    decreases n,
{
    if n == 0 {
        s
    } else {
        turns(s, (n - 1) as nat).rotated()
    }
}

/// The tasks that share the processor, in the order in which they get it.
pub open spec fn line(s: SystemView) -> Seq<u64> {
    seq![s.current] + s.ready
}

/// Round robin: the tasks that are ready get the processor one after the other, in
/// the order of the queue, and after one round it is the turn of the first again
/// with the queue as it was.
pub proof fn lemma_round_robin(s: SystemView, n: nat)
    requires
        s.inv(),
        s.running(),
        n <= s.ready.len(),
    ensures
        turns(s, n).current == line(s)[n as int],
        turns(s, n).ready == line(s).skip(n as int + 1) + line(s).take(n as int),
        turns(s, n).ready.len() == s.ready.len(),
        n == s.ready.len() ==> line(turns(s, n + 1)) == line(s),
    decreases n,
{
    let w = line(s);
    if n == 0 {
        assert(w.skip(1) + w.take(0) =~= s.ready);
    } else {
        let m = (n - 1) as nat;
        lemma_round_robin(s, m);
        let p = turns(s, m);
        let q = p.ready;
        assert(q == w.skip(n as int) + w.take(m as int));
        assert(q[0] == w[n as int]);
        assert(p.rotated().ready =~= q.drop_first().push(p.current));
        assert(q.drop_first().push(w[m as int]) =~= w.skip(n as int + 1) + w.take(n as int));
    }
    if n == s.ready.len() {
        let p = turns(s, n);
        if n == 0 {
            assert(line(p.rotated()) =~= line(s));
        } else {
            assert(w.skip(n as int + 1) + w.take(n as int) =~= w.take(n as int));
            assert(p.ready[0] == w[0]);
            assert(p.rotated().ready =~= p.ready.drop_first().push(p.current));
            assert(line(p.rotated()) =~= w);
        }
        assert(turns(s, n + 1) == p.rotated());
    }
}

/// Exactly one task runs.
pub proof fn lemma_one_runs(s: SystemView)
    requires
        s.inv(),
        s.running(),
    ensures
        forall|t: u64|
            s.tasks.contains_key(t) ==> ((#[trigger] s.tasks[t]).state == TaskState::Running <==> t
                == s.current),
{
    assert forall|t: u64| s.tasks.contains_key(t) implies ((#[trigger] s.tasks[t]).state
        == TaskState::Running <==> t == s.current) by {
        assert(s.tasks[t].state == s.tasks[t].state);
    }
}

} // verus!
