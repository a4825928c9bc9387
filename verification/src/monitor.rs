//! Following a launched program: which of its children get the probe, each
//! process once.
use vstd::prelude::*;

verus! {

/// The pids among `procs` (pairs of pid and parent pid) whose parent is
/// `pid`, in order.
pub open spec fn children_of(procs: Seq<(i32, i32)>, pid: i32) -> Seq<i32>
    decreases procs.len(),
{
    if procs.len() == 0 {
        Seq::empty()
    } else if procs.last().1 == pid {
        children_of(procs.drop_last(), pid).push(procs.last().0)
    } else {
        children_of(procs.drop_last(), pid)
    }
}

/// The processes whose parent is `pid`, given each process as its pid and
/// parent pid.
pub fn child_pids(procs: &Vec<(i32, i32)>, pid: i32) -> (r: Vec<i32>)
    ensures
        r@ == children_of(procs@, pid),
{
    let mut r: Vec<i32> = Vec::new();
    let mut i: usize = 0;
    while i < procs.len()
        invariant
            i <= procs@.len(),
            r@ == children_of(procs@.take(i as int), pid),
        decreases procs.len() - i,
    {
        assert(procs@.take(i + 1).drop_last() =~= procs@.take(i as int));
        if procs[i].1 == pid {
            r.push(procs[i].0);
        }
        i = i + 1;
    }
    assert(procs@.take(procs@.len() as int) =~= procs@);
    r
}

/// The processes that already carry the probe.
#[derive(Debug, Default)]
pub struct InjectedSet {
    pids: Vec<i32>,
}

impl InjectedSet {
    /// The pids recorded.
    pub closed spec fn pids_spec(&self) -> Set<i32> {
        self.pids@.to_set()
    }

    /// A set with no process.
    pub fn new() -> (r: InjectedSet)
        ensures
            r.pids_spec() == Set::<i32>::empty(),
    {
        let r = InjectedSet { pids: Vec::new() };
        assert(r.pids@.to_set() =~= Set::<i32>::empty());
        r
    }

    /// Whether `pid` still needs the probe.
    pub fn needs(&self, pid: i32) -> (r: bool)
        ensures
            r == !self.pids_spec().contains(pid),
    {
        let mut i: usize = 0;
        while i < self.pids.len()
            invariant
                i <= self.pids@.len(),
                forall|j: int| 0 <= j < i ==> self.pids@[j] != pid,
            decreases self.pids.len() - i,
        {
            if self.pids[i] == pid {
                assert(self.pids@.contains(pid));
                return false;
            }
            i = i + 1;
        }
        assert(!self.pids@.contains(pid));
        true
    }

    /// Records that `pid` carries the probe.
    pub fn mark(&mut self, pid: i32)
        ensures
            final(self).pids_spec() == old(self).pids_spec().insert(pid),
    {
        self.pids.push(pid);
        assert(self.pids@.to_set() =~= old(self).pids@.to_set().insert(pid)) by {
            assert forall|x: i32| #[trigger] self.pids@.contains(x) <==> (old(self).pids@.contains(x) || x == pid) by {
                if old(self).pids@.contains(x) {
                    let j = choose|j: int| 0 <= j < old(self).pids@.len() && old(self).pids@[j] == x;
                    assert(self.pids@[j] == x);
                }
                if x == pid {
                    assert(self.pids@[self.pids@.len() - 1] == x);
                }
            }
        }
    }
}

/// Each process gets the probe once: once marked, a process is never asked
/// for again, and marking leaves the other processes as they were.
pub proof fn law_inject_once(before: Set<i32>, pid: i32, other: i32)
    ensures
        before.insert(pid).contains(pid),
        other != pid ==> (before.insert(pid).contains(other) == before.contains(other)),
{
}

} // verus!
