use vstd::prelude::*;

verus! {

/// The indices `start, start + 1, ..., stop - 1`.
pub open spec fn index_range(start: usize, stop: usize) -> Seq<usize> {
    Seq::new((stop - start) as nat, |i: int| (start + i) as usize)
}

/// The number of workers for `count` work items on a machine with `cpus` logical CPUs: two
/// per CPU, but no more than there are items.
pub open spec fn spec_worker_count(cpus: usize, count: usize) -> int {
    if 2 * cpus <= count {
        2 * cpus
    } else {
        count as int
    }
}

/// Calls `num_cpus::get`, the number of logical CPUs available to this process; its
/// documentation promises at least one. The value depends on the machine and on the
/// process's CPU affinity and cgroup limits, so nothing more is stated of it.
#[verifier::external_body]
fn available_cpus() -> (cpus: usize)
    ensures
        cpus >= 1,
{
    num_cpus::get()
}

/// The number of workers for `count` items with `cpus` CPUs, as `spec_worker_count`.
pub fn workers_for(cpus: usize, count: usize) -> (n: usize)
    ensures
        n == spec_worker_count(cpus, count),
        n <= 2 * cpus,
        n <= count,
        n == 2 * cpus || n == count,
{
    proof {
        lemma_worker_count_is_min(cpus, count);
    }
    if cpus <= count / 2 {
        2 * cpus
    } else {
        count
    }
}

/// The number of workers that the parallel runner starts for the indices `start..stop`:
/// twice the number of CPUs of this machine, but no more than there are indices. At least
/// one when there is an index to process.
pub fn worker_count(start: usize, stop: usize) -> (n: usize)
    requires
        start <= stop,
    ensures
        exists|cpus: usize| cpus >= 1 && n == #[trigger] spec_worker_count(cpus, (stop - start) as usize),
        n <= stop - start,
        start < stop ==> n >= 1,
{
    let cpus = available_cpus();
    workers_for(cpus, stop - start)
}

/// The queue of indices that the workers of the parallel runner take from, one at a time,
/// the last one first.
pub struct WorkQueue {
    items: Vec<usize>,
}

impl View for WorkQueue {
    type V = Seq<usize>;

    /// The indices still to be handed out; the last is handed out next.
    closed spec fn view(&self) -> Seq<usize> {
        self.items@
    }
}

impl WorkQueue {
    /// A queue holding the indices `start..stop`.
    pub fn new(start: usize, stop: usize) -> (q: Self)
        requires
            start <= stop,
        ensures
            q@ == index_range(start, stop),
    {
        let mut items: Vec<usize> = Vec::new();
        let mut i = start;
        while i < stop
            invariant
                start <= i <= stop,
                items@ == index_range(start, i),
            decreases stop - i,
        {
            items.push(i);
            i = i + 1;
            assert(items@ =~= index_range(start, i));
        }
        assert(items@ =~= index_range(start, stop));
        WorkQueue { items }
    }

    /// Hands out the last index of the queue, if any.
    pub fn pop(&mut self) -> (r: Option<usize>)
        ensures
            match r {
                Some(i) => old(self)@.len() > 0 && i == old(self)@.last() && final(self)@
                    == old(self)@.drop_last(),
                None => old(self)@.len() == 0 && final(self)@ == old(self)@,
            },
    {
        self.items.pop()
    }

    /// The number of indices still to be handed out.
    pub fn len(&self) -> (n: usize)
        ensures
            n == self@.len(),
    {
        self.items.len()
    }
}

/// Every index of `start..stop` is in the queue exactly once: the queue holds no index twice,
/// and it holds an index exactly when it lies in `start..stop`.
pub proof fn lemma_range_each_once(start: usize, stop: usize)
    requires
        start <= stop,
    ensures
        index_range(start, stop).no_duplicates(),
        forall|x: usize| #[trigger] index_range(start, stop).contains(x) <==> start <= x < stop,
{
    let s = index_range(start, stop);
    assert forall|x: usize| start <= x < stop implies #[trigger] s.contains(x) by {
        assert(s[x - start] == x);
    }
}

/// Handing out an index from a queue without repeats leaves that index out of the queue:
/// no index is handed out twice.
pub proof fn lemma_pop_removes(items: Seq<usize>)
    requires
        items.len() > 0,
        items.no_duplicates(),
    ensures
        !items.drop_last().contains(items.last()),
        items.drop_last().no_duplicates(),
{
    let rest = items.drop_last();
    if rest.contains(items.last()) {
        let k = choose|k: int| 0 <= k < rest.len() && rest[k] == items.last();
        assert(items[k] == items[items.len() - 1]);
    }
}

/// The worker count is the smaller of two workers per CPU and the number of items: it
/// exceeds neither, and equals one of them.
pub proof fn lemma_worker_count_is_min(cpus: usize, count: usize)
    ensures
        spec_worker_count(cpus, count) <= 2 * cpus,
        spec_worker_count(cpus, count) <= count,
        spec_worker_count(cpus, count) == 2 * cpus || spec_worker_count(cpus, count) == count,
{
}

} // verus!
