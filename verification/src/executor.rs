//! The work queue behind the thread pool.
//!
//! Jobs wait in a queue ordered by their estimated cost and are handed out
//! largest first, which packs the workers well.  The queue and the choice of
//! what runs next live here; the threads that do the running are the caller's.

use vstd::prelude::*;

verus! {

/// A queued piece of work with the estimate it was queued under.
struct Job<J> {
    estimate: usize,
    work: J,
}

/// No entry of `s` has a smaller estimate than one that follows it.
pub open spec fn descending<J>(s: Seq<(usize, J)>) -> bool {
    forall|i: int, j: int| 0 <= i < j < s.len() ==> s[i].0 >= s[j].0
}

/// `after` is `before` with `(estimate, work)` put behind every entry whose
/// estimate is at least `estimate` and ahead of every entry whose estimate is
/// smaller: among equal estimates the one queued first is dispatched first.
pub open spec fn enqueued<J>(
    before: Seq<(usize, J)>,
    after: Seq<(usize, J)>,
    estimate: usize,
    work: J,
) -> bool {
    exists|k: int|
        {
            &&& 0 <= k <= before.len()
            &&& forall|i: int| 0 <= i < k ==> (#[trigger] before[i]).0 >= estimate
            &&& forall|i: int| k <= i < before.len() ==> (#[trigger] before[i]).0 < estimate
            &&& #[trigger] before.insert(k, (estimate, work)) == after
        }
}

/// Jobs waiting to be dispatched, the one with the largest estimate first.
pub struct JobQueue<J> {
    /// Ascending by estimate, so that the next job to dispatch is the last.
    jobs: Vec<Job<J>>,
}

impl<J> JobQueue<J> {
    #[verifier::type_invariant]
    closed spec fn ascending(self) -> bool {
        forall|i: int, j: int|
            0 <= i < j < self.jobs@.len() ==> self.jobs@[i].estimate <= self.jobs@[j].estimate
    }

    /// The waiting jobs in the order in which they will be dispatched.
    pub closed spec fn view(&self) -> Seq<(usize, J)> {
        Seq::new(
            self.jobs@.len(),
            |i: int|
                (
                    self.jobs@[self.jobs@.len() - 1 - i].estimate,
                    self.jobs@[self.jobs@.len() - 1 - i].work,
                ),
        )
    }

    /// An empty queue.
    pub fn new() -> (q: Self)
        ensures
            q@ == Seq::<(usize, J)>::empty(),
    {
        let q = JobQueue { jobs: Vec::new() };
        assert(q@ =~= Seq::<(usize, J)>::empty());
        q
    }

    /// The number of waiting jobs.
    pub fn len(&self) -> (n: usize)
        ensures
            n == self@.len(),
    {
        self.jobs.len()
    }

    /// Adds a job to the queue.
    pub fn push(&mut self, estimate: usize, work: J)
        ensures
            enqueued(old(self)@, final(self)@, estimate, work),
            descending(final(self)@),
    {
        proof {
            use_type_invariant(&*self);
        }
        let ghost before = self@;
        let mut jobs: Vec<Job<J>> = Vec::new();
        core::mem::swap(&mut jobs, &mut self.jobs);
        let ghost stored = jobs@;
        let n = jobs.len();
        let mut at: usize = 0;
        while at < n && jobs[at].estimate < estimate
            invariant
                n == jobs@.len(),
                at <= n,
                jobs@ == stored,
                forall|i: int| 0 <= i < at ==> jobs@[i].estimate < estimate,
            decreases n - at,
        {
            at += 1;
        }
        jobs.insert(at, Job { estimate, work });
        self.jobs = jobs;
        proof {
            let k = n - at;
            assert forall|i: int| 0 <= i < k implies (#[trigger] before[i]).0 >= estimate by {
                assert(stored[n - 1 - i].estimate >= stored[at as int].estimate);
            }
            assert(before.insert(k, (estimate, work)) =~= self@);
        }
    }

    /// Takes the job that is to be dispatched next out of the queue: one whose
    /// estimate no other waiting job exceeds.
    pub fn pop(&mut self) -> (next: Option<(usize, J)>)
        ensures
            descending(old(self)@),
            old(self)@.len() == 0 ==> next is None && final(self)@ == old(self)@,
            old(self)@.len() > 0 ==> next == Some(old(self)@[0]) && final(self)@ == old(
                self)@.subrange(1, old(self)@.len() as int),
    {
        proof {
            use_type_invariant(&*self);
        }
        let ghost before = self@;
        let mut jobs: Vec<Job<J>> = Vec::new();
        core::mem::swap(&mut jobs, &mut self.jobs);
        let last = jobs.pop();
        self.jobs = jobs;
        match last {
            None => {
                assert(self@ =~= before);
                None
            },
            Some(job) => {
                assert(self@ =~= before.subrange(1, before.len() as int));
                Some((job.estimate, job.work))
            },
        }
    }
}

/// The state of the work queue of a thread pool.
pub struct Executor<J> {
    concurrency: usize,
    queue: JobQueue<J>,
}

impl<J> Executor<J> {
    /// The number of workers that this executor was made for.
    pub closed spec fn workers(&self) -> usize {
        self.concurrency
    }

    /// The jobs that are queued but not dispatched, in dispatch order.
    pub closed spec fn pending(&self) -> Seq<(usize, J)> {
        self.queue@
    }

    /// A work queue for `concurrency` workers, with nothing queued.
    pub fn new(concurrency: usize) -> (exec: Self)
        ensures
            exec.workers() == concurrency,
            exec.pending() == Seq::<(usize, J)>::empty(),
    {
        Executor { concurrency, queue: JobQueue::new() }
    }

    /// The number of workers that this executor was made for.
    pub fn concurrency(&self) -> (n: usize)
        ensures
            n == self.workers(),
    {
        self.concurrency
    }

    /// Whether work that is handed to this executor runs at once on the
    /// caller's thread: so it is without a pool of workers, that is with at
    /// most one worker.
    pub fn runs_inline(&self) -> (inline: bool)
        ensures
            inline == (self.workers() <= 1),
    {
        self.concurrency <= 1
    }

    /// The count of queued but not dispatched jobs.
    pub fn active(&self) -> (n: usize)
        ensures
            n == self.pending().len(),
    {
        self.queue.len()
    }

    /// What a worker does when it is free: it takes the waiting job with the
    /// highest estimate, or learns that none is waiting.
    pub fn next_job(&mut self) -> (job: Option<J>)
        ensures
            final(self).workers() == old(self).workers(),
            descending(old(self).pending()),
            old(self).pending().len() == 0 ==> job is None && final(self).pending() == old(self).pending(),
            old(self).pending().len() > 0 ==> job == Some(old(self).pending()[0].1) && final(self).pending() == old(self).pending().subrange(1, old(self).pending().len() as int),
    {
        match self.queue.pop() {
            None => None,
            Some((_, work)) => Some(work),
        }
    }
}

/// Hands a job to the executor.  Without a pool of workers the job runs at
/// once, on the caller's thread; with one it joins the queue under `estimate`
/// and a worker is to be woken.  Tells whether the job was queued.
pub fn queue_work<J: FnOnce()>(exec: &mut Executor<J>, estimate: usize, f: J) -> (queued: bool)
    requires
        old(exec).workers() <= 1 ==> call_requires(f, ()),
    ensures
        final(exec).workers() == old(exec).workers(),
        queued == (old(exec).workers() > 1),
        !queued ==> call_ensures(f, (), ()) && final(exec).pending() == old(exec).pending(),
        queued ==> enqueued(old(exec).pending(), final(exec).pending(), estimate, f),
        descending(final(exec).pending()),
{
    if exec.concurrency <= 1 {
        f();
        proof {
            use_type_invariant(&exec.queue);
        }
        return false;
    }
    exec.queue.push(estimate, f);
    true
}

} // verus!
