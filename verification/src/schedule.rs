//! Which job a worker takes next.
use std::collections::VecDeque;
use vstd::prelude::*;

verus! {

/// The jobs that wait to be run, by number: a queue for each worker, and one for jobs without a
/// worker.
pub struct Scheduler {
    pub deques: Vec<VecDeque<u64>>,
    pub injector: VecDeque<u64>,
    /// The worker that gets the next job.
    pub next: usize,
}

/// The jobs that wait.
#[verifier::ext_equal]
pub struct Jobs {
    pub deques: Seq<Seq<u64>>,
    pub injector: Seq<u64>,
    pub next: int,
}

impl View for Scheduler {
    type V = Jobs;

    open spec fn view(&self) -> Jobs {
        Jobs {
            deques: Seq::new(self.deques@.len(), |i: int| self.deques@[i]@),
            injector: self.injector@,
            next: self.next as int,
        }
    }
}

impl Jobs {
    /// The worker that `me` steals from in its attempts from number `k` on: the next one in turn
    /// that has a job.
    pub open spec fn victim(self, me: int, k: int) -> Option<int>
        decreases self.deques.len() + 1 - k,
    {
        let n = self.deques.len() as int;
        if k > n {
            None
        } else {
            let v = (me + k) % n;
            if v != me && self.deques[v].len() > 0 {
                Some(v)
            } else {
                self.victim(me, k + 1)
            }
        }
    }

    /// The job that `me` takes and the jobs that are left: its own newest job, else the oldest of
    /// another worker, else the oldest without a worker.
    pub open spec fn taken(self, me: int) -> (Option<u64>, Jobs) {
        let n = self.deques.len();
        if 0 <= me < n && self.deques[me].len() > 0 {
            (
                Some(self.deques[me].last()),
                Jobs { deques: self.deques.update(me, self.deques[me].drop_last()), ..self },
            )
        } else {
            match self.victim(me, 1) {
                Some(v) => (
                    Some(self.deques[v][0]),
                    Jobs { deques: self.deques.update(v, self.deques[v].skip(1)), ..self },
                ),
                None => if self.injector.len() > 0 {
                    (Some(self.injector[0]), Jobs { injector: self.injector.skip(1), ..self })
                } else {
                    (None, self)
                },
            }
        }
    }

    /// No job waits.
    pub open spec fn idle(self) -> bool {
        &&& self.injector.len() == 0
        &&& forall|i: int| 0 <= i < self.deques.len() ==> (#[trigger] self.deques[i]).len() == 0
    }
}

impl Scheduler {
    pub open spec fn wf(self) -> bool {
        &&& 0 < self.deques@.len()
        &&& self.next < self.deques@.len()
    }

    /// A scheduler for at least one worker.
    pub fn new(threads: usize) -> (r: Self)
        ensures
            r.wf(),
            r@.idle(),
            r@.next == 0,
            r@.deques.len() == if threads < 1 {
                1
            } else {
                threads as int
            },
    {
        let n: usize = if threads < 1 {
            1
        } else {
            threads
        };
        let mut deques: Vec<VecDeque<u64>> = Vec::new();
        let mut i: usize = 0;
        while i < n
            invariant
                i <= n,
                deques@.len() == i,
                forall|k: int| 0 <= k < i ==> (#[trigger] deques@[k])@.len() == 0,
            decreases n - i,
        {
            deques.push(VecDeque::new());
            i = i + 1;
        }
        Scheduler { deques, injector: VecDeque::new(), next: 0 }
    }

    /// Number of workers.
    pub fn threads(&self) -> (r: usize)
        ensures
            r == self@.deques.len(),
    {
        self.deques.len()
    }

    /// Gives a job to the worker whose turn it is.
    pub fn submit(&mut self, job: u64)
        requires
            old(self).wf(),
        ensures
            final(self).wf(),
            final(self)@ == (Jobs {
                deques: old(self)@.deques.update(
                    old(self)@.next,
                    old(self)@.deques[old(self)@.next].push(job),
                ),
                injector: old(self)@.injector,
                next: if old(self)@.next + 1 < old(self)@.deques.len() {
                    old(self)@.next + 1
                } else {
                    0
                },
            }),
    {
        let n: usize = self.deques.len();
        let idx: usize = self.next;
        self.deques[idx].push_back(job);
        self.next =
        if idx + 1 < n {
            idx + 1
        } else {
            0
        };
        assert(self@.deques =~= old(self)@.deques.update(
            idx as int,
            old(self)@.deques[idx as int].push(job),
        ));
    }

    /// Queues a job without a worker.
    pub fn inject(&mut self, job: u64)
        requires
            old(self).wf(),
        ensures
            final(self).wf(),
            final(self)@ == (Jobs { injector: old(self)@.injector.push(job), ..old(self)@ }),
    {
        self.injector.push_back(job);
        assert(self@.deques =~= old(self)@.deques);
    }

    /// Takes a job for worker `me`; a number beyond the workers stands for a thread outside.
    pub fn find_job(&mut self, me: usize) -> (r: Option<u64>)
        requires
            old(self).wf(),
            me + old(self)@.deques.len() <= usize::MAX,
        ensures
            final(self).wf(),
            (r, final(self)@) == old(self)@.taken(me as int),
    {
        let n: usize = self.deques.len();
        if me < n && self.deques[me].len() > 0 {
            let r: Option<u64> = self.deques[me].pop_back();
            assert(self@.deques =~= old(self)@.deques.update(
                me as int,
                old(self)@.deques[me as int].drop_last(),
            ));
            return r;
        }
        let mut k: usize = 0;
        while k < n
            invariant
                *self == *old(self),
                self.wf(),
                n == self.deques@.len(),
                me + n <= usize::MAX,
                0 <= k <= n,
                !(me < n && self@.deques[me as int].len() > 0),
                self@.victim(me as int, 1) == self@.victim(me as int, k + 1),
            decreases n - k,
        {
            let victim: usize = (me + k + 1) % n;
            if victim != me && self.deques[victim].len() > 0 {
                let r: Option<u64> = self.deques[victim].pop_front();
                assert(self@.deques =~= old(self)@.deques.update(
                    victim as int,
                    old(self)@.deques[victim as int].skip(1),
                ));
                return r;
            }
            k = k + 1;
        }
        if self.injector.len() > 0 {
            let r: Option<u64> = self.injector.pop_front();
            assert(self@.deques =~= old(self)@.deques);
            assert(self@.injector =~= old(self)@.injector.skip(1));
            r
        } else {
            None
        }
    }
}

/// A worker goes without a job only if none waits.
pub proof fn no_job_is_overlooked(jobs: Jobs, me: int)
    requires
        jobs.deques.len() > 0,
        0 <= me,
    ensures
        jobs.taken(me).0 is None <==> jobs.idle(),
{
    lemma_victim(jobs, me, 1);
    let n = jobs.deques.len() as int;
    if jobs.victim(me, 1) is None && !(me < n && jobs.deques[me].len() > 0) {
        assert forall|i: int| 0 <= i < n implies (#[trigger] jobs.deques[i]).len() == 0 by {
            if i != me {
                let k = if i > me % n {
                    i - me % n
                } else {
                    i - me % n + n
                };
                vstd::arithmetic::div_mod::lemma_fundamental_div_mod(me, n);
                let q = if i > me % n {
                    me / n
                } else {
                    me / n + 1
                };
                assert(me + k == q * n + i) by (nonlinear_arith)
                    requires
                        me == n * (me / n) + me % n,
                        q == me / n && k == i - me % n || q == me / n + 1 && k == i - me % n + n,
                ;
                vstd::arithmetic::div_mod::lemma_fundamental_div_mod_converse(me + k, n, q, i);
                assert(1 <= k <= n);
                assert((me + k) % n == i);
            }
        }
    }
}

proof fn lemma_victim(jobs: Jobs, me: int, k: int)
    requires
        jobs.deques.len() > 0,
        1 <= k,
        0 <= me,
    ensures
        match jobs.victim(me, k) {
            Some(v) => 0 <= v < jobs.deques.len() && jobs.deques[v].len() > 0,
            None => forall|j: int|
                k <= j <= jobs.deques.len() ==> {
                    let v = #[trigger] ((me + j) % jobs.deques.len() as int);
                    v == me || jobs.deques[v].len() == 0
                },
        },
    decreases jobs.deques.len() + 1 - k,
{
    if k <= jobs.deques.len() {
        lemma_victim(jobs, me, k + 1);
    }
}

/// A worker takes the newest job of its own queue.
pub proof fn workers_take_their_newest_job(jobs: Jobs, me: int)
    requires
        0 <= me < jobs.deques.len(),
        jobs.deques[me].len() > 0,
    ensures
        ({
            let (job, rest) = jobs.taken(me);
            &&& job == Some(jobs.deques[me].last())
            &&& rest.deques[me] == jobs.deques[me].drop_last()
            &&& rest.deques.len() == jobs.deques.len()
            &&& forall|i: int|
                0 <= i < jobs.deques.len() && i != me ==> #[trigger] rest.deques[i]
                    == jobs.deques[i]
            &&& rest.injector == jobs.injector
            &&& rest.next == jobs.next
        }),
{
}

proof fn lemma_next_victim(jobs: Jobs, me: int, j: int, k: int)
    requires
        jobs.deques.len() > 0,
        1 <= j <= k <= jobs.deques.len() + 1,
        forall|i: int|
            1 <= i < k ==> (#[trigger] ((me + i) % jobs.deques.len() as int)) == me || jobs.deques[(me
                + i) % jobs.deques.len() as int].len() == 0,
        k <= jobs.deques.len() ==> (me + k) % jobs.deques.len() as int != me && jobs.deques[(me + k)
            % jobs.deques.len() as int].len() > 0,
    ensures
        jobs.victim(me, j) == if k <= jobs.deques.len() {
            Some((me + k) % jobs.deques.len() as int)
        } else {
            None
        },
    decreases k - j,
{
    if j < k {
        let v = (me + j) % jobs.deques.len() as int;
        assert(v == me || jobs.deques[v].len() == 0);
        lemma_next_victim(jobs, me, j + 1, k);
    }
}

/// A worker without jobs goes round the others, from the next one on, and takes the oldest job of
/// the first queue that has any.
pub proof fn idle_workers_take_the_oldest_job_of_the_next(jobs: Jobs, me: int, k: int, v: int)
    requires
        jobs.deques.len() > 0,
        0 <= me,
        me < jobs.deques.len() ==> jobs.deques[me].len() == 0,
        1 <= k <= jobs.deques.len(),
        v == (me + k) % jobs.deques.len() as int,
        v != me,
        jobs.deques[v].len() > 0,
        forall|i: int|
            1 <= i < k ==> (#[trigger] ((me + i) % jobs.deques.len() as int)) == me || jobs.deques[(me
                + i) % jobs.deques.len() as int].len() == 0,
    ensures
        ({
            let (job, rest) = jobs.taken(me);
            &&& job == Some(jobs.deques[v][0])
            &&& rest == (Jobs { deques: jobs.deques.update(v, jobs.deques[v].skip(1)), ..jobs })
        }),
{
    lemma_next_victim(jobs, me, 1, k);
}

/// Jobs without a worker are taken last, the oldest first.
pub proof fn jobs_without_a_worker_come_last(jobs: Jobs, me: int)
    requires
        jobs.deques.len() > 0,
        0 <= me,
        forall|i: int| 0 <= i < jobs.deques.len() ==> (#[trigger] jobs.deques[i]).len() == 0,
        jobs.injector.len() > 0,
    ensures
        jobs.taken(me).0 == Some(jobs.injector[0]),
        jobs.taken(me).1 == (Jobs { injector: jobs.injector.skip(1), ..jobs }),
{
    let n = jobs.deques.len() as int;
    assert forall|i: int| 1 <= i < n + 1 implies (#[trigger] ((me + i) % n)) == me || jobs.deques[(
    me + i) % n].len() == 0 by {
        assert(0 <= (me + i) % n < n) by (nonlinear_arith)
            requires
                n > 0,
        ;
    }
    lemma_next_victim(jobs, me, 1, n + 1);
}

} // verus!
