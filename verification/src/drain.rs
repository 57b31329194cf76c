//! Draining a pool: every job of a list goes to some worker, at most one at a
//! time to each, until every job has been reported.
//!
//! The orchestrator owns the waiting. It sends what [`Drain::begin`] orders,
//! then blocks for a report, tells [`Drain::absorb`] which worker reported and
//! sends the order that comes back, until [`Drain::is_done`].

use crate::compute::{primed, priming, Compute, ComputeError, ComputeResult, Dispatch};
use vstd::multiset::Multiset;
use vstd::prelude::*;

verus! {

/// Every job that is in flight to some worker, counted as often as it is in
/// flight.
pub open spec fn in_flight<T>(queues: Seq<Seq<T>>) -> Multiset<T>
    decreases queues.len(),
{
    if queues.len() == 0 {
        Multiset::empty()
    } else {
        in_flight(queues.drop_last()).add(queues.last().to_multiset())
    }
}

/// Replacing one worker's queue trades what it held for what it holds now.
pub proof fn lemma_in_flight_update<T>(queues: Seq<Seq<T>>, w: int, queue: Seq<T>)
    requires
        0 <= w < queues.len(),
    ensures
        in_flight(queues.update(w, queue)).add(queues[w].to_multiset()) =~= in_flight(queues).add(
            queue.to_multiset(),
        ),
    decreases queues.len(),
{
    broadcast use vstd::multiset::group_multiset_axioms;

    let after = queues.update(w, queue);
    let rest = queues.drop_last();
    assert(after.len() == queues.len());
    assert(in_flight(queues) == in_flight(rest).add(queues.last().to_multiset()));
    assert(in_flight(after) == in_flight(after.drop_last()).add(after.last().to_multiset()));
    if w == queues.len() - 1 {
        assert(after.drop_last() =~= rest);
        assert(after.last() == queue);
        assert(queues.last() == queues[w]);
        assert(in_flight(after).add(queues[w].to_multiset()) =~= in_flight(queues).add(
            queue.to_multiset(),
        ));
    } else {
        assert(rest.len() == queues.len() - 1);
        assert(after.drop_last() =~= rest.update(w, queue));
        assert(after.last() == queues.last());
        assert(rest[w] == queues[w]);
        lemma_in_flight_update(rest, w, queue);
        let moved = in_flight(rest.update(w, queue));
        let last = queues.last().to_multiset();
        let old_w = queues[w].to_multiset();
        let new_w = queue.to_multiset();
        assert(moved.add(old_w) == in_flight(rest).add(new_w));
        assert(in_flight(after) == moved.add(last));
        assert(in_flight(queues) == in_flight(rest).add(last));
        assert(moved.add(last).add(old_w) =~= moved.add(old_w).add(last));
        assert(in_flight(rest).add(last).add(new_w) =~= in_flight(rest).add(new_w).add(last));
    }
}

/// Nothing is in flight exactly when every queue is empty.
pub proof fn lemma_in_flight_none<T>(queues: Seq<Seq<T>>)
    ensures
        in_flight(queues).len() == 0 <==> forall|w: int|
            0 <= w < queues.len() ==> (#[trigger] queues[w]).len() == 0,
    decreases queues.len(),
{
    broadcast use vstd::multiset::group_multiset_axioms;
    broadcast use vstd::seq_lib::group_to_multiset_ensures;

    if queues.len() > 0 {
        let rest = queues.drop_last();
        lemma_in_flight_none(rest);
        if in_flight(queues).len() == 0 {
            assert forall|w: int| 0 <= w < queues.len() implies (#[trigger] queues[w]).len()
                == 0 by {
                if w < rest.len() {
                    assert(rest[w] == queues[w]);
                }
            }
        }
        if forall|w: int| 0 <= w < queues.len() ==> (#[trigger] queues[w]).len() == 0 {
            assert forall|w: int| 0 <= w < rest.len() implies (#[trigger] rest[w]).len() == 0 by {
                assert(rest[w] == queues[w]);
            }
            assert(queues.last().len() == 0);
        }
    }
}

/// An empty queue holds no job.
proof fn lemma_no_job<T>()
    ensures
        Seq::<T>::empty().to_multiset() =~= Multiset::<T>::empty(),
{
    broadcast use vstd::multiset::group_multiset_axioms;

    Seq::<T>::empty().to_multiset_ensures();
    vstd::multiset::lemma_multiset_empty_len(Seq::<T>::empty().to_multiset());
}

/// A queue of one job holds that job once.
proof fn lemma_one_job<T>(job: T)
    ensures
        seq![job].to_multiset() =~= Multiset::<T>::empty().insert(job),
{
    lemma_no_job::<T>();
    Seq::<T>::empty().to_multiset_ensures();
    assert(seq![job] =~= Seq::<T>::empty().push(job));
}

/// When a worker's only job is reported, that job leaves what is in flight.
proof fn lemma_released<T>(queues: Seq<Seq<T>>, w: int)
    requires
        0 <= w < queues.len(),
        queues[w].len() == 1,
    ensures
        in_flight(queues) =~= in_flight(queues.update(w, Seq::empty())).insert(queues[w][0]),
{
    broadcast use vstd::multiset::group_multiset_axioms;

    let job = queues[w][0];
    let freed = in_flight(queues.update(w, Seq::empty()));
    assert(queues[w] =~= seq![job]);
    lemma_no_job::<T>();
    lemma_one_job(job);
    lemma_in_flight_update(queues, w, Seq::empty());
    assert(freed.add(Multiset::empty().insert(job)) == in_flight(queues).add(Multiset::empty()));
    assert(in_flight(queues).add(Multiset::empty()) =~= in_flight(queues));
    assert(freed.add(Multiset::empty().insert(job)) =~= freed.insert(job));
}

/// When a job goes to an idle worker, that job joins what is in flight.
proof fn lemma_loaded<T>(queues: Seq<Seq<T>>, w: int, job: T)
    requires
        0 <= w < queues.len(),
        queues[w].len() == 0,
    ensures
        in_flight(queues.update(w, seq![job])) =~= in_flight(queues).insert(job),
{
    broadcast use vstd::multiset::group_multiset_axioms;

    let loaded = in_flight(queues.update(w, seq![job]));
    assert(queues[w] =~= Seq::empty());
    lemma_no_job::<T>();
    lemma_one_job(job);
    lemma_in_flight_update(queues, w, seq![job]);
    assert(loaded.add(Multiset::empty()) == in_flight(queues).add(Multiset::empty().insert(job)));
    assert(loaded.add(Multiset::empty()) =~= loaded);
    assert(in_flight(queues).add(Multiset::empty().insert(job)) =~= in_flight(queues).insert(job));
}

/// The jobs from place `from` on are the job at `from` and those after it.
proof fn lemma_skip_one<T>(jobs: Seq<T>, from: int)
    requires
        0 <= from < jobs.len(),
    ensures
        jobs.skip(from).to_multiset() =~= jobs.skip(from + 1).to_multiset().insert(jobs[from]),
{
    broadcast use vstd::multiset::group_multiset_axioms;
    broadcast use vstd::seq_lib::group_to_multiset_ensures;

    let tail = jobs.skip(from);
    assert(tail.remove(0) =~= jobs.skip(from + 1));
    assert(tail[0] == jobs[from]);
    assert(tail.contains(tail[0]));
}

/// After priming an idle pool, what is in flight is what left the job list.
proof fn lemma_in_flight_primed<T>(queues: Seq<Seq<T>>, jobs: Seq<T>)
    requires
        forall|w: int| 0 <= w < queues.len() ==> (#[trigger] queues[w]).len() == 0,
    ensures
        in_flight(primed(queues, jobs)) =~= jobs.skip(
            jobs.len() - priming(queues, jobs),
        ).to_multiset(),
    decreases queues.len(),
{
    broadcast use vstd::multiset::group_multiset_axioms;
    broadcast use vstd::seq_lib::group_to_multiset_ensures;

    if queues.len() == 0 {
        assert(jobs.skip(jobs.len() as int) =~= Seq::<T>::empty());
    } else {
        let rest = queues.drop_last();
        let last = queues.len() - 1;
        assert forall|w: int| 0 <= w < rest.len() implies (#[trigger] rest[w]).len() == 0 by {
            assert(rest[w] == queues[w]);
        }
        lemma_in_flight_primed(rest, jobs);
        assert(primed(queues, jobs).drop_last() =~= primed(rest, jobs));
        assert(queues[last].len() == 0);
        if last < jobs.len() {
            let from = jobs.len() - queues.len();
            assert(primed(queues, jobs).last() =~= seq![jobs[from]]);
            assert(seq![jobs[from]] =~= Seq::<T>::empty().push(jobs[from]));
            lemma_skip_one(jobs, from);
        } else {
            assert(primed(queues, jobs).last() =~= Seq::<T>::empty());
        }
    }
}

/// A drain as the contracts see it.
pub struct DrainState<T> {
    /// The jobs as they were handed over at the start.
    pub submitted: Seq<T>,
    /// The jobs that wait for a free worker; the last one leaves first.
    pub pending: Seq<T>,
    /// The jobs whose reports have been taken, in the order of the reports.
    pub settled: Seq<T>,
    /// What is in flight to each worker, oldest first.
    pub queues: Seq<Seq<T>>,
}

impl<T> DrainState<T> {
    /// The drain of `jobs` through `workers` idle workers, right after the
    /// first round: one job is in flight to each worker, as far as the jobs
    /// go, and the rest wait.
    pub open spec fn start(jobs: Seq<T>, workers: nat) -> DrainState<T> {
        let idle = Seq::new(workers, |w: int| Seq::<T>::empty());
        DrainState {
            submitted: jobs,
            pending: jobs.take(jobs.len() - priming(idle, jobs)),
            settled: Seq::empty(),
            queues: primed(idle, jobs),
        }
    }

    /// Every job has been reported.
    pub open spec fn done(self) -> bool {
        self.settled.len() == self.submitted.len()
    }

    /// Whether a report of `worker` is due: the pool has such a worker, and
    /// a job is in flight to it.
    pub open spec fn owes(self, worker: int) -> bool {
        0 <= worker < self.queues.len() && self.queues[worker].len() > 0
    }

    /// The answer to a report of `worker`: the next job for that worker if
    /// one waits, nothing if none does, and an error if no report was due.
    pub open spec fn answer(self, worker: usize) -> Result<Option<Dispatch<T>>, ComputeError> {
        if worker >= self.queues.len() {
            Err(ComputeError::UnknownWorker)
        } else if self.queues[worker as int].len() == 0 {
            Err(ComputeError::IdleWorker)
        } else if self.pending.len() == 0 {
            Ok(None)
        } else {
            Ok(Some(Dispatch { worker, job: self.pending.last() }))
        }
    }

    /// The drain after a report of `worker`. A report that was due settles
    /// the worker's job and hands the worker the last waiting job, if there
    /// is one; a report that was not due changes nothing.
    pub open spec fn absorb(self, worker: usize) -> DrainState<T> {
        if !self.owes(worker as int) {
            self
        } else if self.pending.len() == 0 {
            DrainState {
                settled: self.settled.push(self.queues[worker as int][0]),
                queues: self.queues.update(worker as int, Seq::empty()),
                ..self
            }
        } else {
            DrainState {
                settled: self.settled.push(self.queues[worker as int][0]),
                queues: self.queues.update(worker as int, seq![self.pending.last()]),
                pending: self.pending.drop_last(),
                ..self
            }
        }
    }

    /// The drain after the workers named in `reports` have reported, one
    /// after the other.
    pub open spec fn replay(self, reports: Seq<usize>) -> DrainState<T>
        decreases reports.len(),
    {
        if reports.len() == 0 {
            self
        } else {
            self.replay(reports.drop_last()).absorb(reports.last())
        }
    }

    /// Whether each of `reports` is due at the moment it comes.
    pub open spec fn due(self, reports: Seq<usize>) -> bool
        decreases reports.len(),
    {
        reports.len() == 0 || (self.due(reports.drop_last()) && self.replay(
            reports.drop_last(),
        ).owes(reports.last() as int))
    }

    /// The bookkeeping is sound: the waiting jobs are the front of the
    /// submitted ones, no worker holds more than one job, no job waits while a
    /// worker is free, and the jobs settled and in flight are, each as often
    /// as it was submitted, the jobs that wait no longer.
    pub open spec fn sound(self) -> bool {
        &&& self.pending.len() <= self.submitted.len()
        &&& self.pending == self.submitted.take(self.pending.len() as int)
        &&& forall|w: int| 0 <= w < self.queues.len() ==> (#[trigger] self.queues[w]).len() <= 1
        &&& self.pending.len() > 0 ==> forall|w: int|
            0 <= w < self.queues.len() ==> (#[trigger] self.queues[w]).len() == 1
        &&& self.queues.len() == 0 ==> self.submitted.len() == 0
        &&& self.settled.to_multiset().add(in_flight(self.queues)) == self.submitted.skip(
            self.pending.len() as int,
        ).to_multiset()
    }

    /// A drain starts sound, unless jobs are handed to a pool without
    /// workers.
    pub proof fn lemma_start_is_sound(jobs: Seq<T>, workers: nat)
        requires
            jobs.len() > 0 ==> workers > 0,
        ensures
            Self::start(jobs, workers).sound(),
    {
        broadcast use vstd::multiset::group_multiset_axioms;

        let idle = Seq::new(workers, |w: int| Seq::<T>::empty());
        let started = Self::start(jobs, workers);
        lemma_in_flight_primed(idle, jobs);
        lemma_no_job::<T>();
        assert(Multiset::<T>::empty().add(in_flight(started.queues)) =~= in_flight(
            started.queues,
        ));
    }

    /// A report keeps a sound drain sound, whether it was due or not.
    pub proof fn lemma_absorb_keeps_sound(self, worker: usize)
        requires
            self.sound(),
        ensures
            self.absorb(worker).sound(),
            self.absorb(worker).submitted == self.submitted,
            self.owes(worker as int) ==> self.absorb(worker).settled.len() == self.settled.len()
                + 1,
            !self.owes(worker as int) ==> self.absorb(worker) == self,
    {
        broadcast use vstd::multiset::group_multiset_axioms;

        if self.owes(worker as int) {
            let w = worker as int;
            let after = self.absorb(worker);
            let settled = self.queues[w][0];
            let freed = self.queues.update(w, Seq::<T>::empty());
            assert(self.queues[w].len() == 1);
            lemma_released(self.queues, w);
            self.settled.to_multiset_ensures();
            assert(self.settled.push(settled).to_multiset().add(in_flight(freed))
                =~= self.settled.to_multiset().add(in_flight(self.queues)));
            if self.pending.len() == 0 {
                assert(after.queues == freed);
                assert forall|v: int| 0 <= v < after.queues.len() implies (
                #[trigger] after.queues[v]).len() <= 1 by {
                    if v != w {
                        assert(after.queues[v] == self.queues[v]);
                    }
                }
            } else {
                let from = self.pending.len() - 1;
                let job = self.pending.last();
                let loaded = freed.update(w, seq![job]);
                assert(after.queues =~= loaded);
                assert(after.pending =~= self.submitted.take(from));
                assert(job == self.submitted[from]);
                lemma_skip_one(self.submitted, from);
                lemma_loaded(freed, w, job);
                assert(after.settled.to_multiset().add(in_flight(loaded))
                    =~= after.settled.to_multiset().add(in_flight(freed)).insert(job));
                assert forall|v: int| 0 <= v < after.queues.len() implies (
                #[trigger] after.queues[v]).len() == 1 by {
                    if v != w {
                        assert(after.queues[v] == self.queues[v]);
                    }
                }
            }
        }
    }

    /// The counts add up: what is settled, in flight and waiting is what was
    /// submitted.
    pub proof fn lemma_accounts(self)
        requires
            self.sound(),
        ensures
            self.settled.len() + in_flight(self.queues).len() + self.pending.len()
                == self.submitted.len(),
    {
        broadcast use vstd::multiset::group_multiset_axioms;

        self.settled.to_multiset_ensures();
        self.submitted.skip(self.pending.len() as int).to_multiset_ensures();
    }

    /// No job is lost and none is made up: at every moment the jobs settled,
    /// in flight and waiting are together the jobs submitted, each as often as
    /// it was submitted.
    pub proof fn lemma_conservation(self)
        requires
            self.sound(),
        ensures
            self.settled.to_multiset().add(in_flight(self.queues)).add(
                self.pending.to_multiset(),
            ) =~= self.submitted.to_multiset(),
    {
        broadcast use vstd::multiset::group_multiset_axioms;

        let jobs = self.submitted;
        let cut = self.pending.len() as int;
        assert(jobs =~= jobs.take(cut) + jobs.skip(cut));
        vstd::seq_lib::lemma_multiset_commutative(jobs.take(cut), jobs.skip(cut));
    }

    /// When as many reports have come as jobs were submitted, the settled jobs
    /// are the submitted jobs, each exactly as often as it was submitted;
    /// nothing waits and nothing is in flight.
    pub proof fn lemma_done_is_complete(self)
        requires
            self.sound(),
            self.done(),
        ensures
            self.settled.to_multiset() =~= self.submitted.to_multiset(),
            self.pending.len() == 0,
            forall|w: int| 0 <= w < self.queues.len() ==> (#[trigger] self.queues[w]).len() == 0,
    {
        broadcast use vstd::multiset::group_multiset_axioms;

        self.lemma_accounts();
        lemma_in_flight_none(self.queues);
        vstd::multiset::lemma_multiset_empty_len(in_flight(self.queues));
        assert(self.submitted.skip(0) =~= self.submitted);
    }

    /// While reports are owed, some worker is busy: the orchestrator never
    /// waits for a report that cannot come.
    pub proof fn lemma_unfinished_is_busy(self)
        requires
            self.sound(),
            !self.done(),
        ensures
            exists|w: int| #[trigger] self.owes(w),
    {
        self.lemma_accounts();
        lemma_in_flight_none(self.queues);
        if self.pending.len() > 0 {
            assert(self.queues[0].len() == 1);
            assert(self.owes(0));
        } else {
            let w = choose|w: int|
                0 <= w < self.queues.len() && (#[trigger] self.queues[w]).len() != 0;
            assert(self.owes(w));
        }
    }

    /// Reports that are due, taken one after the other, keep the drain sound
    /// and settle one job each.
    pub proof fn lemma_replay(self, reports: Seq<usize>)
        requires
            self.sound(),
            self.due(reports),
        ensures
            self.replay(reports).sound(),
            self.replay(reports).submitted == self.submitted,
            self.replay(reports).settled.len() == self.settled.len() + reports.len(),
        decreases reports.len(),
    {
        if reports.len() > 0 {
            self.lemma_replay(reports.drop_last());
            self.replay(reports.drop_last()).lemma_absorb_keeps_sound(reports.last());
        }
    }

    /// Draining `jobs` through a pool of any size settles every job exactly
    /// once: when as many reports have come as jobs were submitted, each of
    /// them due when it came, the drain is done, the settled jobs are the
    /// submitted jobs, each as often as it was submitted, and no job waits or
    /// is in flight. With fewer reports the drain is not done.
    pub proof fn lemma_drain_settles_every_job_once(
        jobs: Seq<T>,
        workers: nat,
        reports: Seq<usize>,
    )
        requires
            jobs.len() > 0 ==> workers > 0,
            Self::start(jobs, workers).due(reports),
        ensures
            Self::start(jobs, workers).replay(reports).settled.len() == reports.len(),
            Self::start(jobs, workers).replay(reports).done() <==> reports.len() == jobs.len(),
            reports.len() == jobs.len() ==> Self::start(jobs, workers).replay(
                reports,
            ).settled.to_multiset() =~= jobs.to_multiset(),
            reports.len() == jobs.len() ==> Self::start(jobs, workers).replay(
                reports,
            ).pending.len() == 0,
            reports.len() == jobs.len() ==> in_flight(
                Self::start(jobs, workers).replay(reports).queues,
            ).len() == 0,
    {
        let started = Self::start(jobs, workers);
        Self::lemma_start_is_sound(jobs, workers);
        started.lemma_replay(reports);
        let ended = started.replay(reports);
        ended.lemma_accounts();
        if reports.len() == jobs.len() {
            ended.lemma_done_is_complete();
        }
    }
}

/// One drain of a pool: the jobs that still wait, the ledger of the pool, and
/// the count of reports taken so far.
///
/// As ghost state it remembers the jobs as they were submitted and the jobs
/// that have been settled, in the order of their reports.
pub struct Drain<T> {
    pool: Compute<T>,
    pending: Vec<T>,
    received: usize,
    total: usize,
    submitted: Ghost<Seq<T>>,
    settled: Ghost<Seq<T>>,
}

impl<T> View for Drain<T> {
    type V = DrainState<T>;

    closed spec fn view(&self) -> DrainState<T> {
        DrainState {
            submitted: self.submitted@,
            pending: self.pending@,
            settled: self.settled@,
            queues: self.pool@,
        }
    }
}

impl<T> Drain<T> {
    /// The counters agree with the state they count, and the state is sound.
    pub closed spec fn well_formed(&self) -> bool {
        &&& self.pool.well_formed()
        &&& self.total == self.submitted@.len()
        &&& self.received == self.settled@.len()
        &&& self@.sound()
    }

    /// A well-formed drain is in a sound state.
    pub proof fn lemma_sound(&self)
        requires
            self.well_formed(),
        ensures
            self@.sound(),
    {
    }

    /// Starts to drain `jobs` through an idle pool, and orders the first
    /// round: one job to each worker, as far as the jobs go. The first worker
    /// gets the last job, the second the one before it, and so on.
    ///
    /// A pool without workers can drain only an empty list.
    pub fn begin(pool: Compute<T>, jobs: Vec<T>) -> (started: (Self, Vec<Dispatch<T>>))
        requires
            pool.well_formed(),
            pool.idle(),
            jobs@.len() > 0 ==> pool@.len() > 0,
        ensures
            started.0.well_formed(),
            started.0@ == DrainState::start(jobs@, pool@.len()),
            started.1@.len() == priming(pool@, jobs@),
            forall|k: int|
                0 <= k < started.1@.len() ==> #[trigger] started.1@[k] == (Dispatch {
                    worker: k as usize,
                    job: jobs@[jobs@.len() - 1 - k],
                }),
    {
        let ghost submitted = jobs@;
        let ghost idle = pool@;
        let mut pool = pool;
        let mut pending = jobs;
        let total = pending.len();
        let first = pool.compute_many(&mut pending);
        proof {
            assert(idle =~~= Seq::new(idle.len(), |w: int| Seq::<T>::empty()));
            DrainState::lemma_start_is_sound(submitted, idle.len());
        }
        let drain = Drain {
            pool,
            pending,
            received: 0,
            total,
            submitted: Ghost(submitted),
            settled: Ghost(Seq::empty()),
        };
        (drain, first)
    }

    /// Whether every job has been reported.
    pub fn is_done(&self) -> (done: bool)
        requires
            self.well_formed(),
        ensures
            done == self@.done(),
    {
        self.received == self.total
    }

    /// How many reports are still owed.
    pub fn outstanding(&self) -> (owed: usize)
        requires
            self.well_formed(),
        ensures
            owed == self@.submitted.len() - self@.settled.len(),
    {
        proof {
            self@.lemma_accounts();
        }
        self.total - self.received
    }

    /// Takes the report of `worker` and orders what the worker does next.
    ///
    /// The worker's job is settled. If a job still waits, the last of them
    /// goes to this very worker, which stays busy; otherwise the worker falls
    /// idle and nothing is ordered. A report from outside the pool, or from a
    /// worker with nothing in flight, is turned down and changes nothing.
    pub fn absorb(&mut self, worker: usize) -> (next: Result<Option<Dispatch<T>>, ComputeError>)
        requires
            old(self).well_formed(),
        ensures
            final(self).well_formed(),
            next == old(self)@.answer(worker),
            final(self)@ == old(self)@.absorb(worker),
    {
        let ghost before = self@;
        proof {
            before.lemma_absorb_keeps_sound(worker);
            before.lemma_accounts();
            lemma_in_flight_none(before.queues);
        }
        match self.pool.retire(worker) {
            Err(error) => Err(error),
            Ok(()) => {
                proof {
                    assert(before.queues[worker as int].len() == 1);
                    assert(before.queues[worker as int].drop_first() =~= Seq::<T>::empty());
                    self.settled@ = self.settled@.push(before.queues[worker as int][0]);
                }
                self.received = self.received + 1;
                match self.pending.pop() {
                    None => {
                        assert(self.pending@ =~= before.pending);
                        Ok(None)
                    },
                    Some(job) => {
                        let sent = self.pool.compute(worker, job);
                        proof {
                            assert(self.pending@ =~= before.pending.drop_last());
                            assert(self.pool@ =~= before.queues.update(worker as int, seq![job]));
                        }
                        Ok(Some(sent.unwrap()))
                    },
                }
            },
        }
    }

    /// Takes one report whole: the bookkeeping of [`Drain::absorb`] for the
    /// worker that reports, and the fold of the job and its output into the
    /// accumulator.
    ///
    /// A report that was not due is turned down, and the accumulator comes
    /// back as it was.
    pub fn settle<R, A, F>(
        &mut self,
        accumulator: A,
        report: ComputeResult<T, R>,
        fold_fn: &F,
    ) -> (turn: (A, Result<Option<Dispatch<T>>, ComputeError>)) where F: Fn(A, &T, R) -> A
        requires
            old(self).well_formed(),
            forall|a: A, t: T, r: R| #[trigger] fold_fn.requires((a, &t, r)),
        ensures
            final(self).well_formed(),
            turn.1 == old(self)@.answer(report.spec_id()),
            final(self)@ == old(self)@.absorb(report.spec_id()),
            turn.1 is Err ==> turn.0 == accumulator,
            turn.1 is Ok ==> fold_fn.ensures(
                (accumulator, &report.spec_task(), report.spec_result()),
                turn.0,
            ),
    {
        let (worker, task, result) = report.into_parts();
        match self.absorb(worker) {
            Err(error) => (accumulator, Err(error)),
            Ok(next) => {
                let folded = fold_fn(accumulator, &task, result);
                (folded, Ok(next))
            },
        }
    }

    /// Ends the drain and gives the pool's ledger back.
    pub fn finish(self) -> (pool: Compute<T>)
        requires
            self.well_formed(),
        ensures
            pool.well_formed(),
            pool@ == self@.queues,
            self@.done() ==> pool.idle(),
    {
        proof {
            if self@.done() {
                self@.lemma_done_is_complete();
            }
        }
        self.pool
    }
}

} // verus!
