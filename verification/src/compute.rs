//! The work distribution engine, seen from the orchestrator: which worker
//! holds which job, and what a worker hands back.

use vstd::prelude::*;

verus! {

/// What a worker reports when it has finished one job: its own identifier,
/// the job as it received it, and what its function made of the job.
#[derive(Debug)]
pub struct ComputeResult<T, R> {
    id: usize,
    task: T,
    result: R,
}

impl<T, R> ComputeResult<T, R> {
    /// The identifier of the worker that reports.
    pub closed spec fn spec_id(&self) -> usize {
        self.id
    }

    /// The job that the report is about.
    pub closed spec fn spec_task(&self) -> T {
        self.task
    }

    /// What the worker's function returned for the job.
    pub closed spec fn spec_result(&self) -> R {
        self.result
    }

    /// The identifier of the worker that reports.
    #[verifier::when_used_as_spec(spec_id)]
    pub fn id(&self) -> (id: usize)
        ensures
            id == self.spec_id(),
    {
        self.id
    }

    /// The job that the report is about.
    pub fn task(&self) -> (task: &T)
        ensures
            *task == self.spec_task(),
    {
        &self.task
    }

    /// What the worker's function returned for the job.
    pub fn result(&self) -> (result: &R)
        ensures
            *result == self.spec_result(),
    {
        &self.result
    }

    /// Takes the report apart: the worker, the job and the output.
    pub fn into_parts(self) -> (parts: (usize, T, R))
        ensures
            parts == (self.spec_id(), self.spec_task(), self.spec_result()),
    {
        (self.id, self.task, self.result)
    }

    /// The report of worker `id` that `task` gave `result`.
    pub fn new(id: usize, task: T, result: R) -> (report: Self)
        ensures
            report.spec_id() == id,
            report.spec_task() == task,
            report.spec_result() == result,
    {
        Self { id, task, result }
    }
}

/// One turn of a worker's loop: what it does with one message from its
/// inbound queue.
///
/// `None` is the signal to stop, and the worker reports nothing. A job is run
/// through the worker's function, and the report carries the worker's
/// identifier, the job as it came and the function's output.
pub fn serve<T, R, F>(id: usize, message: Option<T>, function: F) -> (report: Option<
    ComputeResult<T, R>,
>) where F: FnOnce(&T) -> R
    requires
        message matches Some(task) ==> function.requires((&task,)),
    ensures
        message is None ==> report is None,
        message matches Some(task) ==> report matches Some(made) && made.spec_id() == id
            && made.spec_task() == task && function.ensures((&task,), made.spec_result()),
{
    match message {
        None => None,
        Some(task) => {
            let result = function(&task);
            Some(ComputeResult::new(id, task, result))
        },
    }
}

/// Calls `num_cpus::get`, which counts the logical processors that the
/// process may run on. The count belongs to the machine and to the moment,
/// so nothing is claimed of it.
#[verifier::external_body]
fn logical_processors() -> (count: usize) {
    num_cpus::get()
}

/// An order for the pool: hand `job` to the worker `worker`.
#[derive(Debug, Clone, PartialEq, Eq)]
pub struct Dispatch<T> {
    pub worker: usize,
    pub job: T,
}

/// Why the ledger turned an event down.
#[derive(Debug, Clone, Copy, PartialEq, Eq)]
pub enum ComputeError {
    /// The identifier names no worker of the pool.
    UnknownWorker,
    /// The worker reported although nothing was in flight to it.
    IdleWorker,
}

/// How many jobs one round of priming sends: one to each worker, as far as
/// the jobs go.
pub open spec fn priming<T>(queues: Seq<Seq<T>>, jobs: Seq<T>) -> nat {
    if queues.len() <= jobs.len() {
        queues.len()
    } else {
        jobs.len()
    }
}

/// The queues after one round of priming: worker `w` has got the job that
/// stood `w` places from the back of `jobs`.
pub open spec fn primed<T>(queues: Seq<Seq<T>>, jobs: Seq<T>) -> Seq<Seq<T>> {
    Seq::new(
        queues.len(),
        |w: int|
            if w < priming(queues, jobs) {
                queues[w].push(jobs[jobs.len() - 1 - w])
            } else {
                queues[w]
            },
    )
}

/// The ledger of a pool of workers whose size is fixed when it is made.
///
/// Each worker has an inbound queue of its own, served first in, first out.
/// The ledger counts what each queue holds and, as ghost state, remembers the
/// jobs themselves: `self@[w]` is what was sent to worker `w` and has not been
/// reported yet, oldest first.
pub struct Compute<T> {
    loads: Vec<usize>,
    queues: Ghost<Seq<Seq<T>>>,
}

impl<T> View for Compute<T> {
    type V = Seq<Seq<T>>;

    closed spec fn view(&self) -> Seq<Seq<T>> {
        self.queues@
    }
}

impl<T> Compute<T> {
    /// The counters agree with the queues they count.
    pub closed spec fn well_formed(&self) -> bool {
        &&& self.loads@.len() == self.queues@.len()
        &&& forall|w: int|
            0 <= w < self.loads@.len() ==> #[trigger] self.loads@[w] == self.queues@[w].len()
    }

    /// Nothing is in flight to any worker.
    pub open spec fn idle(&self) -> bool {
        forall|w: int| 0 <= w < self@.len() ==> (#[trigger] self@[w]).len() == 0
    }

    /// A pool of `threads` workers, all of them idle.
    pub fn new(threads: usize) -> (pool: Self)
        ensures
            pool.well_formed(),
            pool@ == Seq::new(threads as nat, |w: int| Seq::<T>::empty()),
    {
        let mut loads: Vec<usize> = Vec::new();
        while loads.len() < threads
            invariant
                loads@.len() <= threads,
                forall|w: int| 0 <= w < loads@.len() ==> loads@[w] == 0,
            decreases threads - loads@.len(),
        {
            loads.push(0);
        }
        let pool = Self {
            loads,
            queues: Ghost(Seq::new(threads as nat, |w: int| Seq::<T>::empty())),
        };
        pool
    }

    /// A pool with one worker for each logical processor that this machine
    /// offers to the process, all of them idle.
    pub fn for_machine() -> (pool: Self)
        ensures
            pool.well_formed(),
            pool.idle(),
    {
        Self::new(logical_processors())
    }

    /// The number of workers.
    pub fn size(&self) -> (workers: usize)
        requires
            self.well_formed(),
        ensures
            workers == self@.len(),
    {
        self.loads.len()
    }

    /// How many jobs are in flight to `instance`, if the pool has such a worker.
    pub fn load(&self, instance: usize) -> (load: Option<usize>)
        requires
            self.well_formed(),
        ensures
            instance < self@.len() ==> load == Some(self@[instance as int].len() as usize),
            instance >= self@.len() ==> load is None,
    {
        if instance < self.loads.len() {
            Some(self.loads[instance])
        } else {
            None
        }
    }

    /// Whether nothing is in flight to any worker.
    pub fn is_idle(&self) -> (idle: bool)
        requires
            self.well_formed(),
        ensures
            idle == self.idle(),
    {
        let mut w: usize = 0;
        while w < self.loads.len()
            invariant
                self.well_formed(),
                w <= self.loads@.len(),
                forall|v: int| 0 <= v < w ==> (#[trigger] self@[v]).len() == 0,
            decreases self.loads@.len() - w,
        {
            if self.loads[w] != 0 {
                assert(self@[w as int].len() != 0);
                return false;
            }
            w += 1;
        }
        true
    }

    /// Sends one job to one worker.
    ///
    /// For a worker of the pool the job joins the back of that worker's
    /// queue and the order to send it comes back. For any other identifier
    /// nothing changes and the job is given up.
    pub fn compute(&mut self, instance: usize, task: T) -> (sent: Result<
        Dispatch<T>,
        ComputeError,
    >)
        requires
            old(self).well_formed(),
            instance < old(self)@.len() ==> old(self)@[instance as int].len() < usize::MAX,
        ensures
            final(self).well_formed(),
            instance < old(self)@.len() ==> sent == Ok::<Dispatch<T>, ComputeError>(
                (Dispatch { worker: instance, job: task }),
            ) && final(self)@ == old(self)@.update(
                instance as int,
                old(self)@[instance as int].push(task),
            ),
            instance >= old(self)@.len() ==> sent == Err::<Dispatch<T>, ComputeError>(
                ComputeError::UnknownWorker,
            ) && final(self)@ == old(self)@,
    {
        if instance >= self.loads.len() {
            return Err(ComputeError::UnknownWorker);
        }
        let load: usize = self.loads[instance];
        self.loads.set(instance, load + 1);
        proof {
            self.queues@ = self.queues@.update(
                instance as int,
                self.queues@[instance as int].push(task),
            );
        }
        Ok(Dispatch { worker: instance, job: task })
    }

    /// Sends up to one job to every worker, to fill the pipeline.
    ///
    /// Jobs leave the back of `jobs`; the first worker gets the last job, the
    /// second the one before it, and so on until the workers or the jobs run
    /// out.
    pub fn compute_many(&mut self, jobs: &mut Vec<T>) -> (sent: Vec<Dispatch<T>>)
        requires
            old(self).well_formed(),
            forall|w: int|
                0 <= w < old(self)@.len() ==> (#[trigger] old(self)@[w]).len() < usize::MAX,
        ensures
            final(self).well_formed(),
            sent@.len() == priming(old(self)@, old(jobs)@),
            final(jobs)@ == old(jobs)@.take(old(jobs)@.len() - sent@.len()),
            forall|k: int|
                0 <= k < sent@.len() ==> #[trigger] sent@[k] == (Dispatch {
                    worker: k as usize,
                    job: old(jobs)@[old(jobs)@.len() - 1 - k],
                }),
            final(self)@ == primed(old(self)@, old(jobs)@),
    {
        let ghost queues = self@;
        let ghost pool = jobs@;
        let mut sent: Vec<Dispatch<T>> = Vec::new();
        let mut w: usize = 0;
        while w < self.loads.len() && jobs.len() > 0
            invariant
                self.well_formed(),
                self@.len() == queues.len(),
                w <= queues.len(),
                w <= pool.len(),
                w < queues.len() && jobs@.len() > 0 || w == priming(queues, pool),
                sent@.len() == w,
                jobs@ == pool.take(pool.len() - w),
                forall|k: int|
                    0 <= k < w ==> #[trigger] sent@[k] == (Dispatch {
                        worker: k as usize,
                        job: pool[pool.len() - 1 - k],
                    }),
                forall|v: int|
                    0 <= v < w ==> #[trigger] self@[v] == queues[v].push(
                        pool[pool.len() - 1 - v],
                    ),
                forall|v: int| w <= v < queues.len() ==> #[trigger] self@[v] == queues[v],
                forall|v: int|
                    0 <= v < queues.len() ==> (#[trigger] queues[v]).len() < usize::MAX,
            decreases queues.len() - w,
        {
            let job = jobs.pop().unwrap();
            let order = self.compute(w, job).unwrap();
            sent.push(order);
            w += 1;
            assert(jobs@ =~= pool.take(pool.len() - w));
        }
        assert(self@ =~= primed(queues, pool));
        sent
    }

    /// Records that `instance` has reported its oldest job.
    ///
    /// The job leaves the front of the worker's queue. A report from an
    /// identifier outside the pool, or from a worker with nothing in flight,
    /// is turned down and changes nothing.
    pub fn retire(&mut self, instance: usize) -> (done: Result<(), ComputeError>)
        requires
            old(self).well_formed(),
        ensures
            final(self).well_formed(),
            instance >= old(self)@.len() ==> done == Err::<(), ComputeError>(
                ComputeError::UnknownWorker,
            ) && final(self)@ == old(self)@,
            instance < old(self)@.len() && old(self)@[instance as int].len() == 0 ==> done == Err::<
                (),
                ComputeError,
            >(ComputeError::IdleWorker) && final(self)@ == old(self)@,
            instance < old(self)@.len() && old(self)@[instance as int].len() > 0 ==> done == Ok::<
                (),
                ComputeError,
            >(()) && final(self)@ == old(self)@.update(
                instance as int,
                old(self)@[instance as int].drop_first(),
            ),
    {
        if instance >= self.loads.len() {
            return Err(ComputeError::UnknownWorker);
        }
        let load: usize = self.loads[instance];
        if load == 0 {
            return Err(ComputeError::IdleWorker);
        }
        self.loads.set(instance, load - 1);
        proof {
            self.queues@ = self.queues@.update(
                instance as int,
                self.queues@[instance as int].drop_first(),
            );
        }
        Ok(())
    }
}

} // verus!
