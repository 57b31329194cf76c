use raytracer::compute::{serve, Compute, ComputeError, ComputeResult};

#[test]
fn report_keeps_its_parts() {
    let report = ComputeResult::new(3, (7usize, 9usize), 0.25f64);
    assert_eq!(report.id(), 3);
    assert_eq!(*report.task(), (7, 9));
    assert_eq!(*report.result(), 0.25);
    let (worker, job, output) = report.into_parts();
    assert_eq!(worker, 3);
    assert_eq!(job, (7, 9));
    assert_eq!(output, 0.25);
}

#[test]
fn new_pool_is_idle() {
    let pool: Compute<u32> = Compute::new(4);
    assert_eq!(pool.size(), 4);
    assert!(pool.is_idle());
    for worker in 0..4 {
        assert_eq!(pool.load(worker), Some(0));
    }
    assert_eq!(pool.load(4), None);
}

#[test]
fn pool_without_workers() {
    let mut pool: Compute<u32> = Compute::new(0);
    assert_eq!(pool.size(), 0);
    assert!(pool.is_idle());
    assert_eq!(pool.load(0), None);
    assert_eq!(pool.compute(0, 5).err(), Some(ComputeError::UnknownWorker));
    let mut jobs = vec![1, 2];
    assert!(pool.compute_many(&mut jobs).is_empty());
    assert_eq!(jobs, vec![1, 2]);
}

#[test]
fn pool_for_machine_has_one_worker_per_processor() {
    let pool: Compute<u32> = Compute::for_machine();
    assert_eq!(pool.size(), num_cpus::get());
    assert!(pool.is_idle());
}

#[test]
fn compute_sends_to_the_named_worker() {
    let mut pool: Compute<&str> = Compute::new(3);
    let order = pool.compute(1, "job").unwrap();
    assert_eq!(order.worker, 1);
    assert_eq!(order.job, "job");
    assert_eq!(pool.load(0), Some(0));
    assert_eq!(pool.load(1), Some(1));
    assert_eq!(pool.load(2), Some(0));
    assert!(!pool.is_idle());
    let again = pool.compute(1, "more").unwrap();
    assert_eq!(again.worker, 1);
    assert_eq!(pool.load(1), Some(2));
}

#[test]
fn compute_turns_down_an_unknown_worker() {
    let mut pool: Compute<u8> = Compute::new(3);
    assert_eq!(pool.compute(3, 1).err(), Some(ComputeError::UnknownWorker));
    assert_eq!(pool.compute(usize::MAX, 1).err(), Some(ComputeError::UnknownWorker));
    assert!(pool.is_idle());
}

#[test]
fn compute_many_gives_one_job_to_each_worker() {
    let mut pool: Compute<u32> = Compute::new(3);
    let mut jobs = vec![10, 20, 30, 40, 50];
    let sent = pool.compute_many(&mut jobs);
    assert_eq!(jobs, vec![10, 20]);
    assert_eq!(sent.len(), 3);
    assert_eq!((sent[0].worker, sent[0].job), (0, 50));
    assert_eq!((sent[1].worker, sent[1].job), (1, 40));
    assert_eq!((sent[2].worker, sent[2].job), (2, 30));
    for worker in 0..3 {
        assert_eq!(pool.load(worker), Some(1));
    }
}

#[test]
fn compute_many_stops_when_the_jobs_run_out() {
    let mut pool: Compute<u32> = Compute::new(4);
    let mut jobs = vec![7, 8];
    let sent = pool.compute_many(&mut jobs);
    assert!(jobs.is_empty());
    assert_eq!(sent.len(), 2);
    assert_eq!((sent[0].worker, sent[0].job), (0, 8));
    assert_eq!((sent[1].worker, sent[1].job), (1, 7));
    assert_eq!(pool.load(0), Some(1));
    assert_eq!(pool.load(1), Some(1));
    assert_eq!(pool.load(2), Some(0));
    assert_eq!(pool.load(3), Some(0));
}

#[test]
fn compute_many_with_no_jobs_sends_nothing() {
    let mut pool: Compute<u32> = Compute::new(2);
    let mut jobs: Vec<u32> = Vec::new();
    assert!(pool.compute_many(&mut jobs).is_empty());
    assert!(pool.is_idle());
}

#[test]
fn retire_takes_one_job_off_the_worker() {
    let mut pool: Compute<u8> = Compute::new(2);
    pool.compute(0, 1).unwrap();
    pool.compute(0, 2).unwrap();
    assert_eq!(pool.retire(0), Ok(()));
    assert_eq!(pool.load(0), Some(1));
    assert_eq!(pool.retire(0), Ok(()));
    assert_eq!(pool.load(0), Some(0));
    assert!(pool.is_idle());
}

#[test]
fn retire_turns_down_what_is_not_due() {
    let mut pool: Compute<u8> = Compute::new(2);
    assert_eq!(pool.retire(0), Err(ComputeError::IdleWorker));
    assert_eq!(pool.retire(2), Err(ComputeError::UnknownWorker));
    pool.compute(1, 9).unwrap();
    assert_eq!(pool.retire(0), Err(ComputeError::IdleWorker));
    assert_eq!(pool.load(1), Some(1));
}

#[test]
fn serve_runs_the_function_on_a_job() {
    let report = serve(5, Some(21u32), |job: &u32| *job * 2).unwrap();
    assert_eq!(report.id(), 5);
    assert_eq!(*report.task(), 21);
    assert_eq!(*report.result(), 42);
}

#[test]
fn serve_stops_on_the_signal() {
    let report = serve(5, None, |job: &u32| *job * 2);
    assert!(report.is_none());
}
