use raytracer::compute::{serve, Compute, ComputeError, Dispatch};
use raytracer::drain::Drain;

/// Drains `jobs` through `workers` workers that square a number. `pick`
/// chooses which of the busy workers reports next. Returns the jobs in the
/// order of their reports, each with its output, and the largest number of
/// jobs that were in flight at once.
fn drain_squares(
    workers: usize,
    jobs: Vec<u64>,
    pick: &dyn Fn(&[usize], usize) -> usize,
) -> (Vec<(u64, u64)>, usize) {
    let total = jobs.len();
    let mut inbound: Vec<Option<u64>> = vec![None; workers];
    let (mut drain, first) = Drain::begin(Compute::new(workers), jobs);
    for order in first {
        assert!(inbound[order.worker].is_none());
        inbound[order.worker] = Some(order.job);
    }
    let fold = |mut seen: Vec<(u64, u64)>, job: &u64, output: u64| {
        seen.push((*job, output));
        seen
    };
    let mut seen: Vec<(u64, u64)> = Vec::new();
    let mut most = 0;
    let mut turn = 0;
    while !drain.is_done() {
        let busy: Vec<usize> = (0..workers).filter(|w| inbound[*w].is_some()).collect();
        assert!(!busy.is_empty());
        most = most.max(busy.len());
        assert_eq!(drain.outstanding(), total - seen.len());
        let worker = pick(&busy, turn);
        let message = inbound[worker].take();
        let report = serve(worker, message, |job: &u64| *job * *job).unwrap();
        let (folded, next) = drain.settle(seen, report, &fold);
        seen = folded;
        if let Some(order) = next.unwrap() {
            assert_eq!(order.worker, worker);
            inbound[order.worker] = Some(order.job);
        }
        turn += 1;
    }
    assert!(inbound.iter().all(|slot| slot.is_none()));
    assert_eq!(drain.outstanding(), 0);
    assert!(drain.finish().is_idle());
    (seen, most)
}

fn lowest(busy: &[usize], _turn: usize) -> usize {
    busy[0]
}

fn highest(busy: &[usize], _turn: usize) -> usize {
    busy[busy.len() - 1]
}

fn rotating(busy: &[usize], turn: usize) -> usize {
    busy[(turn * 7 + 3) % busy.len()]
}

#[test]
fn every_job_is_reported_once_whatever_the_pool_size() {
    let jobs: Vec<u64> = vec![3, 1, 4, 1, 5, 9, 2, 6];
    for workers in 1..=10 {
        for pick in [lowest, highest, rotating] {
            let (seen, most) = drain_squares(workers, jobs.clone(), &pick);
            assert_eq!(seen.len(), jobs.len());
            assert!(most <= workers);
            let mut reported: Vec<u64> = seen.iter().map(|(job, _)| *job).collect();
            let mut submitted = jobs.clone();
            reported.sort();
            submitted.sort();
            assert_eq!(reported, submitted);
            for (job, output) in seen {
                assert_eq!(output, job * job);
            }
        }
    }
}

#[test]
fn one_worker_takes_the_jobs_from_the_back() {
    let (seen, most) = drain_squares(1, vec![1, 2, 3], &lowest);
    assert_eq!(seen, vec![(3, 9), (2, 4), (1, 1)]);
    assert_eq!(most, 1);
}

#[test]
fn two_workers_in_a_fixed_order() {
    let (seen, most) = drain_squares(2, vec![10, 20, 30], &highest);
    assert_eq!(seen, vec![(20, 400), (10, 100), (30, 900)]);
    assert_eq!(most, 2);
}

#[test]
fn begin_orders_the_first_round() {
    let (drain, first) = Drain::begin(Compute::new(2), vec!['a', 'b', 'c', 'd']);
    let expected = vec![
        Dispatch { worker: 0, job: 'd' },
        Dispatch { worker: 1, job: 'c' },
    ];
    assert_eq!(first, expected);
    assert!(!drain.is_done());
    assert_eq!(drain.outstanding(), 4);
    let pool = drain.finish();
    assert_eq!(pool.load(0), Some(1));
    assert_eq!(pool.load(1), Some(1));
}

#[test]
fn begin_with_more_workers_than_jobs() {
    let (drain, first) = Drain::begin(Compute::new(5), vec!['a', 'b']);
    assert_eq!(first.len(), 2);
    assert_eq!((first[0].worker, first[0].job), (0, 'b'));
    assert_eq!((first[1].worker, first[1].job), (1, 'a'));
    let pool = drain.finish();
    assert_eq!(pool.load(1), Some(1));
    assert_eq!(pool.load(2), Some(0));
}

#[test]
fn nothing_to_drain_is_done_at_once() {
    let (drain, first) = Drain::begin(Compute::new(3), Vec::<u8>::new());
    assert!(first.is_empty());
    assert!(drain.is_done());
    assert_eq!(drain.outstanding(), 0);
    let (idle, none) = Drain::begin(Compute::new(0), Vec::<u8>::new());
    assert!(none.is_empty());
    assert!(idle.is_done());
}

#[test]
fn absorb_refills_the_worker_that_reported() {
    let (mut drain, _first) = Drain::begin(Compute::new(2), vec![10, 20, 30, 40]);
    assert_eq!(drain.absorb(1), Ok(Some(Dispatch { worker: 1, job: 20 })));
    assert_eq!(drain.absorb(1), Ok(Some(Dispatch { worker: 1, job: 10 })));
    assert_eq!(drain.absorb(0), Ok(None));
    assert!(!drain.is_done());
    assert_eq!(drain.outstanding(), 1);
    assert!(drain.absorb(1).unwrap().is_none());
    assert!(drain.is_done());
}

#[test]
fn absorb_turns_down_what_is_not_due() {
    let (mut drain, _first) = Drain::begin(Compute::new(3), vec![1, 2]);
    assert_eq!(drain.absorb(3).err(), Some(ComputeError::UnknownWorker));
    assert_eq!(drain.absorb(2).err(), Some(ComputeError::IdleWorker));
    assert_eq!(drain.outstanding(), 2);
    assert!(drain.absorb(0).unwrap().is_none());
    assert_eq!(drain.absorb(0).err(), Some(ComputeError::IdleWorker));
    assert_eq!(drain.outstanding(), 1);
    assert!(drain.absorb(1).unwrap().is_none());
    assert!(drain.is_done());
    assert_eq!(drain.absorb(1).err(), Some(ComputeError::IdleWorker));
    assert!(drain.is_done());
}

#[test]
fn settle_folds_the_job_and_its_output() {
    let (mut drain, first) = Drain::begin(Compute::new(1), vec![2u32, 5]);
    assert_eq!(first[0].job, 5);
    let fold = |sum: u32, job: &u32, output: u32| sum + 100 * *job + output;
    let report = serve(0, Some(5u32), |job: &u32| *job + 1).unwrap();
    let (sum, next) = drain.settle(0, report, &fold);
    assert_eq!(sum, 506);
    assert_eq!(next.unwrap().unwrap().job, 2);
    let report = serve(0, Some(2u32), |job: &u32| *job + 1).unwrap();
    let (sum, next) = drain.settle(sum, report, &fold);
    assert_eq!(sum, 709);
    assert!(next.unwrap().is_none());
    assert!(drain.is_done());
}

#[test]
fn settle_leaves_the_accumulator_when_it_turns_a_report_down() {
    let (mut drain, _first) = Drain::begin(Compute::new(2), vec![7u32]);
    let fold = |sum: u32, _job: &u32, output: u32| sum + output;
    let stray = serve(1, Some(7u32), |job: &u32| *job).unwrap();
    let (sum, next) = drain.settle(40, stray, &fold);
    assert_eq!(sum, 40);
    assert_eq!(next.err(), Some(ComputeError::IdleWorker));
    let stranger = serve(9, Some(7u32), |job: &u32| *job).unwrap();
    let (sum, next) = drain.settle(sum, stranger, &fold);
    assert_eq!(sum, 40);
    assert_eq!(next.err(), Some(ComputeError::UnknownWorker));
    assert!(!drain.is_done());
}
