use aoc::threadpool::{AlreadyBusy, ThreadPool, Worker};

fn ids(report: &[(usize, usize)]) -> Vec<usize> {
    report.iter().map(|p| p.0).collect()
}

#[test]
fn two_workers_three_jobs() {
    let mut pool: ThreadPool<&str> = ThreadPool::new(2);
    let (j1, d1) = pool.register("one");
    let (j2, d2) = pool.register("two");
    let (j3, d3) = pool.register("three");
    assert_eq!((j1, j2, j3), (0, 1, 2));
    assert_eq!(d1.as_ref().map(|d| d.worker), Some(0));
    assert_eq!(d2.as_ref().map(|d| d.worker), Some(1));
    assert!(d3.is_none());

    let (report, dispatched) = pool.update::<Result<u64, String>>(vec![None, None]);
    assert!(report.finished_jobs.is_empty());
    assert_eq!(report.started_jobs, vec![(j1, 0), (j2, 1)]);
    assert!(dispatched.is_empty());

    let (report, dispatched) = pool.update(vec![Some(Ok::<u64, String>(12)), None]);
    assert_eq!(report.finished_jobs, vec![(j1, Ok(12))]);
    assert_eq!(report.started_jobs, vec![(j3, 0)]);
    assert_eq!(dispatched.len(), 1);
    assert_eq!(dispatched[0].worker, 0);
    assert_eq!(dispatched[0].job.id, j3);
    assert_eq!(dispatched[0].job.payload, "three");
}

#[test]
fn failed_job_is_reported_and_pool_goes_on() {
    let mut pool: ThreadPool<u32> = ThreadPool::new(1);
    let (j1, d1) = pool.register(7);
    assert_eq!(d1.map(|d| (d.worker, d.job.payload)), Some((0, 7)));
    let (report, _) = pool.update(vec![Some(Err::<u64, String>("bad input".to_string()))]);
    assert_eq!(report.finished_jobs, vec![(j1, Err("bad input".to_string()))]);

    let (j2, d2) = pool.register(8);
    assert_eq!(j2, j1 + 1);
    assert_eq!(d2.map(|d| d.worker), Some(0));
    let (report, _) = pool.update(vec![Some(Ok::<u64, String>(3))]);
    assert_eq!(report.finished_jobs, vec![(j2, Ok(3))]);
}

#[test]
fn empty_pool_reports_nothing() {
    let mut pool: ThreadPool<()> = ThreadPool::new(4);
    assert_eq!(pool.size(), 4);
    let (report, dispatched) = pool.update::<u8>(vec![None, None, None, None]);
    assert!(report.finished_jobs.is_empty());
    assert!(report.started_jobs.is_empty());
    assert!(dispatched.is_empty());
}

#[test]
fn second_update_in_a_row_is_empty() {
    let mut pool: ThreadPool<u8> = ThreadPool::new(2);
    for p in 0..5u8 {
        pool.register(p);
    }
    let (first, _) = pool.update(vec![Some(1u8), Some(2u8)]);
    assert_eq!(ids(&first.started_jobs), vec![0, 1, 2, 3]);
    assert_eq!(first.finished_jobs, vec![(0, 1), (1, 2)]);
    let (second, dispatched) = pool.update::<u8>(vec![None, None]);
    assert!(second.finished_jobs.is_empty());
    assert!(second.started_jobs.is_empty());
    assert!(dispatched.is_empty());
}

#[test]
fn backlog_is_first_in_first_out() {
    let mut pool: ThreadPool<char> = ThreadPool::new(1);
    for c in ['a', 'b', 'c', 'd'] {
        pool.register(c);
    }
    let mut order = Vec::new();
    let mut started = Vec::new();
    for _ in 0..3 {
        let (report, dispatched) = pool.update(vec![Some(())]);
        for d in dispatched {
            order.push(d.job.payload);
        }
        for (job, worker) in report.started_jobs {
            assert_eq!(worker, 0);
            started.push(job);
        }
    }
    assert_eq!(order, vec!['b', 'c', 'd']);
    assert_eq!(started, vec![0, 1, 2, 3]);
}

#[test]
fn every_job_is_finished_exactly_once() {
    let mut pool: ThreadPool<usize> = ThreadPool::new(3);
    let mut submitted = Vec::new();
    for p in 0..10 {
        submitted.push(pool.register(p).0);
    }
    let mut finished = Vec::new();
    for _ in 0..6 {
        let (report, _) = pool.update(vec![Some(()), Some(()), Some(())]);
        finished.extend(report.finished_jobs.into_iter().map(|(id, _)| id));
    }
    finished.sort();
    assert_eq!(finished, submitted);
}

#[test]
fn worker_started_twice_only_after_finishing() {
    let mut pool: ThreadPool<u8> = ThreadPool::new(1);
    pool.register(1);
    pool.register(2);
    let (report, _) = pool.update(vec![Some(9u8)]);
    assert_eq!(report.started_jobs, vec![(0, 0), (1, 0)]);
    assert_eq!(report.finished_jobs, vec![(0, 9)]);
}

#[test]
fn busy_worker_refuses_a_second_job() {
    let mut w = Worker::new(3);
    assert_eq!(w.id(), 3);
    assert!(!w.is_running());
    assert_eq!(w.run_job(10), Ok(10));
    assert!(w.is_running());
    assert_eq!(w.run_job(11), Err(AlreadyBusy));
    assert_eq!(w.update::<u8>(None), None);
    assert_eq!(w.update(Some(5u8)), Some((10, 5)));
    assert!(!w.is_running());
    assert_eq!(w.update(Some(6u8)), None);
}

#[test]
fn pool_ids_run_out_only_at_the_top() {
    let pool: ThreadPool<u8> = ThreadPool::new(1);
    assert!(pool.has_free_id());
}
