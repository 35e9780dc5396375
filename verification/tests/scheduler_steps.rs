use task_runtime::error::ErrorKind;
use task_runtime::scheduler::{Phase, PoolConfig, Scheduler, TaskState};
use task_runtime::task_id::TaskId;

#[test]
fn tasks_are_polled_in_the_order_of_arrival() {
    let mut rt = Scheduler::new();
    let a = rt.allocate().unwrap();
    let b = rt.allocate().unwrap();
    let c = rt.allocate().unwrap();
    assert_eq!(rt.spawn(b), Ok(()));
    assert_eq!(rt.spawn(a), Ok(()));
    assert_eq!(rt.spawn(c), Ok(()));
    assert_eq!(rt.ready_len(), 3);
    assert_eq!(rt.next_ready(), Some(b));
    assert_eq!(rt.state(b), Some(TaskState::Running));
    assert_eq!(rt.next_ready(), Some(a));
    assert_eq!(rt.next_ready(), Some(c));
    assert_eq!(rt.next_ready(), None);
    assert_eq!(rt.alive(), 3);
}

#[test]
fn a_parked_task_is_queued_by_the_first_wake_only() {
    let mut rt = Scheduler::new();
    let id = rt.allocate().unwrap();
    assert_eq!(rt.spawn(id), Ok(()));
    assert!(!rt.wakeup(id));
    assert_eq!(rt.next_ready(), Some(id));
    assert!(!rt.wakeup(id));
    assert!(rt.pending(id));
    assert_eq!(rt.state(id), Some(TaskState::Parked));
    assert_eq!(rt.ready_len(), 0);
    assert!(rt.wakeup(id));
    assert!(!rt.wakeup(id));
    assert!(!rt.wakeup(id));
    assert_eq!(rt.ready_len(), 1);
    assert_eq!(rt.state(id), Some(TaskState::Ready));
    assert_eq!(rt.next_ready(), Some(id));
    assert_eq!(rt.next_ready(), None);
    assert!(rt.pending(id));
    assert!(rt.wakeup(id));
    assert_eq!(rt.ready_len(), 1);
}

#[test]
fn waking_an_unknown_task_does_nothing() {
    let mut rt = Scheduler::new();
    assert!(!rt.wakeup(TaskId(5)));
    assert_eq!(rt.wakeup_strict(TaskId(5)), Err(ErrorKind::TaskMissing));
    let id = rt.allocate().unwrap();
    assert_eq!(rt.wakeup_strict(id), Err(ErrorKind::TaskMissing));
    assert_eq!(rt.spawn(id), Ok(()));
    assert_eq!(rt.wakeup_strict(id), Ok(false));
    assert_eq!(rt.next_ready(), Some(id));
    assert!(rt.pending(id));
    assert_eq!(rt.wakeup_strict(id), Ok(true));
    assert_eq!(rt.next_ready(), Some(id));
    assert!(rt.finish(id));
    assert!(!rt.wakeup(id));
    assert_eq!(rt.wakeup_strict(id), Err(ErrorKind::TaskMissing));
    assert_eq!(rt.state(id), None);
    assert_eq!(rt.ready_len(), 0);
}

#[test]
fn spawning_needs_an_open_runtime_and_a_free_id() {
    let mut rt = Scheduler::new();
    assert_eq!(rt.phase(), Phase::Open);
    assert_eq!(rt.spawn(TaskId(0)), Err(ErrorKind::TaskMissing));
    let id = rt.allocate().unwrap();
    assert_eq!(rt.spawn(id), Ok(()));
    assert_eq!(rt.spawn(id), Err(ErrorKind::TaskMissing));
    assert_eq!(rt.ready_len(), 1);
    let other = rt.allocate().unwrap();
    rt.close();
    assert_eq!(rt.phase(), Phase::Closed);
    assert_eq!(rt.spawn(other), Err(ErrorKind::SpawnClosed));
    rt.shutdown();
    assert_eq!(rt.phase(), Phase::Shutdown);
    assert_eq!(rt.spawn(other), Err(ErrorKind::RuntimeShutdown));
    rt.close();
    assert_eq!(rt.phase(), Phase::Shutdown);
    assert_eq!(rt.alive(), 1);
    assert_eq!(rt.next_ready(), Some(id));
}

#[test]
fn a_local_queue_that_was_torn_down_is_closed() {
    let mut queue = Scheduler::local();
    let id = queue.allocate().unwrap();
    queue.close();
    assert_eq!(queue.spawn(id), Err(ErrorKind::QueueClosed));
    queue.shutdown();
    assert_eq!(queue.spawn(id), Err(ErrorKind::RuntimeShutdown));
}

#[test]
fn a_finished_task_frees_its_id() {
    let mut rt = Scheduler::new();
    let first = rt.allocate().unwrap();
    let second = rt.allocate().unwrap();
    assert_eq!((first, second), (TaskId(0), TaskId(1)));
    assert_eq!(rt.spawn(first), Ok(()));
    assert!(!rt.finish(first));
    assert_eq!(rt.next_ready(), Some(first));
    assert!(rt.finish(first));
    assert!(!rt.finish(first));
    assert_eq!(rt.alive(), 0);
    assert_eq!(rt.allocate(), Some(first));
    assert_eq!(rt.allocate(), Some(TaskId(2)));
}

#[test]
fn a_task_that_gives_way_goes_to_the_back() {
    let mut rt = Scheduler::new();
    let a = rt.allocate().unwrap();
    let b = rt.allocate().unwrap();
    assert_eq!(rt.spawn(a), Ok(()));
    assert_eq!(rt.spawn(b), Ok(()));
    assert!(!rt.yield_now(a));
    assert_eq!(rt.next_ready(), Some(a));
    assert!(rt.yield_now(a));
    assert_eq!(rt.next_ready(), Some(b));
    assert_eq!(rt.next_ready(), Some(a));
    assert!(rt.after_poll(a, false));
    assert_eq!(rt.state(a), Some(TaskState::Parked));
    assert!(rt.after_poll(b, true));
    assert_eq!(rt.state(b), None);
    assert!(!rt.after_poll(b, true));
}

#[test]
fn park_and_wake_on_a_local_queue() {
    let mut queue = Scheduler::local();
    let mut parked: Vec<(usize, TaskId)> = Vec::new();
    let mut completed = vec![0usize; 100];
    let mut spawned = 0usize;
    let mut finished = 0usize;
    for index in 0..100 {
        let id = queue.allocate().unwrap();
        assert_eq!(queue.spawn(id), Ok(()));
        spawned += 1;
        let polled = queue.next_ready().unwrap();
        assert_eq!(polled, id);
        if index % 2 == 0 {
            assert!(queue.pending(id));
            parked.push((index, id));
        } else {
            assert!(queue.finish(id));
            completed[index] += 1;
            finished += 1;
        }
        assert_eq!(spawned, finished + queue.alive());
    }
    assert_eq!(queue.alive(), 50);
    assert_eq!(queue.next_ready(), None);
    parked.reverse();
    for (index, id) in parked {
        assert!(queue.wakeup(id));
        assert_eq!(queue.next_ready(), Some(id));
        assert!(queue.finish(id));
        completed[index] += 1;
        finished += 1;
        assert_eq!(spawned, finished + queue.alive());
    }
    assert!(completed.iter().all(|n| *n == 1));
    assert_eq!(finished, 100);
    assert_eq!(queue.alive(), 0);
    assert_eq!(queue.ready_len(), 0);
}

#[test]
fn wakers_resume_the_parked_tasks_of_a_driven_runtime() {
    let mut rt = Scheduler::new();
    let mut resolved = 0usize;
    let mut sleepers: Vec<TaskId> = Vec::new();
    for _ in 0..100 {
        let id = rt.allocate().unwrap();
        assert_eq!(rt.spawn(id), Ok(()));
        sleepers.push(id);
    }
    while let Some(id) = rt.next_ready() {
        assert!(rt.pending(id));
    }
    assert_eq!(rt.alive(), 100);
    let mut wakers: Vec<(TaskId, TaskId)> = Vec::new();
    for target in &sleepers {
        let id = rt.allocate().unwrap();
        assert_eq!(rt.spawn(id), Ok(()));
        wakers.push((id, *target));
    }
    while let Some(id) = rt.next_ready() {
        match wakers.iter().find(|(waker, _)| *waker == id) {
            Some((_, target)) if rt.state(*target) == Some(TaskState::Parked) => {
                assert!(rt.wakeup(*target));
                assert!(rt.finish(id));
            }
            _ => {
                assert!(sleepers.contains(&id));
                assert!(rt.finish(id));
                resolved += 1;
            }
        }
    }
    assert_eq!(resolved, 100);
    assert_eq!(rt.alive(), 0);
}

#[test]
fn a_pool_needs_a_worker() {
    assert!(PoolConfig::new(String::from("AsyncWorker"), 0, 1024 * 1024, 10).is_none());
    let config = PoolConfig::new(String::from("AsyncWorker"), 8, 1024 * 1024, 10).unwrap();
    assert_eq!(config.name, "AsyncWorker");
    assert_eq!(config.workers, 8);
    assert_eq!(config.stack_size, 1024 * 1024);
    assert_eq!(config.idle_ms, 10);
}
