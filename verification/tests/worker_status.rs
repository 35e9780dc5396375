use task_runtime::worker::{
    after_wait, elapsed_micros, exchanged, next_step, stop_after, stop_begin, LoopStep, StopStage,
    WaitStep, Worker, WorkerStatus,
};

#[test]
fn a_new_worker_waits() {
    let worker = Worker::new(7, 1000);
    assert_eq!(worker.uid(), 7);
    assert_eq!(worker.slow_micros(), 1000);
    assert_eq!(worker.get_status(), WorkerStatus::Wait as usize);
    assert_eq!(worker.get_status(), 1);
    assert_eq!(worker.count(), 0);
}

#[test]
fn set_status_needs_the_current_status() {
    let worker = Worker::new(0, 0);
    assert!(worker.set_status(WorkerStatus::Wait, WorkerStatus::Running));
    assert_eq!(worker.get_status(), 2);
    assert!(!worker.set_status(WorkerStatus::Wait, WorkerStatus::Stop));
    assert_eq!(worker.get_status(), 2);
    assert!(worker.set_status(WorkerStatus::Running, WorkerStatus::Wait));
    assert_eq!(worker.get_status(), 1);
    assert!(worker.set_status(WorkerStatus::Wait, WorkerStatus::Wait));
    assert_eq!(worker.get_status(), 1);
}

#[test]
fn stop_works_from_every_status() {
    let waiting = Worker::new(1, 0);
    assert!(waiting.stop());
    assert_eq!(waiting.get_status(), 0);
    assert!(waiting.stop());
    assert_eq!(waiting.get_status(), 0);

    let running = Worker::new(2, 0);
    assert!(running.set_status(WorkerStatus::Wait, WorkerStatus::Running));
    assert!(running.stop());
    assert_eq!(running.get_status(), WorkerStatus::Stop as usize);
    assert!(!running.set_status(WorkerStatus::Running, WorkerStatus::Wait));
}

#[test]
fn record_task_counts() {
    let worker = Worker::new(3, 0);
    worker.record_task();
    worker.record_task();
    worker.record_task();
    assert_eq!(worker.count(), 3);
}

#[test]
fn status_codes() {
    assert_eq!(WorkerStatus::Stop.code(), 0);
    assert_eq!(WorkerStatus::Wait.code(), 1);
    assert_eq!(WorkerStatus::Running.code(), 2);
    assert_eq!(WorkerStatus::from_code(0), Some(WorkerStatus::Stop));
    assert_eq!(WorkerStatus::from_code(1), Some(WorkerStatus::Wait));
    assert_eq!(WorkerStatus::from_code(2), Some(WorkerStatus::Running));
    assert_eq!(WorkerStatus::from_code(3), None);
    assert_eq!(WorkerStatus::from_code(usize::MAX), None);
}

#[test]
fn the_loop_follows_the_status() {
    assert_eq!(next_step(0), LoopStep::Exit);
    assert_eq!(next_step(1), LoopStep::Park);
    assert_eq!(next_step(2), LoopStep::Work);
    assert_eq!(next_step(3), LoopStep::Retry);
    assert_eq!(next_step(usize::MAX), LoopStep::Retry);
}

#[test]
fn after_a_wait() {
    assert_eq!(after_wait(true, false), WaitStep::Fetch);
    assert_eq!(after_wait(true, true), WaitStep::GiveUp);
    assert_eq!(after_wait(false, true), WaitStep::GiveUp);
    assert_eq!(after_wait(false, false), WaitStep::WaitOn);
}

#[test]
fn elapsed_time_in_microseconds() {
    assert_eq!(elapsed_micros(0, 0), 0);
    assert_eq!(elapsed_micros(2, 500_000_000), 2_500_000);
    assert_eq!(elapsed_micros(0, 999), 0);
    assert_eq!(elapsed_micros(0, 1_999), 1);
    assert_eq!(elapsed_micros(18_446_744_073_709, 551_615_999), u64::MAX);
}

#[test]
fn a_task_is_slow_from_the_limit_on() {
    let worker = Worker::new(0, 1000);
    assert!(!worker.is_slow(0, 999_999));
    assert!(worker.is_slow(0, 1_000_000));
    assert!(worker.is_slow(1, 0));
    assert!(worker.is_slow(u64::MAX, 999_999_999));
    let eager = Worker::new(0, 0);
    assert!(eager.is_slow(0, 0));
    let patient = Worker::new(0, u32::MAX);
    assert!(!patient.is_slow(4294, 967_294_999));
    assert!(patient.is_slow(4294, 967_295_000));
}

#[test]
fn stopping_tries_a_running_worker_then_a_waiting_one() {
    assert_eq!(stop_begin(0), StopStage::Done(true));
    assert_eq!(stop_begin(1), StopStage::Try(WorkerStatus::Running));
    assert_eq!(stop_begin(2), StopStage::Try(WorkerStatus::Running));
    assert_eq!(stop_begin(9), StopStage::Try(WorkerStatus::Running));
    assert_eq!(stop_after(WorkerStatus::Running, Ok(2)), StopStage::Done(true));
    assert_eq!(stop_after(WorkerStatus::Running, Err(1)), StopStage::Try(WorkerStatus::Wait));
    assert_eq!(stop_after(WorkerStatus::Wait, Ok(1)), StopStage::Done(true));
    assert_eq!(stop_after(WorkerStatus::Wait, Err(0)), StopStage::Done(false));
    assert_eq!(stop_after(WorkerStatus::Stop, Err(7)), StopStage::Done(false));
    assert!(exchanged(Ok(1)));
    assert!(!exchanged(Err(1)));
}
