use task_runtime::async_map::{AsyncMap, JoinBuffer};
use task_runtime::async_value::AsyncValue;
use task_runtime::error::ErrorKind;
use task_runtime::scheduler::{Scheduler, TaskState};
use task_runtime::task_id::TaskId;

#[test]
fn a_value_set_first_is_there_at_the_first_await() {
    let mut value: AsyncValue<&str, bool> = AsyncValue::new("single");
    assert_eq!(*value.home(), "single");
    assert!(!value.is_set());
    assert_eq!(value.set(true), Ok(None));
    assert!(value.is_set());
    assert_eq!(value.poll(TaskId(4)), Some(true));
    assert_eq!(value.waiter(), None);
    assert_eq!(value.poll(TaskId(4)), None);
    assert_eq!(value.waiter(), None);
    assert!(value.is_set());
}

#[test]
fn a_value_awaited_first_wakes_the_waiter() {
    let mut value: AsyncValue<u8, String> = AsyncValue::new(0);
    assert_eq!(value.poll(TaskId(9)), None);
    assert_eq!(value.waiter(), Some(TaskId(9)));
    assert_eq!(value.set(String::from("rt1-17")), Ok(Some(TaskId(9))));
    assert_eq!(value.waiter(), None);
    assert_eq!(value.poll(TaskId(9)), Some(String::from("rt1-17")));
    assert_eq!(value.poll(TaskId(9)), None);
}

#[test]
fn a_value_is_set_once() {
    let mut value: AsyncValue<(), i32> = AsyncValue::new(());
    assert_eq!(value.set(1), Ok(None));
    assert_eq!(value.set(2), Err(ErrorKind::ValueAlreadySet));
    assert_eq!(value.poll(TaskId(0)), Some(1));
    assert_eq!(value.set(3), Err(ErrorKind::ValueAlreadySet));
    assert_eq!(value.poll(TaskId(0)), None);
}

#[test]
fn in_a_race_only_the_first_offer_counts() {
    let mut value: AsyncValue<(), &str> = AsyncValue::new(());
    assert_eq!(value.poll(TaskId(2)), None);
    assert_eq!(value.offer("rt0-12"), Some(TaskId(2)));
    assert_eq!(value.offer("rt1-900"), None);
    assert_eq!(value.poll(TaskId(2)), Some("rt0-12"));
    assert_eq!(value.offer("late"), None);
    assert_eq!(value.poll(TaskId(2)), None);
}

#[test]
fn the_latest_await_is_the_one_to_wake() {
    let mut value: AsyncValue<(), i32> = AsyncValue::new(());
    assert_eq!(value.poll(TaskId(1)), None);
    assert_eq!(value.poll(TaskId(2)), None);
    assert_eq!(value.waiter(), Some(TaskId(2)));
    assert_eq!(value.set(5), Ok(Some(TaskId(2))));
}

#[test]
fn a_consumer_parks_until_a_producer_on_another_runtime_sets() {
    let mut single = Scheduler::new();
    let mut multi = Scheduler::new();
    let mut value: AsyncValue<usize, bool> = AsyncValue::new(0);
    let consumer = single.allocate().unwrap();
    let producer = multi.allocate().unwrap();
    assert_eq!(single.spawn(consumer), Ok(()));
    assert_eq!(multi.spawn(producer), Ok(()));

    assert_eq!(single.next_ready(), Some(consumer));
    assert_eq!(value.poll(consumer), None);
    assert!(single.after_poll(consumer, false));
    assert_eq!(single.next_ready(), None);

    assert_eq!(multi.next_ready(), Some(producer));
    let wake = value.set(true).unwrap();
    assert_eq!(wake, Some(consumer));
    assert!(single.wakeup(wake.unwrap()));
    assert!(multi.after_poll(producer, true));

    assert_eq!(single.next_ready(), Some(consumer));
    assert_eq!(value.poll(consumer), Some(true));
    assert!(single.after_poll(consumer, true));
    assert_eq!(value.poll(consumer), None);
    assert_eq!(single.alive() + multi.alive(), 0);
}

#[test]
fn a_nested_wait_suspends_each_caller_until_the_inner_one_is_done() {
    let mut runtimes = vec![Scheduler::new(), Scheduler::new(), Scheduler::new()];
    let outer = runtimes[0].allocate().unwrap();
    assert_eq!(runtimes[0].spawn(outer), Ok(()));
    assert_eq!(runtimes[0].next_ready(), Some(outer));

    let mut to_a: AsyncValue<usize, Result<bool, ErrorKind>> = AsyncValue::new(0);
    let on_a = runtimes[1].allocate().unwrap();
    assert_eq!(runtimes[1].spawn(on_a), Ok(()));
    assert_eq!(to_a.poll(outer), None);
    assert!(runtimes[0].after_poll(outer, false));
    assert_eq!(runtimes[0].next_ready(), None);

    let mut to_b: AsyncValue<usize, Result<bool, ErrorKind>> = AsyncValue::new(1);
    assert_eq!(runtimes[1].next_ready(), Some(on_a));
    let on_b = runtimes[2].allocate().unwrap();
    assert_eq!(runtimes[2].spawn(on_b), Ok(()));
    assert_eq!(to_b.poll(on_a), None);
    assert!(runtimes[1].after_poll(on_a, false));

    let mut to_single: AsyncValue<usize, Result<bool, ErrorKind>> = AsyncValue::new(2);
    assert_eq!(runtimes[2].next_ready(), Some(on_b));
    let innermost = runtimes[0].allocate().unwrap();
    assert_eq!(runtimes[0].spawn(innermost), Ok(()));
    assert_eq!(to_single.poll(on_b), None);
    assert!(runtimes[2].after_poll(on_b, false));

    assert_eq!(runtimes[0].next_ready(), Some(innermost));
    assert_eq!(runtimes[0].state(outer), Some(TaskState::Parked));
    let wake = to_single.set(Ok(true)).unwrap().unwrap();
    assert!(runtimes[*to_single.home()].wakeup(wake));
    assert!(runtimes[0].after_poll(innermost, true));

    assert_eq!(runtimes[2].next_ready(), Some(on_b));
    let inner = to_single.poll(on_b).unwrap();
    let wake = to_b.set(inner).unwrap().unwrap();
    assert!(runtimes[*to_b.home()].wakeup(wake));
    assert!(runtimes[2].after_poll(on_b, true));

    assert_eq!(runtimes[1].next_ready(), Some(on_a));
    let middle = to_b.poll(on_a).unwrap();
    let wake = to_a.set(middle).unwrap().unwrap();
    assert!(runtimes[*to_a.home()].wakeup(wake));
    assert!(runtimes[1].after_poll(on_a, true));

    assert_eq!(runtimes[0].next_ready(), Some(outer));
    assert_eq!(to_a.poll(outer), Some(Ok(true)));
    assert!(runtimes[0].after_poll(outer, true));
    assert!(runtimes.iter().all(|rt| rt.alive() == 0));
}

#[test]
fn an_ordered_join_yields_the_order_of_submission() {
    let mut map: AsyncMap<usize, i32> = AsyncMap::new();
    for k in 0..10 {
        map.join(k % 2, k as i32);
    }
    assert_eq!(map.len(), 10);
    let started: (Vec<(usize, i32)>, JoinBuffer<i32>) = map.map(true);
    let (submissions, mut buffer) = started;
    assert_eq!(submissions.len(), 10);
    assert_eq!(submissions[3], (1, 3));
    let arrival = [7usize, 2, 9, 0, 4, 1, 8, 3, 6, 5];
    for (count, index) in arrival.iter().enumerate() {
        assert!(!buffer.is_resolved());
        let last = buffer.complete(*index, Ok(submissions[*index].1));
        assert_eq!(last, count == 9);
    }
    assert!(buffer.is_resolved());
    assert_eq!(buffer.take(), Some(Ok(vec![0, 1, 2, 3, 4, 5, 6, 7, 8, 9])));
}

#[test]
fn an_unordered_join_yields_the_order_of_arrival() {
    let mut buffer: JoinBuffer<i32> = JoinBuffer::new(10, false);
    let arrival = [7usize, 2, 9, 0, 4, 1, 8, 3, 6, 5];
    for index in arrival {
        buffer.complete(index, Ok(index as i32));
    }
    assert_eq!(buffer.take(), Some(Ok(vec![7, 2, 9, 0, 4, 1, 8, 3, 6, 5])));
}

#[test]
fn a_join_resolves_when_every_submission_has() {
    let mut buffer: JoinBuffer<&str> = JoinBuffer::new(3, true);
    assert!(!buffer.complete(1, Ok("b")));
    assert!(!buffer.complete(1, Ok("again")));
    assert!(!buffer.complete(3, Ok("nobody")));
    assert!(!buffer.complete(0, Ok("a")));
    assert!(!buffer.is_resolved());
    assert!(buffer.complete(2, Ok("c")));
    assert!(!buffer.complete(2, Ok("late")));
    assert!(buffer.is_resolved());
    assert_eq!(buffer.take(), Some(Ok(vec!["a", "b", "c"])));

    let mut open: JoinBuffer<&str> = JoinBuffer::new(2, true);
    assert!(!open.complete(0, Ok("a")));
    assert_eq!(open.take(), None);

    let empty: JoinBuffer<i32> = JoinBuffer::new(0, false);
    assert!(empty.is_resolved());
    assert_eq!(empty.take(), Some(Ok(vec![])));
}

#[test]
fn a_join_fails_with_the_first_failure_that_arrived() {
    let mut buffer: JoinBuffer<i32> = JoinBuffer::new(4, true);
    assert!(!buffer.complete(3, Ok(3)));
    assert!(!buffer.complete(2, Err(ErrorKind::WaitFailed(String::from("second")))));
    assert!(!buffer.complete(0, Err(ErrorKind::TaskMissing)));
    assert_eq!(buffer.is_resolved(), false);
    assert!(buffer.complete(1, Ok(1)));
    assert_eq!(buffer.take(), Some(Err(ErrorKind::WaitFailed(String::from("second")))));
}
