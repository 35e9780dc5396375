use task_runtime::index_slotmap::IndexEntry;
use task_runtime::task_id::{IdAllocator, TaskId};

#[test]
fn ids_count_up_and_come_back() {
    let mut ids = IdAllocator::new();
    assert_eq!(ids.allocate(), Some(TaskId(0)));
    assert_eq!(ids.allocate(), Some(TaskId(1)));
    assert_eq!(ids.allocate(), Some(TaskId(2)));
    assert!(ids.is_live(TaskId(1)));
    assert!(ids.free(TaskId(1)));
    assert!(!ids.is_live(TaskId(1)));
    assert!(ids.free(TaskId(0)));
    assert_eq!(ids.allocate(), Some(TaskId(0)));
    assert_eq!(ids.allocate(), Some(TaskId(1)));
    assert_eq!(ids.allocate(), Some(TaskId(3)));
}

#[test]
fn only_live_ids_are_taken_back() {
    let mut ids = IdAllocator::new();
    assert!(!ids.free(TaskId(0)));
    assert!(!ids.is_live(TaskId(0)));
    let id = ids.allocate().unwrap();
    assert!(ids.free(id));
    assert!(!ids.free(id));
    assert!(!ids.free(TaskId(99)));
    assert_eq!(ids.allocate(), Some(id));
    assert_eq!(ids.allocate(), Some(TaskId(1)));
}

#[test]
fn no_two_live_ids_are_equal() {
    let mut ids = IdAllocator::new();
    let mut live: Vec<TaskId> = Vec::new();
    for round in 0..200u64 {
        if round % 3 == 2 {
            let id = live.remove((round as usize * 7) % live.len());
            assert!(ids.free(id));
        } else {
            let id = ids.allocate().unwrap();
            assert!(!live.contains(&id));
            live.push(id);
        }
        for id in &live {
            assert!(ids.is_live(*id));
        }
    }
}

#[test]
fn an_entry_clones_place_and_value() {
    let entry = IndexEntry { index: 3, value: String::from("timer") };
    let copy = entry.clone();
    assert_eq!(copy.index, 3);
    assert_eq!(copy.value, "timer");
    assert_eq!(entry.index, 3);
}
