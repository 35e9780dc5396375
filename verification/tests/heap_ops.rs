use std::cmp::Ordering;
use std::cmp::Reverse;
use task_runtime::ext_heap::ExtHeap;

fn is_heap(s: &[i32]) -> bool {
    (1..s.len()).all(|i| s[(i - 1) / 2] >= s[i])
}

#[test]
fn push_then_pop_yields_greatest_first() {
    let mut heap = ExtHeap::new();
    let mut quiet = |_: &mut [i32], _: usize| {};
    assert_eq!(heap.peek(), None);
    heap.push(1, &mut quiet);
    heap.push(5, &mut quiet);
    heap.push(2, &mut quiet);
    assert_eq!(heap.len(), 3);
    assert_eq!(heap.peek(), Some(&5));
    assert_eq!(heap.pop(&mut quiet), Some(5));
    assert_eq!(heap.pop(&mut quiet), Some(2));
    assert_eq!(heap.pop(&mut quiet), Some(1));
    assert_eq!(heap.pop(&mut quiet), None);
    assert!(heap.is_empty());
}

#[test]
fn push_reports_every_element_that_came_to_rest() {
    let mut heap = ExtHeap::new();
    let mut log: Vec<(i32, usize)> = Vec::new();
    heap.push(1, &mut |s: &mut [i32], i: usize| log.push((s[i], i)));
    heap.push(5, &mut |s: &mut [i32], i: usize| log.push((s[i], i)));
    heap.push(2, &mut |s: &mut [i32], i: usize| log.push((s[i], i)));
    assert_eq!(heap.as_slice(), &[5, 1, 2]);
    assert_eq!(log, vec![(1, 0), (1, 1), (5, 0), (2, 2)]);
}

#[test]
fn pop_reports_along_the_way_down_and_back_up() {
    let mut heap = ExtHeap::from(vec![9, 8, 7, 1, 2, 6, 5]);
    assert_eq!(heap.as_slice(), &[9, 8, 7, 1, 2, 6, 5]);
    let mut log: Vec<(i32, usize)> = Vec::new();
    let top = heap.pop(&mut |s: &mut [i32], i: usize| log.push((s[i], i)));
    assert_eq!(top, Some(9));
    assert_eq!(heap.as_slice(), &[8, 5, 7, 1, 2, 6]);
    assert_eq!(log, vec![(8, 0), (2, 1), (2, 4), (5, 1)]);
}

#[test]
fn pop_of_two_and_of_one() {
    let mut heap = ExtHeap::from(vec![3, 2, 1]);
    let mut log: Vec<(i32, usize)> = Vec::new();
    assert_eq!(heap.pop(&mut |s: &mut [i32], i: usize| log.push((s[i], i))), Some(3));
    assert_eq!(heap.as_slice(), &[2, 1]);
    assert_eq!(log, vec![(2, 0), (1, 1)]);
    log.clear();
    assert_eq!(heap.pop(&mut |s: &mut [i32], i: usize| log.push((s[i], i))), Some(2));
    assert_eq!(heap.as_slice(), &[1]);
    assert_eq!(log, vec![(1, 0)]);
    log.clear();
    assert_eq!(heap.pop(&mut |s: &mut [i32], i: usize| log.push((s[i], i))), Some(1));
    assert!(log.is_empty());
    assert_eq!(heap.pop(&mut |s: &mut [i32], i: usize| log.push((s[i], i))), None);
    assert!(log.is_empty());
}

#[test]
fn remove_restores_the_order_above_the_slot() {
    let mut heap = ExtHeap::from(vec![10, 3, 9, 1, 2, 8, 7]);
    assert_eq!(heap.as_slice(), &[10, 3, 9, 1, 2, 8, 7]);
    let mut log: Vec<(i32, usize)> = Vec::new();
    let item = heap.remove(3, &mut |s: &mut [i32], i: usize| log.push((s[i], i)));
    assert_eq!(item, 1);
    assert_eq!(heap.as_slice(), &[10, 7, 9, 3, 2, 8]);
    assert!(is_heap(heap.as_slice()));
    assert_eq!(log, vec![(3, 3), (7, 1)]);
}

#[test]
fn remove_of_the_last_slot_moves_nothing() {
    let mut heap = ExtHeap::from(vec![3, 2, 1]);
    let mut log: Vec<(i32, usize)> = Vec::new();
    let item = heap.remove(2, &mut |s: &mut [i32], i: usize| log.push((s[i], i)));
    assert_eq!(item, 1);
    assert_eq!(heap.as_slice(), &[3, 2]);
    assert!(log.is_empty());
}

#[test]
fn remove_of_the_root_is_pop() {
    let mut heap = ExtHeap::from(vec![1, 3, 4]);
    let mut quiet = |_: &mut [i32], _: usize| {};
    assert_eq!(heap.remove(0, &mut quiet), 4);
    assert_eq!(heap.remove(0, &mut quiet), 3);
    assert_eq!(heap.pop(&mut quiet), Some(1));
    assert_eq!(heap.pop(&mut quiet), None);
}

#[test]
fn modify_greater_sifts_towards_the_root() {
    let mut heap = ExtHeap::from(vec![10, 7, 9, 3, 2, 8]);
    let mut log: Vec<(i32, usize)> = Vec::new();
    heap.modify(
        3,
        &mut |e: &mut i32| {
            *e = 20;
            Ordering::Greater
        },
        &mut |s: &mut [i32], i: usize| log.push((s[i], i)),
    );
    assert_eq!(heap.as_slice(), &[20, 10, 9, 7, 2, 8]);
    assert_eq!(log, vec![(7, 3), (10, 1), (20, 0)]);
}

#[test]
fn modify_less_sifts_away_from_the_root() {
    let mut heap = ExtHeap::from(vec![20, 10, 9, 7, 2, 8]);
    let mut log: Vec<(i32, usize)> = Vec::new();
    heap.modify(
        0,
        &mut |e: &mut i32| {
            *e = 1;
            Ordering::Less
        },
        &mut |s: &mut [i32], i: usize| log.push((s[i], i)),
    );
    assert_eq!(heap.as_slice(), &[10, 7, 9, 1, 2, 8]);
    assert_eq!(log, vec![(10, 0), (7, 1), (1, 3)]);
}

#[test]
fn modify_equal_moves_nothing() {
    let mut heap = ExtHeap::from(vec![(5, 'a'), (3, 'b'), (4, 'c')]);
    let mut calls = 0usize;
    heap.modify(
        1,
        &mut |e: &mut (i32, char)| {
            e.0 = 3;
            Ordering::Equal
        },
        &mut |_: &mut [(i32, char)], _: usize| calls += 1,
    );
    assert_eq!(heap.as_slice(), &[(5, 'a'), (3, 'b'), (4, 'c')]);
    assert_eq!(calls, 0);
}

#[test]
fn modify_at_the_ends_skips_the_sift() {
    let mut heap = ExtHeap::from(vec![10, 7, 9]);
    let mut calls = 0usize;
    heap.modify(
        0,
        &mut |e: &mut i32| {
            *e = 11;
            Ordering::Greater
        },
        &mut |_: &mut [i32], _: usize| calls += 1,
    );
    assert_eq!(heap.as_slice(), &[11, 7, 9]);
    assert_eq!(calls, 0);
    heap.modify(
        2,
        &mut |e: &mut i32| {
            *e = 1;
            Ordering::Less
        },
        &mut |_: &mut [i32], _: usize| calls += 1,
    );
    assert_eq!(heap.as_slice(), &[11, 7, 1]);
    assert_eq!(calls, 0);
}

#[test]
fn into_sorted_vec_is_ascending() {
    let mut heap = ExtHeap::from(vec![1, 2, 4, 5, 7]);
    let mut quiet = |_: &mut [i32], _: usize| {};
    heap.push(6, &mut quiet);
    heap.push(3, &mut quiet);
    assert_eq!(heap.into_sorted_vec(), vec![1, 2, 3, 4, 5, 6, 7]);
    let empty: ExtHeap<i32> = ExtHeap::new();
    assert_eq!(empty.into_sorted_vec(), Vec::<i32>::new());
    assert_eq!(ExtHeap::from(vec![4]).into_sorted_vec(), vec![4]);
    assert_eq!(ExtHeap::from(vec![2, 2, 1, 2]).into_sorted_vec(), vec![1, 2, 2, 2]);
}

#[test]
fn from_makes_a_heap_in_place() {
    let heap = ExtHeap::from(vec![1, 2, 3, 4, 5]);
    assert_eq!(heap.as_slice(), &[5, 4, 3, 1, 2]);
    assert!(is_heap(heap.as_slice()));
    assert_eq!(heap.len(), 5);
}

#[test]
fn append_drains_the_other_heap() {
    let mut a = ExtHeap::from(vec![-10, 1, 2, 3, 3]);
    let mut b = ExtHeap::from(vec![-20, 5, 43]);
    let mut quiet = |_: &mut [i32], _: usize| {};
    a.append(&mut b, &mut quiet);
    assert!(is_heap(a.as_slice()));
    assert_eq!(a.into_sorted_vec(), vec![-20, -10, 1, 2, 3, 3, 5, 43]);
    assert!(b.is_empty());
}

#[test]
fn append_to_the_shorter_heap_starts_from_the_longer() {
    let mut a = ExtHeap::from(vec![100]);
    let mut b = ExtHeap::from(vec![9, 8, 7]);
    let mut log: Vec<(i32, usize)> = Vec::new();
    a.append(&mut b, &mut |s: &mut [i32], i: usize| log.push((s[i], i)));
    assert!(b.is_empty());
    assert_eq!(a.as_slice(), &[100, 9, 7, 8]);
    assert_eq!(log, vec![(9, 0), (8, 1), (7, 2), (100, 3), (8, 3), (9, 1), (100, 0)]);
    let mut mirror = vec![100];
    for (e, i) in log {
        if i == mirror.len() {
            mirror.push(e);
        } else {
            mirror[i] = e;
        }
    }
    assert_eq!(mirror, a.as_slice());
}

#[test]
fn append_reports_every_element_taken_over() {
    let mut a = ExtHeap::from(vec![9, 8, 7]);
    let mut b = ExtHeap::from(vec![1, 10]);
    assert_eq!(b.as_slice(), &[10, 1]);
    let mut log: Vec<(i32, usize)> = Vec::new();
    a.append(&mut b, &mut |s: &mut [i32], i: usize| log.push((s[i], i)));
    assert_eq!(a.as_slice(), &[10, 9, 7, 8, 1]);
    assert_eq!(log, vec![(10, 3), (1, 4), (8, 3), (9, 1), (10, 0), (1, 4)]);
    let mut mirror = vec![9, 8, 7];
    for (e, i) in log {
        if i == mirror.len() {
            mirror.push(e);
        } else {
            mirror[i] = e;
        }
    }
    assert_eq!(mirror, a.as_slice());
    let mut calls = 0usize;
    a.append(&mut b, &mut |_: &mut [i32], _: usize| calls += 1);
    assert_eq!(a.as_slice(), &[10, 9, 7, 8, 1]);
    assert_eq!(calls, 0);
}

#[test]
fn retain_keeps_what_the_predicate_accepts() {
    let mut heap = ExtHeap::from(vec![-10, -5, 1, 2, 4, 13]);
    let mut quiet = |_: &mut [i32], _: usize| {};
    heap.retain(|x| x % 2 == 0, &mut quiet);
    assert!(is_heap(heap.as_slice()));
    assert_eq!(heap.into_sorted_vec(), vec![-10, 2, 4]);
}

#[test]
fn retain_of_everything_and_of_nothing() {
    let mut heap = ExtHeap::from(vec![5, 4, 3, 1, 2]);
    let mut calls = 0usize;
    heap.retain(|_| true, &mut |_: &mut [i32], _: usize| calls += 1);
    assert_eq!(heap.as_slice(), &[5, 4, 3, 1, 2]);
    assert_eq!(calls, 0);
    heap.retain(|_| false, &mut |_: &mut [i32], _: usize| calls += 1);
    assert!(heap.is_empty());
    assert_eq!(calls, 0);
}

#[test]
fn retain_reports_against_the_thinned_layout() {
    let mut heap = ExtHeap::from(vec![9, 8, 7, 1, 2, 6, 5]);
    let mut log: Vec<(i32, usize)> = Vec::new();
    heap.retain(|x| *x != 9, &mut |s: &mut [i32], i: usize| log.push((s[i], i)));
    assert!(log.len() >= 6);
    assert_eq!(&log[..6], &[(8, 0), (7, 1), (1, 2), (2, 3), (6, 4), (5, 5)]);
    let mut mirror = vec![9, 8, 7, 1, 2, 6, 5];
    for (e, i) in log {
        mirror[i] = e;
    }
    mirror.truncate(heap.len());
    assert_eq!(mirror, heap.as_slice());
    assert!(is_heap(heap.as_slice()));
    assert_eq!(heap.into_sorted_vec(), vec![1, 2, 5, 6, 7, 8]);
}

#[test]
fn retain_reports_the_survivors_that_slid() {
    let mut heap = ExtHeap::from(vec![9, 8, 7, 1, 2, 6, 5]);
    let mut log: Vec<(i32, usize)> = Vec::new();
    heap.retain(|x| *x != 2, &mut |s: &mut [i32], i: usize| log.push((s[i], i)));
    assert_eq!(heap.as_slice(), &[9, 8, 7, 1, 6, 5]);
    assert_eq!(log, vec![(6, 4), (5, 5), (6, 4), (5, 5)]);
}

#[test]
fn a_small_tail_is_sifted_up_and_a_large_one_rebuilt() {
    let big: Vec<i32> = (0..1024).map(|i| 100_000 - i).collect();
    let small = |n: i32| -> Vec<i32> { (0..n).map(|i| 1000 - i).collect() };

    let mut heap = ExtHeap::from(big.clone());
    let mut tail = ExtHeap::from(small(256));
    let mut calls = 0usize;
    heap.append(&mut tail, &mut |_: &mut [i32], _: usize| calls += 1);
    assert_eq!(calls, 256 + 256);
    assert!(is_heap(heap.as_slice()));

    let mut heap = ExtHeap::from(big);
    let mut tail = ExtHeap::from(small(257));
    let mut calls = 0usize;
    heap.append(&mut tail, &mut |_: &mut [i32], _: usize| calls += 1);
    assert_eq!(calls, 257 + 1281 / 2);
    assert!(is_heap(heap.as_slice()));
}

#[test]
fn a_large_heap_takes_the_measured_crossover() {
    let big: Vec<i32> = (0..4500).map(|i| 100_000 - i).collect();
    let small = |n: i32| -> Vec<i32> { (0..n).map(|i| 2000 - i).collect() };

    let mut heap = ExtHeap::from(big.clone());
    let mut tail = ExtHeap::from(small(1000));
    let mut calls = 0usize;
    heap.append(&mut tail, &mut |_: &mut [i32], _: usize| calls += 1);
    assert_eq!(calls, 1000 + 1000);
    assert!(is_heap(heap.as_slice()));

    let mut heap = ExtHeap::from(big);
    let mut tail = ExtHeap::from(small(1001));
    let mut calls = 0usize;
    heap.append(&mut tail, &mut |_: &mut [i32], _: usize| calls += 1);
    assert_eq!(calls, 1001 + 5501 / 2);
    assert!(is_heap(heap.as_slice()));
}

#[test]
fn every_operation_keeps_heap_order_and_the_mirror() {
    let mut heap: ExtHeap<i32> = ExtHeap::new();
    let mut mirror: Vec<i32> = Vec::new();
    let mut seed: u64 = 0x2545_F491_4F6C_DD1D;
    let mut next = move || {
        seed ^= seed << 13;
        seed ^= seed >> 7;
        seed ^= seed << 17;
        seed
    };
    for round in 0..2000 {
        let roll = next() % 10;
        let value = (next() % 1000) as i32;
        let mut log: Vec<(i32, usize)> = Vec::new();
        if roll < 5 || heap.is_empty() {
            heap.push(value, &mut |s: &mut [i32], i: usize| log.push((s[i], i)));
        } else if roll < 7 {
            let top = heap.pop(&mut |s: &mut [i32], i: usize| log.push((s[i], i)));
            assert_eq!(top, mirror.iter().copied().max());
            mirror.pop();
        } else if roll < 9 {
            let index = (next() as usize) % heap.len();
            let item = heap.remove(index, &mut |s: &mut [i32], i: usize| log.push((s[i], i)));
            assert_eq!(item, mirror[index]);
            mirror.pop();
        } else {
            let index = (next() as usize) % heap.len();
            let old = mirror[index];
            mirror[index] = value;
            heap.modify(
                index,
                &mut |e: &mut i32| {
                    *e = value;
                    value.cmp(&old)
                },
                &mut |s: &mut [i32], i: usize| log.push((s[i], i)),
            );
        }
        for (e, i) in log {
            if i == mirror.len() {
                mirror.push(e);
            } else {
                mirror[i] = e;
            }
        }
        assert_eq!(mirror, heap.as_slice(), "round {}", round);
        assert!(is_heap(heap.as_slice()), "round {}", round);
    }
}

#[test]
fn capacity_is_never_less_than_the_length() {
    let mut heap: ExtHeap<i32> = ExtHeap::with_capacity(100);
    assert!(heap.capacity() >= 100);
    assert!(heap.is_empty());
    let mut quiet = |_: &mut [i32], _: usize| {};
    heap.push(4, &mut quiet);
    assert!(heap.capacity() >= heap.len());
    heap.shrink_to(10);
    assert!(heap.capacity() >= 10);
    assert!(heap.capacity() < 100);
    assert_eq!(heap.as_slice(), &[4]);
    heap.shrink_to_fit();
    assert!(heap.capacity() >= 1);
    assert!(heap.capacity() < 10);
    assert_eq!(heap.as_slice(), &[4]);
    heap.reserve(100);
    assert!(heap.capacity() >= 101);
    assert_eq!(heap.as_slice(), &[4]);
    let mut other: ExtHeap<i32> = ExtHeap::new();
    other.reserve_exact(100);
    assert!(other.capacity() >= 100);
    other.extend_reserve(200);
    assert!(other.capacity() >= 200);
    assert!(other.is_empty());
}

#[test]
fn clear_and_drain_leave_the_heap_empty() {
    let mut heap = ExtHeap::from(vec![1, 3]);
    assert!(!heap.is_empty());
    let mut drained = heap.drain();
    assert_eq!(drained.size_hint(), (2, Some(2)));
    assert_eq!(drained.next(), Some(3));
    assert_eq!(drained.next_back(), Some(1));
    assert!(drained.is_empty());
    assert_eq!(drained.next(), None);
    assert!(heap.is_empty());
    let mut heap = ExtHeap::from(vec![1, 3]);
    heap.clear();
    assert!(heap.is_empty());
    assert_eq!(heap.len(), 0);
}

#[test]
fn iter_walks_the_slots() {
    let heap = ExtHeap::from(vec![1, 2, 3, 4]);
    assert_eq!(heap.as_slice(), &[4, 2, 3, 1]);
    let mut it = heap.iter();
    assert_eq!(it.size_hint(), (4, Some(4)));
    assert!(!it.is_empty());
    assert_eq!(it.next(), Some(&4));
    assert_eq!(it.next_back(), Some(&1));
    assert_eq!(it.next(), Some(&2));
    assert_eq!(it.size_hint(), (1, Some(1)));
    assert_eq!(it.last(), Some(&3));
    let mut it = heap.iter();
    while let Some(_) = it.next() {}
    assert!(it.is_empty());
    assert_eq!(it.next_back(), None);
    assert_eq!(heap.iter().last(), Some(&1));
}

#[test]
fn into_iter_hands_out_the_elements_by_slot() {
    let heap = ExtHeap::from(vec![1, 2, 3, 4]);
    let mut it = heap.into_iter();
    assert_eq!(it.size_hint(), (4, Some(4)));
    assert_eq!(it.next(), Some(4));
    assert_eq!(it.next_back(), Some(1));
    assert_eq!(it.next(), Some(2));
    assert_eq!(it.next(), Some(3));
    assert!(it.is_empty());
    assert_eq!(it.next(), None);
    assert_eq!(it.next_back(), None);
}

#[test]
fn sorted_iterators_yield_the_greatest_first() {
    let heap = ExtHeap::from(vec![1, 2, 3, 4, 5]);
    let mut it = heap.into_iter_sorted();
    assert_eq!(it.size_hint(), (5, Some(5)));
    assert_eq!(it.next(), Some(5));
    assert_eq!(it.next(), Some(4));
    assert_eq!(it.size_hint(), (3, Some(3)));

    let mut heap = ExtHeap::from(vec![1, 2, 3, 4, 5]);
    assert_eq!(heap.len(), 5);
    let mut drain = heap.drain_sorted();
    assert_eq!(drain.size_hint(), (5, Some(5)));
    let mut seen = Vec::new();
    while let Some(x) = drain.next() {
        seen.push(x);
    }
    assert_eq!(seen, vec![5, 4, 3, 2, 1]);
    assert_eq!(heap.len(), 0);
}

#[test]
fn extend_adds_every_item() {
    let mut heap = ExtHeap::from(vec![5, 1]);
    heap.extend(vec![7, 3, 9].into_iter());
    assert!(is_heap(heap.as_slice()));
    assert_eq!(heap.len(), 5);
    heap.extend_one(8);
    let mut log: Vec<(i32, usize)> = Vec::new();
    heap.extend_desugared(vec![10, 0].into_iter(), &mut |s: &mut [i32], i: usize| {
        log.push((s[i], i))
    });
    assert_eq!(log.last(), Some(&(0, 7)));
    assert_eq!(heap.peek(), Some(&10));
    assert_eq!(heap.into_sorted_vec(), vec![0, 1, 3, 5, 7, 8, 9, 10]);
    let collected = ExtHeap::from_iter(vec![2, 9, 4].into_iter());
    assert_eq!(collected.as_slice(), &[9, 2, 4]);
}

#[test]
fn default_is_empty_and_clone_is_equal() {
    let heap: ExtHeap<i32> = ExtHeap::default();
    assert!(heap.is_empty());
    let heap = ExtHeap::from(vec![3, 1, 2]);
    let copy = heap.clone();
    assert_eq!(copy.as_slice(), heap.as_slice());
    assert_eq!(copy.into_vec(), vec![3, 1, 2]);
}

#[test]
fn a_heap_turns_into_the_vector_of_its_slots() {
    let heap = ExtHeap::from(vec![1, 2, 3, 4, 5, 6, 7]);
    let by_method = heap.clone().into_vec();
    let by_trait: Vec<i32> = heap.into();
    assert_eq!(by_method, vec![7, 5, 6, 4, 2, 1, 3]);
    assert_eq!(by_trait, by_method);
    assert_eq!(Vec::from(ExtHeap::<i32>::new()), Vec::<i32>::new());
}

#[test]
fn a_min_heap_by_reversed_order() {
    let mut heap = ExtHeap::new();
    let mut quiet = |_: &mut [Reverse<i32>], _: usize| {};
    heap.push(Reverse(1), &mut quiet);
    heap.push(Reverse(5), &mut quiet);
    heap.push(Reverse(2), &mut quiet);
    assert_eq!(heap.pop(&mut quiet), Some(Reverse(1)));
    assert_eq!(heap.pop(&mut quiet), Some(Reverse(2)));
    assert_eq!(heap.pop(&mut quiet), Some(Reverse(5)));
    assert_eq!(heap.pop(&mut quiet), None);
}
