use hash_table::allocator::Allocator;
use hash_table::queue::ArrayQueue;

fn queue_of_range(range: std::ops::Range<usize>) -> ArrayQueue<usize> {
    let mut queue: ArrayQueue<usize> = ArrayQueue::new();
    for i in range {
        queue.push_back(i).expect("failed to alloc");
    }
    queue
}

fn queue_starting_at(
    capacity: usize,
    start: usize,
    range: std::ops::Range<usize>,
) -> ArrayQueue<usize> {
    let mut queue: ArrayQueue<usize> = ArrayQueue::with_capacity(capacity);
    for _ in 0..start {
        queue.push_back(0).expect("failed to alloc");
    }
    for _ in 0..start {
        queue.pop_front().unwrap();
    }
    for i in range {
        queue.push_back(i).expect("failed to alloc");
    }
    queue
}

#[test]
fn lib_queue_new() {
    let alloc = Allocator::unlimited();
    let _queue: ArrayQueue<i32> = ArrayQueue::with_capacity_in(32, alloc).expect("alloc failed");
}

#[test]
fn queue_queue_new() {
    let alloc = Allocator::unlimited();
    let _queue: ArrayQueue<i32> = ArrayQueue::with_capacity_in(32, alloc).expect("alloc failed");
}

#[test]
fn lib_queue_enqueue_dequeue_loop() {
    const STEP: usize = 5;
    let alloc = Allocator::unlimited();
    let mut queue: ArrayQueue<usize> =
        ArrayQueue::with_capacity_in(32, alloc).expect("alloc failed");
    let range = 0..1000;
    let mut items = range.clone().rev().collect::<Vec<usize>>();
    for i in range.step_by(STEP) {
        for i in i..i + STEP {
            queue.push_back(i).expect("failed to alloc");
            assert_eq!(queue.pop_front(), items.pop());
        }
    }
}

#[test]
fn queue_queue_enqueue_dequeue_loop() {
    const STEP: usize = 5;
    let alloc = Allocator::unlimited();
    let mut queue: ArrayQueue<usize> =
        ArrayQueue::with_capacity_in(32, alloc).expect("alloc failed");
    let range = 0..1000;
    let mut items = range.clone().rev().collect::<Vec<usize>>();
    for i in range.step_by(STEP) {
        for i in i..i + STEP {
            queue.push_back(i).expect("failed to alloc");
            assert_eq!(queue.pop_front(), items.pop());
        }
    }
}

#[test]
fn lib_drain() {
    let mut queue = queue_of_range(0..100);
    let mut drain = queue.drain();
    let mut fst_fifty: Vec<usize> = Vec::new();
    for _ in 0..50 {
        fst_fifty.push(drain.next().unwrap());
    }
    drain.restore(&mut queue).expect("alloc failed");
    assert_eq!(fst_fifty, (0..50).collect::<Vec<_>>());
    let snd_fifty: Vec<usize> = queue.to_vec();
    assert_eq!(snd_fifty, (50..100).collect::<Vec<_>>());
}

#[test]
fn queue_drain() {
    let mut queue = queue_of_range(0..100);
    let mut drain = queue.drain();
    let mut fst_fifty: Vec<usize> = Vec::new();
    for _ in 0..50 {
        fst_fifty.push(drain.next().unwrap());
    }
    drain.restore(&mut queue).expect("alloc failed");
    assert_eq!(fst_fifty, (0..50).collect::<Vec<_>>());
    let snd_fifty: Vec<usize> = queue.to_vec();
    assert_eq!(snd_fifty, (50..100).collect::<Vec<_>>());
}

#[test]
fn lib_drain_rev() {
    let mut queue = queue_of_range(0..100);
    let mut drain = queue.drain();
    let mut fst_fifty: Vec<usize> = Vec::new();
    for _ in 0..50 {
        fst_fifty.push(drain.next_back().unwrap());
    }
    drain.restore(&mut queue).expect("alloc failed");
    assert_eq!(fst_fifty, (50..100).rev().collect::<Vec<_>>());
    let snd_fifty: Vec<usize> = queue.to_vec();
    assert_eq!(snd_fifty, (0..50).collect::<Vec<_>>());
}

#[test]
fn queue_drain_rev() {
    let mut queue = queue_of_range(0..100);
    let mut drain = queue.drain();
    let mut fst_fifty: Vec<usize> = Vec::new();
    for _ in 0..50 {
        fst_fifty.push(drain.next_back().unwrap());
    }
    drain.restore(&mut queue).expect("alloc failed");
    assert_eq!(fst_fifty, (50..100).rev().collect::<Vec<_>>());
    let snd_fifty: Vec<usize> = queue.to_vec();
    assert_eq!(snd_fifty, (0..50).collect::<Vec<_>>());
}

#[test]
fn lib_iter() {
    let queue = queue_of_range(0..1000);
    let a = (0..1000).collect::<Vec<_>>();
    let mut b: Vec<usize> = Vec::new();
    let mut iter = queue.iter();
    while let Some(v) = iter.next() {
        b.push(v);
    }
    assert_eq!(a, b);
}

#[test]
fn queue_iter() {
    let queue = queue_of_range(0..1000);
    let a = (0..1000).collect::<Vec<_>>();
    let mut b: Vec<usize> = Vec::new();
    let mut iter = queue.iter();
    while let Some(v) = iter.next() {
        b.push(v);
    }
    assert_eq!(a, b);
}

#[test]
fn lib_iter_rev() {
    let queue = queue_of_range(0..1000);
    let a = (0..1000).rev().collect::<Vec<_>>();
    let mut b: Vec<usize> = Vec::new();
    let mut iter = queue.iter();
    while let Some(v) = iter.next_back() {
        b.push(v);
    }
    assert_eq!(a, b);
}

#[test]
fn queue_iter_rev() {
    let queue = queue_of_range(0..1000);
    let a = (0..1000).rev().collect::<Vec<_>>();
    let mut b: Vec<usize> = Vec::new();
    let mut iter = queue.iter();
    while let Some(v) = iter.next_back() {
        b.push(v);
    }
    assert_eq!(a, b);
}

#[test]
fn lib_into_iter() {
    let queue = queue_of_range(0..1000);
    let a = (0..1000).collect::<Vec<_>>();
    let mut b: Vec<usize> = Vec::new();
    let mut iter = queue.into_iter();
    while let Some(v) = iter.next() {
        b.push(v);
    }
    assert_eq!(a, b);
}

#[test]
fn queue_into_iter() {
    let queue = queue_of_range(0..1000);
    let a = (0..1000).collect::<Vec<_>>();
    let mut b: Vec<usize> = Vec::new();
    let mut iter = queue.into_iter();
    while let Some(v) = iter.next() {
        b.push(v);
    }
    assert_eq!(a, b);
}

#[test]
fn lib_into_iter_rev() {
    let queue = queue_of_range(0..1000);
    let a = (0..1000).rev().collect::<Vec<_>>();
    let mut b: Vec<usize> = Vec::new();
    let mut iter = queue.into_iter();
    while let Some(v) = iter.next_back() {
        b.push(v);
    }
    assert_eq!(a, b);
}

#[test]
fn queue_into_iter_rev() {
    let queue = queue_of_range(0..1000);
    let a = (0..1000).rev().collect::<Vec<_>>();
    let mut b: Vec<usize> = Vec::new();
    let mut iter = queue.into_iter();
    while let Some(v) = iter.next_back() {
        b.push(v);
    }
    assert_eq!(a, b);
}

#[test]
fn lib_iter_mut() {
    let mut queue = queue_of_range(0..1000);
    let a = (0..1000).collect::<Vec<_>>();
    let mut b: Vec<usize> = Vec::new();
    let mut iter = queue.iter_mut();
    while let Some(v) = iter.next() {
        b.push(v);
    }
    assert_eq!(a, b);
}

#[test]
fn queue_iter_mut() {
    let mut queue = queue_of_range(0..1000);
    let a = (0..1000).collect::<Vec<_>>();
    let mut b: Vec<usize> = Vec::new();
    let mut iter = queue.iter_mut();
    while let Some(v) = iter.next() {
        b.push(v);
    }
    assert_eq!(a, b);
}

#[test]
fn lib_iter_mut_rev() {
    let mut queue = queue_of_range(0..1000);
    let a = (0..1000).rev().collect::<Vec<_>>();
    let mut b: Vec<usize> = Vec::new();
    let mut iter = queue.iter_mut();
    while let Some(v) = iter.next_back() {
        b.push(v);
    }
    assert_eq!(a, b);
}

#[test]
fn queue_iter_mut_rev() {
    let mut queue = queue_of_range(0..1000);
    let a = (0..1000).rev().collect::<Vec<_>>();
    let mut b: Vec<usize> = Vec::new();
    let mut iter = queue.iter_mut();
    while let Some(v) = iter.next_back() {
        b.push(v);
    }
    assert_eq!(a, b);
}

#[test]
fn make_contiguous_single() {
    let mut queue: ArrayQueue<usize> = ArrayQueue::with_capacity(50);
    for _ in 0..25 {
        queue.push_back(0).expect("failed to alloc");
    }
    for i in 0..25 {
        queue.push_back(i).expect("failed to alloc");
    }
    for _ in 0..25 {
        queue.pop_front().unwrap();
    }
    queue.make_contiguous();
    for i in 0..25 {
        assert_eq!(i, *queue.get(i).unwrap());
    }
}

#[test]
fn make_contiguous_double() {
    let mut queue = queue_starting_at(20, 10, 0..15);
    queue.make_contiguous();
    for i in 0..15 {
        assert_eq!(i, *queue.get(i).unwrap());
    }
}

#[test]
fn large_extend() {
    let mut queue: ArrayQueue<usize> = ArrayQueue::with_capacity(50);
    for _ in 0..10000 {
        queue.push_back(0).expect("failed to alloc");
    }
    assert_eq!(queue.len(), 10000);
}

#[test]
fn queue_push_front_pop_back() {
    let mut queue: ArrayQueue<i32> = ArrayQueue::with_capacity(32);
    for i in 0..10 {
        queue.push_front(i).expect("failed to alloc");
    }
    for i in 0..10 {
        assert_eq!(queue.pop_back().unwrap(), i);
    }
}

#[test]
fn queue_insert_remove_at_index() {
    let mut queue = queue_of_range(0..10);
    assert_eq!(queue.remove(5), Some(5));
    assert_eq!(queue.to_vec(), vec![0, 1, 2, 3, 4, 6, 7, 8, 9]);
    queue.insert(5, 5).expect("failed to alloc");
    assert_eq!(queue.to_vec(), (0..10).collect::<Vec<_>>());
    assert_eq!(queue.remove(100), None);
}

#[test]
fn queue_budget_exhaustion() {
    let alloc = Allocator::with_budget(4);
    let mut queue: ArrayQueue<i32> = ArrayQueue::with_capacity_in(4, alloc).expect("alloc failed");
    for i in 0..4 {
        queue.push_back(i).expect("failed to alloc");
    }
    // the grown ring would need more units than the budget has left
    assert!(queue.push_back(4).is_err());
    assert_eq!(queue.to_vec(), vec![0, 1, 2, 3]);
}

#[test]
fn queue_mut_accessors() {
    let mut queue = queue_of_range(0..5);
    if let Some(v) = queue.front_mut() {
        *v = 100;
    }
    if let Some(v) = queue.back_mut() {
        *v = 200;
    }
    if let Some(v) = queue.get_mut(2) {
        *v += 1;
    }
    assert_eq!(queue.to_vec(), vec![100, 1, 3, 3, 200]);
    assert!(queue.get_mut(5).is_none());
}
