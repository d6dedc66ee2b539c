use shortest_paths::min_queue::MinQueue;

#[test]
fn a_new_queue_is_empty() {
    let mut q = MinQueue::new();
    assert!(q.is_empty());
    assert_eq!(q.len(), 0);
    assert_eq!(q.pop(), None);
}

#[test]
fn entries_come_out_smallest_first() {
    let mut q = MinQueue::new();
    for e in [(5u32, 1u16), (3, 7), (9, 0), (3, 2), (0, 4), (3, 7)] {
        q.push(e);
    }
    assert_eq!(q.len(), 6);
    assert!(!q.is_empty());
    let mut out = Vec::new();
    while let Some(e) = q.pop() {
        out.push(e);
    }
    assert_eq!(out, vec![(0, 4), (3, 2), (3, 7), (3, 7), (5, 1), (9, 0)]);
    assert!(q.is_empty());
}

#[test]
fn pushes_and_pops_may_alternate() {
    let mut q = MinQueue::new();
    q.push((4, 0));
    q.push((2, 0));
    assert_eq!(q.pop(), Some((2, 0)));
    q.push((1, 9));
    q.push((6, 3));
    assert_eq!(q.pop(), Some((1, 9)));
    assert_eq!(q.pop(), Some((4, 0)));
    q.push((5, 5));
    assert_eq!(q.pop(), Some((5, 5)));
    assert_eq!(q.pop(), Some((6, 3)));
    assert_eq!(q.pop(), None);
}

#[test]
fn many_entries_come_out_sorted() {
    let mut q = MinQueue::new();
    let mut expected = Vec::new();
    let mut state: u64 = 7;
    for _ in 0..500 {
        state = state.wrapping_mul(6364136223846793005).wrapping_add(1442695040888963407);
        let e = (((state >> 33) % 100) as u32, ((state >> 20) % 50) as u16);
        q.push(e);
        expected.push(e);
    }
    expected.sort();
    let mut out = Vec::new();
    while let Some(e) = q.pop() {
        out.push(e);
    }
    assert_eq!(out, expected);
}
