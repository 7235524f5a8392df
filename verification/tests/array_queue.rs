use array_lists::array_queue::ArrayQueue;

#[test]
fn array_queue_test_array_queue() {
    // initialize
    let mut q: ArrayQueue<i32> = ArrayQueue::new(10);
    check_queue_size(&q, 10, 0);
    // add and remove
    q.add(-1);
    q.add(1);
    for elem in [-1, 1].iter() {
        assert_eq!(q.remove(), Some(*elem));
    }
    check_queue_size(&q, 1, 0);
}

fn check_queue_size<T>(queue: &ArrayQueue<T>, len: usize, n: usize) {
    assert_eq!((queue.capacity(), queue.size()), (len, n));
}
