use array_lists::array_deque::ArrayDeque;
use array_lists::List;

#[test]
fn array_deque_test_array_queue() {
    // initialize & add
    let mut deq: ArrayDeque<char> = ArrayDeque::new(10);
    check_deque_size(&deq, 10, 0);
    for c in "abcdef".chars() {
        deq.add(0, c);
    }
    check_deque_size(&deq, 10, 6);

    // set & get
    deq.set(3, 'c');
    let achieved = deq.get(3);
    let expected = Some('c');
    assert_eq!(achieved, expected);

    // remove
    let achieved = deq.remove(5);
    let expected = Some('a');
    assert_eq!(achieved, expected);
    let achieved = deq.remove(4);
    let expected = Some('b');
    assert_eq!(achieved, expected);
}

fn check_deque_size<T: Copy>(deque: &ArrayDeque<T>, len: usize, n: usize) {
    assert_eq!((deque.capacity(), deque.size()), (len, n));
}
