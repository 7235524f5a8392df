use array_lists::array::Array;
use array_lists::array_deque::ArrayDeque;
use array_lists::array_queue::ArrayQueue;
use array_lists::dual_array_deque::DualArrayDeque;
use array_lists::rootish_array_stack::RootishArrayStack;
use array_lists::List;

#[test]
fn out_of_range_is_signalled() {
    let mut array: Array<i32> = Array::new(4);
    array.add(0, 5);
    assert_eq!(array.get(1), None);
    assert_eq!(array.set(1, 9), None);
    assert_eq!(array.remove(1), None);
    assert_eq!(array.get(0), Some(5));

    let mut deq: ArrayDeque<i32> = ArrayDeque::new(4);
    assert_eq!(deq.get(0), None);
    assert_eq!(deq.set(0, 9), None);
    assert_eq!(deq.remove(0), None);
    deq.add(0, 7);
    assert_eq!(deq.get(1), None);

    let mut dual: DualArrayDeque<i32> = DualArrayDeque::new();
    assert_eq!(dual.get(0), None);
    assert_eq!(dual.set(0, 9), None);
    assert_eq!(dual.remove(0), None);

    let mut rootish: RootishArrayStack<i32> = RootishArrayStack::new();
    assert_eq!(rootish.get(0), None);
    assert_eq!(rootish.set(0, 9), None);
    assert_eq!(rootish.remove(0), None);
}

#[test]
fn empty_queue_remove_is_signalled() {
    let mut q: ArrayQueue<u8> = ArrayQueue::new(3);
    assert_eq!(q.remove(), None);
    q.add(1);
    assert_eq!(q.remove(), Some(1));
    assert_eq!(q.remove(), None);
}

#[test]
fn set_then_get_round_trip() {
    let mut array: Array<char> = Array::new(3);
    array.add(0, 'a');
    array.add(1, 'b');
    assert_eq!(array.set(1, 'z'), Some('b'));
    assert_eq!(array.get(1), Some('z'));

    let mut deq: ArrayDeque<char> = ArrayDeque::new(3);
    deq.add(0, 'a');
    deq.add(1, 'b');
    assert_eq!(deq.set(0, 'y'), Some('a'));
    assert_eq!(deq.get(0), Some('y'));

    let mut dual: DualArrayDeque<char> = DualArrayDeque::new();
    dual.add(0, 'a');
    dual.add(0, 'b');
    assert_eq!(dual.set(0, 'x'), Some('b'));
    assert_eq!(dual.get(0), Some('x'));

    let mut rootish: RootishArrayStack<char> = RootishArrayStack::new();
    rootish.add(0, 'a');
    rootish.add(1, 'b');
    assert_eq!(rootish.set(1, 'w'), Some('b'));
    assert_eq!(rootish.get(1), Some('w'));
}

#[test]
fn add_then_get_grows_by_one() {
    let mut array: Array<i32> = Array::new(2);
    for v in 0..5 {
        let at = array.size();
        array.add(at, v);
        assert_eq!(array.get(at), Some(v));
        assert_eq!(array.size(), (v + 1) as usize);
        assert!(array.capacity() >= array.size());
    }
    assert_eq!(array.remove(2), Some(2));
    assert_eq!(array.size(), 4);
}

#[test]
fn long_run_keeps_size_and_order() {
    // a long alternating run: the doubling/halving policy must keep up
    // without ever losing an element or its position
    let mut array: Array<usize> = Array::new(0);
    for v in 0..1000 {
        let at = array.size();
        array.add(at, v);
        assert!(array.capacity() >= array.size());
    }
    assert_eq!(array.size(), 1000);
    for v in 0..1000 {
        assert_eq!(array.get(v), Some(v));
    }
    for v in (0..1000).rev() {
        assert_eq!(array.remove(v), Some(v));
        assert!(array.capacity() >= array.size());
    }
    assert_eq!(array.size(), 0);
}

#[test]
fn deque_wraps_around_the_block() {
    let mut deq: ArrayDeque<usize> = ArrayDeque::new(8);
    // repeated front insertion walks the head offset backwards through the
    // block, wrapping below slot zero
    for v in 0..6 {
        deq.add(0, v);
    }
    for v in 0..6 {
        assert_eq!(deq.get(v), Some(5 - v));
    }
    // removing from the front advances the head; from the back shrinks in place
    assert_eq!(deq.remove(0), Some(5));
    assert_eq!(deq.remove(deq.size() - 1), Some(0));
    assert_eq!(deq.get(0), Some(4));
    // a middle insertion shifts the shorter side
    deq.add(2, 9);
    let collected: Vec<Option<usize>> = (0..deq.size()).map(|i| deq.get(i)).collect();
    assert_eq!(
        collected,
        vec![Some(4), Some(3), Some(9), Some(2), Some(1)]
    );
}

#[test]
fn queue_wraps_around_the_block() {
    let mut q: ArrayQueue<usize> = ArrayQueue::new(4);
    q.add(0);
    q.add(1);
    for v in 2..40 {
        assert_eq!(q.remove(), Some(v - 2));
        q.add(v);
    }
    assert_eq!(q.remove(), Some(38));
    assert_eq!(q.remove(), Some(39));
    assert_eq!(q.remove(), None);
}

#[test]
fn dual_array_deque_balances_both_ends() {
    let mut dual: DualArrayDeque<i32> = DualArrayDeque::new();
    // alternate front and back insertion
    for v in 0..20 {
        if v % 2 == 0 {
            dual.add(0, v);
        } else {
            let at = dual.size();
            dual.add(at, v);
        }
    }
    assert_eq!(dual.size(), 20);
    assert_eq!(dual.size(), dual.front_size() + dual.back_size());
    // front half holds the even values in reverse order of insertion
    assert_eq!(dual.get(0), Some(18));
    assert_eq!(dual.get(9), Some(0));
    assert_eq!(dual.get(10), Some(1));
    assert_eq!(dual.get(19), Some(19));
    assert_eq!(dual.remove(0), Some(18));
    assert_eq!(dual.get(0), Some(16));
}

#[test]
fn rootish_crosses_block_boundaries() {
    let mut rootish: RootishArrayStack<usize> = RootishArrayStack::new();
    for v in 0..100 {
        rootish.add(v, v);
    }
    for v in 0..100 {
        assert_eq!(rootish.get(v), Some(v));
    }
    // removal in the middle shifts across block boundaries
    assert_eq!(rootish.remove(10), Some(10));
    assert_eq!(rootish.get(9), Some(9));
    assert_eq!(rootish.get(10), Some(11));
    assert_eq!(rootish.size(), 99);
    // drain everything; trailing blocks are dropped along the way
    while rootish.remove(0).is_some() {}
    assert_eq!(rootish.size(), 0);
    // the structure stays usable afterwards
    rootish.add(0, 7);
    assert_eq!(rootish.get(0), Some(7));
}

#[test]
fn flat_array_scenario() {
    // start empty with room for ten; two insertions, one removal, and the
    // block shrinks because ten slots cover one element three times over
    let mut array: Array<i32> = Array::new(10);
    array.add(0, -1);
    array.add(1, 1);
    assert_eq!(array.get(0), Some(-1));
    assert_eq!(array.get(1), Some(1));
    assert_eq!(array.size(), 2);
    assert_eq!(array.remove(0), Some(-1));
    assert_eq!(array.get(0), Some(1));
    assert_eq!(array.size(), 1);
    assert!(array.capacity() < 10);
    assert_eq!(array.capacity(), 2);
}
