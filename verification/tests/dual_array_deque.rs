use array_lists::dual_array_deque::DualArrayDeque;
use array_lists::List;

#[test]
fn test_array_stack() {
    // initialized array has no elements
    let mut deque: DualArrayDeque<i32> = DualArrayDeque::new();
    check_arr_size(&deque, 0, 0, 0);

    // adding elements just increase n
    deque.add(0, 1);
    deque.add(1, 2);
    deque.add(2, 3);
    deque.add(3, 4);
    for i in 0..4 {
        let achieved = deque.get(i);
        let expected = match i {
            0 => Some(1),
            1 => Some(2),
            2 => Some(3),
            3 => Some(4),
            _ => None,
        };
        assert_eq!(achieved, expected)
    }

    // removing
    for i in 0..2 {
        let achieved = deque.get(i);
        let expected = match i {
            0 => Some(1),
            1 => Some(2),
            _ => None,
        };
        assert_eq!(achieved, expected)
    }

    // setting
    let achieved = deque.set(2, 7);
    let expected = Some(3);
    assert_eq!(achieved, expected);
    let achieved = deque.get(2);
    let expected = Some(7);
    assert_eq!(achieved, expected);
}

fn check_arr_size<T: Copy>(deque: &DualArrayDeque<T>, l: usize, m: usize, n: usize) {
    assert_eq!(
        (deque.size(), deque.front_size(), deque.back_size()),
        (l, m, n)
    );
}
