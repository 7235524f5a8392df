use array_lists::array::Array;
use array_lists::List;

#[test]
fn test_array() {
    // initialized array has no elements
    let mut array: Array<i32> = Array::new(10);
    check_arr_size(&array, 10, 0);

    // adding elements just increase n
    array.add(0, -1);
    array.add(1, 1);
    for (i, elem) in [-1, 1].iter().enumerate() {
        assert_eq!(array.get(i), Some(*elem));
    }
    check_arr_size(&array, 10, 2);

    // removing elements just decrease n
    let achieved = array.remove(0);
    let expected = Some(-1);
    assert_eq!(achieved, expected);
    check_arr_size(&array, 2, 1);

    // setting elements
    for i in 1..9 {
        array.add(i, 0);
    }
    check_arr_size(&array, 10, 9);
    for (i, elem) in [2, 3, 4, 5, 6, 7, 8, 9].iter().enumerate() {
        let achieved = array.set(i + 1, *elem);
        let expected = Some(0);
        assert_eq!(achieved, expected);
    }
    for (i, elem) in [1, 2, 3, 4, 5, 6, 7, 8, 9].iter().enumerate() {
        assert_eq!(array.get(i), Some(*elem));
    }
}

fn check_arr_size<T: Copy>(array: &Array<T>, length: usize, n: usize) {
    assert_eq!((array.capacity(), array.size()), (length, n));
}
