use array_lists::rootish_array_stack::RootishArrayStack;
use array_lists::List;

#[test]
fn test_rootish_array_stack() {
    let mut rootish_array_stack: RootishArrayStack<char> = RootishArrayStack::new();
    assert_eq!(rootish_array_stack.size(), 0);
    for (i, elem) in "abcde".chars().enumerate() {
        rootish_array_stack.add(i, elem);
    }
    for (i, elem) in "abcde".chars().enumerate() {
        assert_eq!(rootish_array_stack.get(i), Some(elem));
    }
    rootish_array_stack.add(2, 'x'); // "abxcde"
    rootish_array_stack.remove(1); // "axcde"
    for (i, elem) in "axcde".chars().enumerate() {
        assert_eq!(rootish_array_stack.get(i), Some(elem));
    }
    let mut rootish_array_stack: RootishArrayStack<i32> = RootishArrayStack::new();
    let num = 10;
    for i in 0..num {
        rootish_array_stack.add(rootish_array_stack.size(), i);
    }
    while rootish_array_stack.remove(0).is_some() {}
}
