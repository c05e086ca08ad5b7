use dancing_links::linked_list::LinkedList;

#[test]
fn test_add() {
    let mut linked_list = LinkedList::new();
    linked_list.add(1);
    linked_list.add(2);
    linked_list.add(3);
    let v = linked_list.to_vector();
    assert_eq!(v, vec![1, 2, 3]);
}

#[test]
fn test_remove() {
    let mut linked_list = LinkedList::new();
    linked_list.add(1);
    linked_list.add(2);
    linked_list.add(3);
    linked_list.remove(2);
    let v = linked_list.to_vector();
    assert_eq!(v, vec![1, 3]);
}

#[test]
fn test_empty_list() {
    let linked_list = LinkedList::new();
    let v = linked_list.to_vector();
    assert_eq!(v, vec![]);
}

#[test]
fn test_remove_all_elements() {
    let mut linked_list = LinkedList::new();
    linked_list.add(1);
    linked_list.add(2);
    linked_list.add(3);
    linked_list.remove(2);
    linked_list.remove(1);
    linked_list.remove(3);
    let v = linked_list.to_vector();
    assert_eq!(v, vec![]);
}

#[test]
fn linked_list_test_remove_root() {
    let mut linked_list = LinkedList::new();
    linked_list.add(1);
    linked_list.add(2);
    linked_list.add(3);
    linked_list.remove(1);
    let v = linked_list.to_vector();
    assert_eq!(v, vec![2, 3]);
}

#[test]
fn test_remove_last_node() {
    let mut linked_list = LinkedList::new();
    linked_list.add(1);
    linked_list.add(2);
    linked_list.add(3);
    linked_list.remove(3);
    let v = linked_list.to_vector();
    assert_eq!(v, vec![1, 2]);
}

#[test]
fn linked_list_test_remove_non_existent() {
    let mut linked_list = LinkedList::new();
    linked_list.add(1);
    linked_list.add(2);
    linked_list.add(3);
    linked_list.remove(42);
    let v = linked_list.to_vector();
    assert_eq!(v, vec![1, 2, 3]);
}

#[test]
fn test_remove_from_empty_list() {
    let mut linked_list = LinkedList::new();
    linked_list.remove(42);
    let v = linked_list.to_vector();
    assert_eq!(v, vec![]);
}

#[test]
fn test_print() {
    let mut linked_list = LinkedList::new();
    linked_list.add(1);
    linked_list.add(2);
    linked_list.add(3);

    let output = linked_list.print_to_writer();
    assert_eq!(output, "1\n2\n3\n");
}

#[test]
fn test_print_multi_digit_values() {
    // the rendering really is the decimal digits of each value
    let mut linked_list = LinkedList::new();
    linked_list.add(0);
    linked_list.add(10);
    linked_list.add(1234567890);
    linked_list.add(u64::MAX);
    let output = linked_list.print_to_writer();
    assert_eq!(output, "0\n10\n1234567890\n18446744073709551615\n");
}
