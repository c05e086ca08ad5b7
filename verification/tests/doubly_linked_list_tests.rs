use dancing_links::doubly_linked_list::DoublyLinkedList;

fn check_output(list: &DoublyLinkedList, expected_str: &str) {
    let output = list.print_to_writer();
    assert_eq!(output, expected_str);
}

#[test]
fn test_add_elements() {
    let mut list = DoublyLinkedList::new();
    list.add(1);
    list.add(2);
    list.add(3);
    check_output(&list, "1\n2\n3\n");

    let v = list.to_vector();
    assert_eq!(v.len(), 3);
    assert_eq!(v[0], 1);
    assert_eq!(v[1], 2);
    assert_eq!(v[2], 3);
}

#[test]
fn test_remove_elements() {
    let mut list = DoublyLinkedList::new();
    list.add(1);
    list.add(2);
    list.add(3);
    list.remove(2);
    check_output(&list, "1\n3\n");

    let v = list.to_vector();
    assert_eq!(v.len(), 2);
    assert_eq!(v[0], 1);
    assert_eq!(v[1], 3);
}

#[test]
fn doubly_linked_list_test_remove_root() {
    let mut list = DoublyLinkedList::new();
    list.add(1);
    list.add(2);
    list.add(3);
    list.remove(1);
    check_output(&list, "2\n3\n");

    let v = list.to_vector();
    assert_eq!(v.len(), 2);
    assert_eq!(v[0], 2);
    assert_eq!(v[1], 3);
}

#[test]
fn test_remove_root_with_one_element() {
    let mut list = DoublyLinkedList::new();
    list.add(1);
    list.remove(1);
    check_output(&list, "");
    assert!(list.to_vector().is_empty());
}

#[test]
fn test_remove_last_element() {
    let mut list = DoublyLinkedList::new();
    list.add(1);
    list.add(2);
    list.add(3);
    list.remove(3);
    check_output(&list, "1\n2\n");

    let v = list.to_vector();
    assert_eq!(v.len(), 2);
    assert_eq!(v[0], 1);
    assert_eq!(v[1], 2);
}

#[test]
fn test_add_remove_add() {
    let mut list = DoublyLinkedList::new();
    list.add(1);
    list.add(2);
    list.remove(2);
    list.add(3);
    check_output(&list, "1\n3\n");

    let v = list.to_vector();
    assert_eq!(v.len(), 2);
    assert_eq!(v[0], 1);
    assert_eq!(v[1], 3);
}

#[test]
fn test_remove_same_element() {
    let mut list = DoublyLinkedList::new();
    list.add(1);
    list.add(2);
    list.add(2);
    list.add(3);
    list.remove(2);
    check_output(&list, "1\n2\n3\n");
    list.remove(2);
    check_output(&list, "1\n3\n");
}

#[test]
fn doubly_linked_list_test_remove_non_existent() {
    let mut list = DoublyLinkedList::new();
    list.add(1);
    list.add(2);
    list.add(3);
    list.remove(4);
    check_output(&list, "1\n2\n3\n");
}

#[test]
fn test_remove_non_existent_from_empty() {
    let mut list = DoublyLinkedList::new();
    list.remove(4);
    check_output(&list, "");
}
