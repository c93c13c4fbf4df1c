use data_structures_and_algorithms::singly_linked_list::SinglyLinkedList;

#[test]
fn should_work_with_i32() {
    let mut list = SinglyLinkedList::new();
    list.push(1);
    list.push(2);
    list.push(3);
    assert_eq!(list.to_vector(), vec![1, 2, 3]);
}

#[test]
fn should_work_with_str() {
    let mut list = SinglyLinkedList::new();
    list.push("one");
    list.push("two");
    list.push("three");
    assert_eq!(list.to_vector(), vec!["one", "two", "three"]);
}

#[test]
fn should_calculate_len() {
    let mut list = SinglyLinkedList::new();
    list.push("one");
    list.push("two");
    list.push("three");
    assert_eq!(list.len(), 3);
}

#[test]
fn should_pop_items() {
    let mut list = SinglyLinkedList::new();
    list.push("one");
    list.push("two");
    list.push("three");
    list.push("four");
    let value = list.pop();
    assert_eq!(list.to_vector(), vec!["two", "three", "four"]);
    assert_eq!(value.unwrap(), "one");
}

#[test]
fn should_return_head() {
    let mut list = SinglyLinkedList::new();
    list.push("one");
    list.push("two");
    list.push("three");
    list.push("four");
    let head = list.head();
    assert_eq!(head.unwrap(), "one");
}

#[test]
fn should_return_tail() {
    let mut list = SinglyLinkedList::new();
    list.push("one");
    list.push("two");
    list.push("three");
    list.push("four");
    let tail = list.tail();
    assert_eq!(tail.unwrap(), "four");
}

#[test]
fn empty_list_has_nothing() {
    let mut list: SinglyLinkedList<i32> = SinglyLinkedList::new();
    assert_eq!(list.len(), 0);
    assert_eq!(list.head(), None);
    assert_eq!(list.tail(), None);
    assert_eq!(list.pop(), None);
    assert_eq!(list.to_vector(), Vec::<i32>::new());
}
