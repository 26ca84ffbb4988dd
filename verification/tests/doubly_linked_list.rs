use algorithm_study::doubly_linked_list::DoublyLinkedList;

#[test]
fn doubly_linked_list_test_general() {
    assert_eq!("**[Empty]**", DoublyLinkedList::<i32>::new().to_text());
    assert_eq!("[1]", DoublyLinkedList::from_slice(&[1]).to_text());
    assert_eq!("[a, b]", DoublyLinkedList::from_slice(&["a", "b"]).to_text());
    assert_eq!(7, DoublyLinkedList::from_slice(&vec![0; 7]).len());
}

#[test]
fn doubly_linked_list_test_head_ops() {
    let mut list = DoublyLinkedList::<i32>::new();

    list.push_front(1);
    assert_eq!("[1]", list.to_text());
    list.push_front(2);
    assert_eq!("[2, 1]", list.to_text());
    list.push_front(3);
    assert_eq!("[3, 2, 1]", list.to_text());

    let mut val = list.pop_front();
    assert_eq!("[2, 1]", list.to_text());
    assert_eq!(Some(3), val);
    val = list.pop_front();
    assert_eq!("[1]", list.to_text());
    assert_eq!(Some(2), val);
    val = list.pop_front();
    assert_eq!("**[Empty]**", list.to_text());
    assert_eq!(Some(1), val);
    val = list.pop_front();
    assert_eq!("**[Empty]**", list.to_text());
    assert_eq!(None, val);
}

#[test]
fn doubly_linked_list_test_tail_ops() {
    let mut list = DoublyLinkedList::<i32>::new();

    list.push_back(1);
    assert_eq!("[1]", list.to_text());
    list.push_back(2);
    assert_eq!("[1, 2]", list.to_text());
    list.push_back(3);
    assert_eq!("[1, 2, 3]", list.to_text());

    let mut val = list.pop_back();
    assert_eq!("[1, 2]", list.to_text());
    assert_eq!(Some(3), val);
    val = list.pop_back();
    assert_eq!("[1]", list.to_text());
    assert_eq!(Some(2), val);
    val = list.pop_back();
    assert_eq!("**[Empty]**", list.to_text());
    assert_eq!(Some(1), val);
    val = list.pop_back();
    assert_eq!("**[Empty]**", list.to_text());
    assert_eq!(None, val);
}

#[test]
fn doubly_linked_list_test_middle_ops() {
    let mut list = DoublyLinkedList::<i32>::new();

    list.insert(0, 1).unwrap();
    assert_eq!("[1]", list.to_text());
    list.insert(1, 2).unwrap();
    assert_eq!("[1, 2]", list.to_text());
    list.insert(0, 0).unwrap();
    assert_eq!("[0, 1, 2]", list.to_text());
    assert!(list.insert(9, 4).is_err());

    let mut val = list.remove(0);
    assert_eq!("[1, 2]", list.to_text());
    assert_eq!(Some(0), val);
    val = list.remove(1);
    assert_eq!("[1]", list.to_text());
    assert_eq!(Some(2), val);
    val = list.remove(0);
    assert_eq!("**[Empty]**", list.to_text());
    assert_eq!(Some(1), val);
    val = list.remove(3);
    assert_eq!("**[Empty]**", list.to_text());
    assert_eq!(None, val);
}

#[test]
fn doubly_linked_list_test_iter() {
    let list = DoublyLinkedList::from_slice(&[1, 2, 3, 4, 5]);
    let mut iter = list.into_iter();
    let mut sum: i32 = 0;
    while let Some(i) = iter.next() {
        sum += i * 2;
    }
    assert_eq!(30, sum);
}
