use mini_tokio::list::List;

#[test]
fn test() {
    let mut list = List::new();
    list.push_front(1.to_string());
    list.push_back(2.to_string());
    list.push_back(3.to_string());
    println!("{}", list.pop_front().unwrap());
    println!("{}", list.pop_front().unwrap());
    list.push_front(4.to_string());
    list.push_front(5.to_string());
    list.push_back(6.to_string());
    println!("{}", list.pop_front().unwrap());
    list.push_front(7.to_string());
    list.push_front(8.to_string());
    println!("{}", list.pop_back().unwrap());
    println!("{}", list.pop_front().unwrap());
    list.push_front(9.to_string());
    list.push_front(10.to_string());
    println!("{}", list.peek_front_ref().unwrap());
    while !list.is_empty() {
        println!("{}", list.pop_front().unwrap());
    }
}

#[test]
fn empty_list_yields_nothing() {
    let mut list: List<u32> = List::new();
    assert!(list.is_empty());
    assert_eq!(list.size(), 0);
    assert_eq!(list.pop_front(), None);
    assert_eq!(list.pop_back(), None);
    assert_eq!(list.peek_front(), None);
    assert_eq!(list.peek_back(), None);
    assert_eq!(list.peek_front_ref(), None);
    assert_eq!(list.peek_back_ref(), None);
}

#[test]
fn push_and_pop_both_ends() {
    let mut list: List<u32> = List::new();
    list.push_back(2);
    list.push_back(3);
    list.push_front(1);
    assert_eq!(list.size(), 3);
    assert!(!list.is_empty());
    assert_eq!(list.peek_front_ref(), Some(&1));
    assert_eq!(list.peek_back_ref(), Some(&3));
    assert_eq!(list.peek_front(), Some(1));
    assert_eq!(list.peek_back(), Some(3));
    assert_eq!(list.size(), 3);
    assert_eq!(list.pop_front(), Some(1));
    assert_eq!(list.pop_back(), Some(3));
    assert_eq!(list.pop_back(), Some(2));
    assert!(list.is_empty());
}

#[test]
fn single_element_seen_from_both_ends() {
    let mut list: List<&str> = List::new();
    list.push_back("only");
    assert_eq!(list.peek_front_ref(), Some(&"only"));
    assert_eq!(list.peek_back_ref(), Some(&"only"));
    assert_eq!(list.pop_back(), Some("only"));
    assert_eq!(list.pop_front(), None);
}

#[test]
fn fifo_order_front_to_back() {
    let mut list: List<u64> = List::new();
    for v in 0..10u64 {
        list.push_back(v);
    }
    for v in 0..10u64 {
        assert_eq!(list.pop_front(), Some(v));
    }
    assert!(list.is_empty());
}
