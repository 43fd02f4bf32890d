use sensitive_rs::LinkList;
use std::any::Any;

#[test]
fn test_link_list_push_pop() {
    let mut list: LinkList<Box<dyn Any>> = LinkList::new();
    list.push(Box::new(1));
    list.push(Box::new("hello"));
    assert_eq!(list.pop().unwrap().downcast_ref::<i32>(), Some(&1));
    assert_eq!(list.pop().unwrap().downcast_ref::<&str>(), Some(&"hello"));
}

#[test]
fn test_link_list_is_empty() {
    let mut list: LinkList<Box<dyn Any>> = LinkList::new();
    assert!(list.is_empty());
    list.push(Box::new(1));
    assert!(!list.is_empty());
}

#[test]
fn link_list_pops_in_push_order_and_then_nothing() {
    let mut list: LinkList<u32> = LinkList::new();
    assert_eq!(list.pop(), None);
    list.push(1);
    list.push(2);
    list.push(3);
    assert_eq!(list.pop(), Some(1));
    list.push(4);
    assert_eq!(list.pop(), Some(2));
    assert_eq!(list.pop(), Some(3));
    assert_eq!(list.pop(), Some(4));
    assert_eq!(list.pop(), None);
    assert!(list.is_empty());
}
