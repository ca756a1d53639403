use cache_policies::common::list::List;

#[test]
fn test_list() {
    let mut list = List::default();
    for i in (0u64..10).rev() {
        list.push_front(i);
    }
    for i in 10u64..20 {
        list.push_back(i);
    }
    for i in 0usize..20 {
        assert_eq!(i as u64, list.value(list.get_node_at(i).unwrap()));
        assert_eq!(i as u64, list.value(list.get_node_rev(19 - i).unwrap()));
    }
    for i in 0usize..19 {
        assert_eq!(list.len(), 20 - i);
        if i % 2 == 0 {
            list.remove_node(list.head());
        } else {
            list.remove_node(list.tail());
        }
    }
    assert_eq!(list.len(), 1);
    assert_eq!(list.tail(), list.head());
    list.remove_node(list.tail());

    assert_eq!(list.len(), 0);
    assert!(list.head().is_none() && list.tail().is_none());
}

#[test]
fn two_q_lru_test_list() {
    let mut list = List::default();
    for i in (0u64..10).rev() {
        list.push_front(i);
    }
    for i in 10u64..20 {
        list.push_back(i);
    }
    for i in 0usize..20 {
        assert_eq!(i as u64, list.value(list.get_node_at(i).unwrap()));
        assert_eq!(i as u64, list.value(list.get_node_rev(19 - i).unwrap()));
    }
    for i in 0usize..19 {
        assert_eq!(list.len(), 20 - i);
        if i % 2 == 0 {
            list.remove_node(list.head());
        } else {
            list.remove_node(list.tail());
        }
    }
    assert_eq!(list.len(), 1);
    assert_eq!(list.tail(), list.head());
    list.remove_node(list.tail());

    assert_eq!(list.len(), 0);
    assert!(list.head().is_none() && list.tail().is_none());
}

#[test]
fn list_pop_both_ends() {
    let mut list = List::new();
    list.push_back(1);
    list.push_back(2);
    list.push_back(3);
    let (_, front) = list.pop_front().unwrap();
    assert_eq!(front, 1);
    let (_, back) = list.pop_back().unwrap();
    assert_eq!(back, 3);
    let (_, last) = list.pop_back().unwrap();
    assert_eq!(last, 2);
    assert!(list.pop_back().is_none());
    assert!(list.pop_front().is_none());
    assert_eq!(list.len(), 0);
}
