use rust_algo::linked_list::{ArenaList, LinkedList};

#[test]
fn test_linked_list_func1() {}

#[test]
fn test_linked_list_test1() {
    let mut arena_list = ArenaList::new();
    let vec1 = vec![1, 2, 3, 4, 5, 6];
    let mut linked_list = LinkedList::from_vec(&mut arena_list, vec1);
    println!("{:?}", linked_list.to_vec());
    assert_eq!(linked_list.to_vec(), vec![&1, &2, &3, &4, &5, &6]);
    linked_list.insert(3, 9);
    assert_eq!(linked_list.to_vec(), vec![&1, &2, &3, &9, &4, &5, &6]);
    linked_list.insert(0, 99);
    println!("{:?}", linked_list.to_vec());
    assert_eq!(linked_list.to_vec(), vec![&99, &1, &2, &3, &9, &4, &5, &6]);
    println!("index = {}, val = {:?}", 0, linked_list.get(0));
    println!("index = {}, val = {:?}", 3, linked_list.get(3));
    println!("index = {}, val = {:?}", 8, linked_list.get(8));
    assert_eq!(linked_list.get(0), &Some(99));
    assert_eq!(linked_list.get(3), &Some(3));
    assert_eq!(linked_list.get(8), &None);
    assert!(linked_list.del(3));
    assert!(linked_list.del(2));
    println!("{:?}", linked_list.to_vec());
    assert_eq!(linked_list.to_vec(), vec![&99, &1, &9, &4, &5, &6]);
}

#[test]
fn test_linked_list_test2() {
    let mut arena_list = ArenaList::new();
    let vec1 = vec![1, 2, 3, 4, 5, 6];
    let mut linked_list1 = LinkedList::from_vec(&mut arena_list, vec1);
    let linked_list2 = linked_list1.split(3);
    println!("{:?}", linked_list2.to_vec());
    assert_eq!(linked_list2.to_vec(), vec![&4, &5, &6]);
    println!("{:?}", linked_list1.to_vec());
    assert_eq!(linked_list1.to_vec(), vec![&1, &2, &3]);
}

#[test]
fn test3() {
    let mut arena_list = ArenaList::new();
    let vec1 = vec!["Tom", "Lucy", "Lily", "Bob", "Li", "Wang"];

    let mut linked_list = LinkedList::from_vec(&mut arena_list, vec1);

    println!("{:?}", linked_list.to_vec());
    assert_eq!(linked_list.to_vec(), vec![&"Tom", &"Lucy", &"Lily", &"Bob", &"Li", &"Wang"]);
    linked_list.insert(3, "Zhao");
    linked_list.insert(0, "Zhang");
    println!("{:?}", linked_list.to_vec());
    assert_eq!(
        linked_list.to_vec(),
        vec![&"Zhang", &"Tom", &"Lucy", &"Lily", &"Zhao", &"Bob", &"Li", &"Wang"]
    );

    println!("index = {}, val = {:?}", 0, linked_list.get(0));
    println!("index = {}, val = {:?}", 3, linked_list.get(3));
    println!("index = {}, val = {:?}", 8, linked_list.get(8));
    assert_eq!(linked_list.get(0), &Some("Zhang"));
    assert_eq!(linked_list.get(3), &Some("Lily"));
    assert_eq!(linked_list.get(8), &None);

    linked_list.del(3);
    linked_list.del(2);
    println!("{:?}", linked_list.to_vec());
    assert_eq!(linked_list.to_vec(), vec![&"Zhang", &"Tom", &"Zhao", &"Bob", &"Li", &"Wang"]);
}

#[test]
fn list_does_not_append_and_ignores_positions_past_its_end() {
    let mut arena = ArenaList::new();
    let mut list = LinkedList::from_vec(&mut arena, vec![1, 2]);
    list.insert(2, 3);
    assert_eq!(list.to_vec(), vec![&1, &2]);
    list.insert(7, 3);
    assert_eq!(list.to_vec(), vec![&1, &2]);
    assert!(!list.del(2));
    assert_eq!(list.to_vec(), vec![&1, &2]);
    list.insert(1, 3);
    assert_eq!(list.to_vec(), vec![&1, &3, &2]);
    assert_eq!(list.get(2), &Some(2));
    assert_eq!(list.get(3), &None);
}

#[test]
fn empty_list_stays_empty() {
    let mut arena: ArenaList<u8> = ArenaList::new();
    let mut list = LinkedList::from_vec(&mut arena, Vec::new());
    assert!(list.to_vec().is_empty());
    assert_eq!(list.get(0), &None);
    list.insert(0, 1);
    assert!(list.to_vec().is_empty());
    assert!(!list.del(0));
    let rest = list.split(0);
    assert!(rest.to_vec().is_empty());
}

#[test]
fn freed_slot_is_reused_last_freed_first() {
    let mut arena = ArenaList::new();
    {
        let mut list = LinkedList::from_vec(&mut arena, vec![10, 20, 30, 40]);
        assert!(list.del(0));
        assert!(list.del(1));
        assert_eq!(list.to_vec(), vec![&20, &40]);
    }
    assert_eq!(arena.holes, vec![1, 3]);
    assert_eq!(arena.nodes.len(), 5);
    {
        let mut list = LinkedList::from_vec(&mut arena, vec![7]);
        assert_eq!(list.to_vec(), vec![&7]);
        list.insert(0, 8);
        assert_eq!(list.to_vec(), vec![&8, &7]);
    }
    assert!(arena.holes.is_empty());
    assert_eq!(arena.nodes.len(), 6);
    assert_eq!(arena.nodes[3], None);
    assert_eq!(arena.nodes[1], Some(7));
    assert_eq!(arena.nodes[5], Some(8));
    assert_eq!(arena.nexts[3], Some(5));
    assert_eq!(arena.nexts[5], Some(1));
    assert_eq!(arena.nexts[1], None);
}

#[test]
fn split_list_can_change_without_disturbing_the_rest() {
    let mut arena = ArenaList::new();
    let mut head = LinkedList::from_vec(&mut arena, vec![1, 2, 3, 4, 5]);
    {
        let mut tail = head.split(2);
        assert_eq!(tail.to_vec(), vec![&3, &4, &5]);
        assert!(tail.del(1));
        tail.insert(0, 9);
        assert_eq!(tail.to_vec(), vec![&9, &3, &5]);
        let last = tail.split(2);
        assert_eq!(last.to_vec(), vec![&5]);
    }
    assert_eq!(head.to_vec(), vec![&1, &2]);
    let rest = head.split(5);
    assert!(rest.to_vec().is_empty());
    assert_eq!(head.to_vec(), vec![&1, &2]);
}
