use rust_algo::double_linked_list::{ArenaList, DoubleLinkedList};

#[test]
fn test_double_linked_list_func1() {
    let mut arena_list = ArenaList::new();
    let double_linked_list = DoubleLinkedList::new(&mut arena_list);
    assert_eq!(double_linked_list.root_idx, 0);
    assert!(double_linked_list.to_vec().is_empty());

    let vec1 = vec![1, 2, 4, 5, 6, 7];
    let mut double_linked_list = DoubleLinkedList::from_vec(&mut arena_list, vec1);

    println!("root_idx:{}", double_linked_list.root_idx);
    assert_eq!(double_linked_list.root_idx, 1);
    let vec2 = double_linked_list.to_vec();
    println!("{:?}", vec2);
    assert_eq!(vec2, vec![&1, &2, &4, &5, &6, &7]);

    double_linked_list.insert(3, 5);
    println!("{:?}", double_linked_list.to_vec());
    assert_eq!(double_linked_list.to_vec(), vec![&1, &2, &4, &5, &5, &6, &7]);
}

#[test]
fn double_list_appends_at_its_length_and_no_further() {
    let mut arena = ArenaList::new();
    let mut list = DoubleLinkedList::from_vec(&mut arena, vec![1, 2]);
    list.insert(2, 3);
    assert_eq!(list.to_vec(), vec![&1, &2, &3]);
    list.insert(4, 9);
    assert_eq!(list.to_vec(), vec![&1, &2, &3]);
    list.insert(0, 0);
    assert_eq!(list.to_vec(), vec![&0, &1, &2, &3]);
    list.get(1);
    DoubleLinkedList::<i32>::del();
    assert_eq!(list.to_vec(), vec![&0, &1, &2, &3]);
}

#[test]
fn double_list_counts_its_nodes() {
    let mut arena = ArenaList::new();
    {
        let mut list = DoubleLinkedList::new(&mut arena);
        assert_eq!(list.add_node(Some(5)), 1);
        assert_eq!(list.add_node(None), 2);
        assert!(list.to_vec().is_empty());
        list.insert(0, 6);
        assert_eq!(list.to_vec(), vec![&6]);
        let _ = list.get_node_by_idx(3);
    }
    assert_eq!(arena.len, 4);
    assert_eq!(arena.nodes.len(), 4);
}

#[test]
fn arena_links_and_clears() {
    let mut arena = ArenaList::new();
    assert_eq!(arena.add_node(Some('a')), 0);
    assert_eq!(arena.add_node(Some('b')), 1);
    assert_eq!(arena.get_node(0).next_idx(), None);
    assert_eq!(arena.get_node(1).prev_idx(), None);
    arena.add_link(0, 1);
    assert_eq!(arena.get_node(0).next_idx(), Some(1));
    assert_eq!(arena.get_node(0).prev_idx(), None);
    assert_eq!(arena.get_node(1).prev_idx(), Some(0));
    assert_eq!(arena.get_node(1).next_idx(), None);
    assert_eq!(arena.get_node(1).data(), &Some('b'));
    arena.clear();
    assert!(arena.nodes.is_empty());
    assert_eq!(arena.len, 2);
}

#[test]
fn arena_deletes_a_node_and_moves_the_last_into_its_slot() {
    let mut arena = ArenaList::new();
    {
        let list = DoubleLinkedList::from_vec(&mut arena, vec![10, 20, 30]);
        assert_eq!(list.root_idx, 0);
    }
    assert_eq!(arena.get_node(2).prev_idx(), Some(1));
    assert_eq!(arena.get_node(2).next_idx(), Some(3));
    assert!(!arena.del_node(4));
    assert!(arena.del_node(1));
    assert_eq!(arena.nodes.len(), 3);
    assert_eq!(arena.len, 3);
    // The head has lost its successor, and 20 its predecessor.
    assert_eq!(arena.get_node(0).data(), &None);
    assert_eq!(arena.get_node(0).next_idx(), None);
    assert_eq!(arena.get_node(2).data(), &Some(20));
    assert_eq!(arena.get_node(2).prev_idx(), None);
    // 30 stands in slot 1 now, and 20 points to it there.
    assert_eq!(arena.get_node(1).data(), &Some(30));
    assert_eq!(arena.get_node(1).prev_idx(), Some(2));
    assert_eq!(arena.get_node(1).next_idx(), None);
    assert_eq!(arena.get_node(2).next_idx(), Some(1));

    // Deleting 30: its predecessor is the last node, which takes the slot.
    assert!(arena.del_node(1));
    assert_eq!(arena.nodes.len(), 2);
    assert_eq!(arena.len, 2);
    assert_eq!(arena.get_node(1).data(), &Some(20));
    assert_eq!(arena.get_node(1).next_idx(), None);
    assert_eq!(arena.get_node(1).prev_idx(), None);
}

#[test]
fn arena_keeps_its_count_when_the_last_node_is_deleted() {
    let mut arena = ArenaList::new();
    {
        DoubleLinkedList::from_vec(&mut arena, vec![10, 20]);
    }
    assert!(arena.del_node(2));
    assert_eq!(arena.nodes.len(), 2);
    assert_eq!(arena.len, 3);
    assert_eq!(arena.get_node(1).next_idx(), None);
    assert_eq!(arena.get_node(1).prev_idx(), Some(0));
    assert_eq!(arena.get_node(0).next_idx(), Some(1));
}
