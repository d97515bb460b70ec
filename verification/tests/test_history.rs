use rust_algo::history::graph::{ArenaList as GraphArena, Graph};
use rust_algo::history::linked_list::{ArenaList, Node};
use std::collections::HashSet;

#[test]
fn linked_list_test2() {
    let mut arena_list: ArenaList<i32> = ArenaList::new();
    let vec1 = vec![1, 3, 2, 7, 6, 5];

    let mut node = Node::from_vec(&mut arena_list, vec1);
    let vec2 = node.to_vec();
    println!("{:?}", vec2);
    assert_eq!(vec2, vec![&1, &3, &2, &7, &6, &5]);

    assert!(node.insert(3, 9));
    println!("{:?}", node.to_vec());
    assert_eq!(node.to_vec(), vec![&1, &3, &2, &9, &7, &6, &5]);

    assert!(node.insert(0, 0));
    println!("{:?}", node.to_vec());
    assert_eq!(node.to_vec(), vec![&0, &1, &3, &2, &9, &7, &6, &5]);

    let status = node.insert(999, 0);
    println!("{:?}｜insert status:{}", node.to_vec(), status);
    assert!(!status);
    assert_eq!(node.to_vec(), vec![&0, &1, &3, &2, &9, &7, &6, &5]);

    let idx = 3;
    let val = node.get(idx);
    match val {
        None => {
            println!("get None at idx = {}", idx)
        }
        Some(x) => {
            println!("idx = {}, get val = {}", idx, x)
        }
    }
    assert_eq!(val, &Some(2));

    assert!(node.del(3));
    println!("After del: {:?}", node.to_vec());
    assert_eq!(node.to_vec(), vec![&0, &1, &3, &9, &7, &6, &5]);
}

#[test]
fn history_list_appends_and_keeps_deleted_nodes() {
    let mut arena: ArenaList<u8> = ArenaList::new();
    {
        let mut list = Node::init_with_dummy(&mut arena);
        assert!(list.to_vec().is_empty());
        assert!(list.insert(0, 1));
        assert!(list.insert(1, 2));
        assert!(!list.insert(3, 3));
        assert_eq!(list.to_vec(), vec![&1, &2]);
        assert_eq!(list.get(1), &Some(2));
        assert_eq!(list.get(2), &None);
        assert!(!list.del(2));
        assert!(list.del(0));
        assert_eq!(list.to_vec(), vec![&2]);
        list.push_by_vec(Vec::new());
        assert_eq!(list.to_vec(), vec![&2]);
        list.push_by_vec(vec![7, 8]);
        assert_eq!(list.to_vec(), vec![&7, &8]);
    }
    assert_eq!(arena.nodes.len(), 6);
    arena.compact();
    assert_eq!(arena.nodes.len(), 6);
    // The node of the refused insertion and the deleted one kept their slots.
    assert_eq!(arena.nodes[3].data, Some(3));
    assert_eq!(arena.nodes[1].data, Some(1));
    assert_eq!(arena.nodes[2].data, Some(2));
    assert_eq!(arena.nodes[0].next_idx, Some(4));
    assert_eq!(arena.nodes[4].next_idx, Some(5));
    assert_eq!(arena.nodes[5].next_idx, None);
    arena.clear();
    assert!(arena.nodes.is_empty());
    let list = Node::from_vec(&mut arena, vec![4]);
    assert_eq!(list.to_vec(), vec![&4]);
}

const PAIRS: [(&str, &str); 20] = [
    ("John", "Emma"),
    ("Sophia", "Tom"),
    ("Isabella", "Emma"),
    ("Tom", "Isabella"),
    ("Tom", "John"),
    ("Tom", "Michael"),
    ("John", "Emma"),
    ("Tom", "Sophia"),
    ("Oliver", "Emma"),
    ("Michael", "Daniel"),
    ("Michael", "Lucy"),
    ("Sophia", "Michael"),
    ("Oliver", "Lucy"),
    ("Sophia", "Emily"),
    ("Michael", "Daniel"),
    ("Sophia", "Michael"),
    ("Michael", "Sophia"),
    ("John", "Emma"),
    ("Tom", "Sophia"),
    ("Sophia", "John"),
];

fn named(graph: &Graph<String>) -> HashSet<(String, String)> {
    graph.edge_names().into_iter().collect()
}

fn pair(a: &str, b: &str) -> (String, String) {
    (a.to_string(), b.to_string())
}

#[test]
fn history_graph_test1() {
    let mut arena_list = GraphArena::new();

    let mut graph = Graph::new(&mut arena_list);

    for (src_name, dst_name) in PAIRS {
        graph.add_edge(src_name, src_name.to_string(), dst_name, dst_name.to_string());
    }

    let edges = graph.get_edges();
    assert_eq!(edges.len(), 15);
    println!("{:?}", graph.edge_names());
    let all = named(&graph);
    assert_eq!(all.len(), 15);

    assert!(graph.del_edge_by_name("Michael", "Lucy"));
    println!("======after del edge [Sophia]-> [Lucy]：======");
    println!("{:?}", graph.edge_names());
    let after_edge = named(&graph);
    assert_eq!(after_edge.len(), 14);
    assert!(!after_edge.contains(&pair("Michael", "Lucy")));
    assert!(after_edge.contains(&pair("Michael", "Daniel")));

    assert!(graph.del_node_by_name("Sophia"));
    println!("======after del node 【Sophia】：======");
    println!("{:?}", graph.edge_names());
    let expected: HashSet<(String, String)> =
        after_edge.iter().filter(|(a, b)| a != "Sophia" && b != "Sophia").cloned().collect();
    assert_eq!(named(&graph), expected);
    assert_eq!(expected.len(), 8);
    // The edges into the emptied slot are still there; those out of it are not.
    let raw: HashSet<(usize, usize)> = graph.get_edges().into_iter().collect();
    assert_eq!(raw.len(), 10);
    assert!(raw.contains(&(3, 2)));
    assert!(raw.contains(&(5, 2)));
    assert!(!raw.iter().any(|(src, _)| *src == 2));
    assert!(graph.get_idx_by_name("Sophia").is_none());
    assert!(graph.get_node_by_idx(2).is_none());
    assert!(graph.get_name_by_idx(2).is_none());
    assert_eq!(graph.get_name_by_idx(3), Some(&"Tom".to_string()));
    assert_eq!(graph.get_idx_by_name("Tom"), Some(&3));
}

#[test]
fn history_graph_keeps_slots_and_first_payload() {
    let mut arena = GraphArena::new();
    {
        let mut graph = Graph::new(&mut arena);
        assert_eq!(graph.add_node("a", 1), 0);
        assert_eq!(graph.add_node("b", 2), 1);
        assert_eq!(graph.add_node("a", 7), 0);
        assert_eq!(*graph.get_node_by_idx(0).unwrap().data(), 1);
        graph.add_edge("a", 0, "b", 0);
        graph.add_edge("b", 0, "c", 3);
        assert_eq!(graph.get_node_by_idx(0).unwrap().name(), "a");
        assert!(graph.get_node_by_idx(0).unwrap().next_idx().contains(&1));
        assert!(!graph.del_edge_by_idx(0, 2));
        assert!(!graph.del_edge_by_name("a", "nobody"));
        assert!(!graph.del_node_by_name("nobody"));
        assert!(graph.del_node_by_idx(1));
        assert!(!graph.del_node_by_idx(1));
        assert!(!graph.del_edge_by_idx(1, 2));
        assert_eq!(graph.get_edges(), vec![(0, 1)]);
        assert!(graph.edge_names().is_empty());
        assert_eq!(graph.add_node("b", 5), 3);
        assert!(graph.del_edge_by_idx(0, 1));
        assert!(graph.get_edges().is_empty());
    }
    assert_eq!(arena.holes, vec![1]);
    assert_eq!(arena.nodes.len(), 4);
    assert!(arena.add_next_idx(3, 0));
    assert!(!arena.add_next_idx(1, 0));
    assert_eq!(arena.make_or_get_node("c", 0), 2);
    assert_eq!(arena.get_idx_by_name("b"), Some(&3));
    arena.compact();
    assert_eq!(arena.nodes.len(), 4);
    arena.clear();
    assert!(arena.nodes.is_empty());
    assert!(arena.holes.is_empty());
    assert_eq!(arena.get_idx_by_name("a"), None);
}
