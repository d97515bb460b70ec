use rust_algo::graph::{ArenaList, Graph};
use std::collections::{HashMap, HashSet};

const PAIRS: [(&str, &str); 20] = [
    ("John", "Emma"),
    ("Sophia", "Tom"),
    ("Isabella", "Emma"),
    ("Tom", "Isabella"),
    ("Tom", "John"),
    ("Tom", "Michael"),
    ("John", "Emma"),
    ("Tom", "Sophia"),
    ("Oliver", "Emma"),
    ("Michael", "Daniel"),
    ("Michael", "Lucy"),
    ("Sophia", "Michael"),
    ("Oliver", "Lucy"),
    ("Sophia", "Emily"),
    ("Michael", "Daniel"),
    ("Sophia", "Michael"),
    ("Michael", "Sophia"),
    ("John", "Emma"),
    ("Tom", "Sophia"),
    ("Sophia", "John"),
];

fn fill(graph: &mut Graph<String>, pairs: &[(&str, &str)]) {
    for (src_name, dst_name) in pairs {
        graph.add_node_and_edge(src_name, src_name.to_string(), dst_name, dst_name.to_string());
    }
}

fn named(graph: &Graph<String>) -> HashSet<(String, String)> {
    graph.edge_names().into_iter().collect()
}

fn pair(a: &str, b: &str) -> (String, String) {
    (a.to_string(), b.to_string())
}

fn pairs(list: &[(&str, &str)]) -> HashSet<(String, String)> {
    list.iter().map(|(a, b)| pair(a, b)).collect()
}

/// Every edge is recorded at both of its ends, no edge leaves the arena, and
/// the directory and the names agree.
fn assert_consistent(graph: &Graph<String>) {
    let size = graph.node_names().len();
    for i in 0..size {
        let node = graph.get_node_by_idx(i);
        for j in node.next_idx() {
            assert!(*j < size);
            assert!(graph.get_node_by_idx(*j).prev_idx().contains(&i));
        }
        for j in node.prev_idx() {
            assert!(*j < size);
            assert!(graph.get_node_by_idx(*j).next_idx().contains(&i));
        }
        assert_eq!(graph.get_idx_by_name(graph.get_name_by_idx(i)), Some(&i));
        assert_eq!(node.name(), graph.get_name_by_idx(i));
    }
    let edges = graph.get_all_edges();
    let distinct: HashSet<(usize, usize)> = edges.iter().cloned().collect();
    assert_eq!(distinct.len(), edges.len());
    for (src, dst) in edges {
        assert!(graph.get_node_by_idx(src).next_idx().contains(&dst));
    }
}

#[test]
fn graph_test1() {
    let mut arena_list = ArenaList::new();
    let mut graph = Graph::new(&mut arena_list);
    fill(&mut graph, &PAIRS);

    let edges = graph.get_all_edges();
    assert_eq!(edges.len(), 15);
    println!("{:?}", graph.edge_names());
    println!("{:?}", graph.node_names());
    assert_eq!(
        graph.node_names(),
        vec!["John", "Emma", "Sophia", "Tom", "Isabella", "Michael", "Oliver", "Daniel", "Lucy", "Emily"]
    );
    assert_consistent(&graph);

    assert!(graph.del_edge_by_name("Michael", "Lucy"));
    println!("======after del edge [Sophia]-> [Lucy]：======");
    println!("{:?}", graph.edge_names());
    let after_edge = named(&graph);
    assert_eq!(after_edge.len(), 14);
    assert!(!after_edge.contains(&pair("Michael", "Lucy")));
    assert!(after_edge.contains(&pair("Michael", "Daniel")));
    assert_consistent(&graph);

    assert!(graph.del_node_by_name("Sophia"));
    println!("======after del node 【Sophia】：======");
    println!("{:?}", graph.edge_names());
    let after_node = named(&graph);
    let expected: HashSet<(String, String)> = after_edge
        .iter()
        .filter(|(a, b)| a != "Sophia" && b != "Sophia")
        .cloned()
        .collect();
    assert_eq!(after_node, expected);
    assert_eq!(after_node.len(), 8);
    assert!(graph.get_idx_by_name("Sophia").is_none());
    assert_eq!(
        graph.node_names(),
        vec!["John", "Emma", "Emily", "Tom", "Isabella", "Michael", "Oliver", "Daniel", "Lucy"]
    );
    assert_consistent(&graph);
    graph.clear();
    assert!(graph.get_all_edges().is_empty());
    assert!(graph.node_names().is_empty());
}

#[test]
fn graph_test2() {
    let mut arena_list = ArenaList::new();
    let mut graph = Graph::new(&mut arena_list);
    fill(&mut graph, &PAIRS);

    let idxes = vec![2];
    let level_order: HashMap<usize, Vec<usize>> = graph.get_downstream(idxes, 100000000);
    for level in 0..level_order.len() {
        println!("[level = {}], idx = {:?}", level, level_order.get(&level));
    }
    assert_eq!(level_order.len(), 3);

    println!("=====print names=====");
    for level in 0..level_order.len() {
        let node_names: Vec<&String> =
            level_order.get(&level).unwrap().iter().map(|idx| graph.get_name_by_idx(*idx)).collect();
        println!("[level = {}], names = {:?}", level, node_names);
    }
    let names_at = |level: usize| -> HashSet<String> {
        level_order.get(&level).unwrap().iter().map(|idx| graph.get_name_by_idx(*idx).clone()).collect()
    };
    let set = |names: &[&str]| -> HashSet<String> { names.iter().map(|n| n.to_string()).collect() };
    assert_eq!(level_order.get(&0), Some(&vec![2]));
    assert_eq!(names_at(0), set(&["Sophia"]));
    assert_eq!(names_at(1), set(&["Tom", "Michael", "Emily", "John"]));
    assert_eq!(names_at(2), set(&["Isabella", "Daniel", "Lucy", "Emma"]));
    assert_eq!(level_order.get(&1).unwrap().len(), 4);
    assert_eq!(level_order.get(&2).unwrap().len(), 4);

    println!("2 到 7 的最短路径长度为： {}", graph.get_shortest(2, 7, 1000000).unwrap());
    assert_eq!(graph.get_shortest(2, 7, 1000000), Some(2));
}

#[test]
fn node_is_created_once_and_updated_in_place() {
    let mut arena = ArenaList::new();
    let mut graph = Graph::new(&mut arena);
    assert_eq!(graph.add_node("a", 1), 0);
    assert_eq!(graph.add_node("b", 2), 1);
    graph.add_edge(0, 1);
    assert_eq!(graph.add_node("a", 7), 0);
    assert_eq!(*graph.get_node_by_idx(0).data(), 7);
    assert_eq!(*graph.get_node_by_idx(1).data(), 2);
    assert_eq!(graph.get_all_edges(), vec![(0, 1)]);
    assert_eq!(graph.node_names(), vec!["a", "b"]);
    assert_eq!(graph.get_idx_by_name("a"), Some(&0));
    assert_eq!(graph.get_idx_by_name("b"), Some(&1));
    assert_eq!(graph.get_idx_by_name("c"), None);
    assert_eq!(graph.get_name_by_idx(1), "b");
}

#[test]
fn arena_outlives_its_graph() {
    let mut arena = ArenaList::new();
    {
        let mut graph = Graph::new(&mut arena);
        graph.add_node_and_edge("a", 1, "b", 2);
    }
    assert_eq!(arena.get_idx_by_name("b"), Some(&1));
    assert_eq!(arena.get_name_by_idx(0), "a");
    assert_eq!(*arena.get_node(1).data(), 2);
    assert!(arena.get_node(0).next_idx().contains(&1));
    assert!(arena.del_node(0));
    assert_eq!(arena.get_idx_by_name("b"), Some(&0));
    assert!(arena.get_node(0).prev_idx().is_empty());
    arena.clear();
    assert_eq!(arena.get_idx_by_name("b"), None);
}

#[test]
fn adding_an_edge_twice_changes_nothing() {
    let mut arena = ArenaList::new();
    let mut graph = Graph::new(&mut arena);
    graph.add_node("a", ());
    graph.add_node("b", ());
    graph.add_edge(0, 1);
    let once = graph.get_all_edges();
    graph.add_edge(0, 1);
    assert_eq!(graph.get_all_edges(), once);
    assert_eq!(once, vec![(0, 1)]);
    assert_eq!(graph.get_node_by_idx(0).next_idx().len(), 1);
    assert_eq!(graph.get_node_by_idx(1).prev_idx().len(), 1);
}

#[test]
fn self_loop_is_in_both_sets() {
    let mut arena = ArenaList::new();
    let mut graph = Graph::new(&mut arena);
    graph.add_node("a", ());
    graph.add_edge(0, 0);
    assert!(graph.get_node_by_idx(0).next_idx().contains(&0));
    assert!(graph.get_node_by_idx(0).prev_idx().contains(&0));
    assert_eq!(graph.get_all_edges(), vec![(0, 0)]);
    assert_eq!(graph.get_shortest(0, 0, 1), Some(0));
}

#[test]
fn deleting_an_edge_reports_whether_it_was_there() {
    let mut arena = ArenaList::new();
    let mut graph = Graph::new(&mut arena);
    fill(&mut graph, &[("a", "b"), ("b", "c")]);
    assert!(!graph.del_edge_by_idx(1, 0));
    assert!(!graph.del_edge_by_idx(0, 9));
    assert!(!graph.del_edge_by_idx(9, 0));
    assert!(!graph.del_edge_by_name("a", "nobody"));
    assert!(!graph.del_edge_by_name("nobody", "a"));
    assert!(!graph.del_edge_by_name("a", "c"));
    assert_eq!(named(&graph), pairs(&[("a", "b"), ("b", "c")]));
    assert!(graph.del_edge_by_idx(0, 1));
    assert!(!graph.del_edge_by_idx(0, 1));
    assert_eq!(named(&graph), pairs(&[("b", "c")]));
    assert!(graph.get_node_by_idx(1).prev_idx().is_empty());
    assert_eq!(graph.node_names(), vec!["a", "b", "c"]);
    assert_consistent(&graph);
}

#[test]
fn deleting_a_node_out_of_range_or_unknown_changes_nothing() {
    let mut arena = ArenaList::new();
    let mut graph = Graph::new(&mut arena);
    fill(&mut graph, &[("a", "b")]);
    assert!(!graph.del_node_by_idx(2));
    assert!(!graph.del_node_by_name("nobody"));
    assert_eq!(graph.node_names(), vec!["a", "b"]);
    assert_eq!(named(&graph), pairs(&[("a", "b")]));
}

#[test]
fn deleting_the_last_node_moves_nothing() {
    let mut arena = ArenaList::new();
    let mut graph = Graph::new(&mut arena);
    fill(&mut graph, &[("a", "b"), ("b", "c"), ("c", "a"), ("c", "c")]);
    assert!(graph.del_node_by_name("c"));
    assert_eq!(graph.node_names(), vec!["a", "b"]);
    assert_eq!(graph.get_all_edges(), vec![(0, 1)]);
    assert_eq!(graph.get_idx_by_name("c"), None);
    assert_consistent(&graph);
}

#[test]
fn deleting_a_neighbour_of_the_last_node_relinks_it() {
    // The last node points to the deleted one, is pointed to by it, and
    // points to itself.
    let mut arena = ArenaList::new();
    let mut graph = Graph::new(&mut arena);
    fill(&mut graph, &[("a", "b"), ("b", "z"), ("z", "b"), ("z", "z"), ("z", "a"), ("a", "z")]);
    assert_eq!(graph.node_names(), vec!["a", "b", "z"]);
    assert!(graph.del_node_by_name("b"));
    assert_eq!(graph.node_names(), vec!["a", "z"]);
    assert_eq!(graph.get_idx_by_name("z"), Some(&1));
    assert_eq!(named(&graph), pairs(&[("z", "z"), ("z", "a"), ("a", "z")]));
    let edges: HashSet<(usize, usize)> = graph.get_all_edges().into_iter().collect();
    assert_eq!(edges, [(1, 1), (1, 0), (0, 1)].into_iter().collect());
    assert_consistent(&graph);
}

#[test]
fn deleting_the_first_node_moves_the_last_into_its_slot() {
    let mut arena = ArenaList::new();
    let mut graph = Graph::new(&mut arena);
    fill(&mut graph, &[("a", "b"), ("b", "c"), ("c", "d"), ("d", "d"), ("d", "b"), ("a", "a")]);
    assert!(graph.del_node_by_idx(0));
    assert_eq!(graph.node_names(), vec!["d", "b", "c"]);
    assert_eq!(*graph.get_node_by_idx(0).data(), "d");
    assert_eq!(graph.get_idx_by_name("d"), Some(&0));
    assert_eq!(graph.get_idx_by_name("a"), None);
    let edges: HashSet<(usize, usize)> = graph.get_all_edges().into_iter().collect();
    assert_eq!(edges, [(1, 2), (2, 0), (0, 0), (0, 1)].into_iter().collect());
    assert_eq!(named(&graph), pairs(&[("b", "c"), ("c", "d"), ("d", "d"), ("d", "b")]));
    assert_consistent(&graph);
}

#[test]
fn deleting_a_node_with_a_self_loop_in_the_last_slot() {
    let mut arena = ArenaList::new();
    let mut graph = Graph::new(&mut arena);
    fill(&mut graph, &[("a", "z"), ("z", "z")]);
    assert!(graph.del_node_by_idx(1));
    assert_eq!(graph.node_names(), vec!["a"]);
    assert!(graph.get_all_edges().is_empty());
    assert_consistent(&graph);
}

#[test]
fn deleting_every_node_in_turn_keeps_the_arena_consistent() {
    for victim in ["John", "Emma", "Sophia", "Tom", "Isabella", "Michael", "Oliver", "Daniel", "Lucy", "Emily"] {
        let mut arena = ArenaList::new();
        let mut graph = Graph::new(&mut arena);
        fill(&mut graph, &PAIRS);
        graph.add_edge(9, 9);
        graph.add_edge(9, 0);
        let before = named(&graph);
        assert!(graph.del_node_by_name(victim));
        let expected: HashSet<(String, String)> =
            before.iter().filter(|(a, b)| a != victim && b != victim).cloned().collect();
        assert_eq!(named(&graph), expected);
        assert_eq!(graph.node_names().len(), 9);
        assert!(graph.get_idx_by_name(victim).is_none());
        assert_consistent(&graph);
    }
}

#[test]
fn scenario_delete_edge_then_node() {
    let mut arena = ArenaList::new();
    let mut graph = Graph::new(&mut arena);
    fill(
        &mut graph,
        &[
            ("John", "Emma"),
            ("Sophia", "Tom"),
            ("Tom", "Isabella"),
            ("Tom", "Michael"),
            ("Michael", "Lucy"),
            ("Michael", "Daniel"),
            ("Sophia", "Michael"),
        ],
    );
    assert!(graph.del_edge_by_name("Michael", "Lucy"));
    let edges = named(&graph);
    assert!(!edges.contains(&pair("Michael", "Lucy")));
    assert!(edges.contains(&pair("Michael", "Daniel")));

    assert!(graph.del_node_by_name("Sophia"));
    assert_eq!(
        named(&graph),
        pairs(&[("John", "Emma"), ("Tom", "Isabella"), ("Tom", "Michael"), ("Michael", "Daniel")])
    );
    assert_eq!(graph.node_names(), vec!["John", "Emma", "Daniel", "Tom", "Isabella", "Michael", "Lucy"]);
    let edges: HashSet<(usize, usize)> = graph.get_all_edges().into_iter().collect();
    assert_eq!(edges, [(0, 1), (3, 4), (3, 5), (5, 2)].into_iter().collect());
    assert_consistent(&graph);
}

#[test]
fn downstream_on_a_cycle_ends_and_records_each_node_once() {
    let mut arena = ArenaList::new();
    let mut graph = Graph::new(&mut arena);
    fill(&mut graph, &[("a", "b"), ("b", "c"), ("c", "a"), ("a", "c")]);
    let levels = graph.get_downstream(vec![0], 10);
    assert_eq!(levels.len(), 2);
    assert_eq!(levels.get(&0), Some(&vec![0]));
    let mut second = levels.get(&1).unwrap().clone();
    second.sort();
    assert_eq!(second, vec![1, 2]);
    let mut seen = HashSet::new();
    for bucket in levels.values() {
        for idx in bucket {
            assert!(seen.insert(*idx));
        }
    }
}

#[test]
fn downstream_records_a_shared_successor_once() {
    let mut arena = ArenaList::new();
    let mut graph = Graph::new(&mut arena);
    fill(&mut graph, &[("a", "c"), ("b", "c"), ("c", "d")]);
    assert_eq!(graph.node_names(), vec!["a", "c", "b", "d"]);
    let levels = graph.get_downstream(vec![0, 2], 5);
    assert_eq!(levels.len(), 3);
    assert_eq!(levels.get(&0), Some(&vec![0, 2]));
    assert_eq!(levels.get(&1), Some(&vec![1]));
    assert_eq!(levels.get(&2), Some(&vec![3]));
}

#[test]
fn downstream_stops_at_the_hop_limit() {
    let mut arena = ArenaList::new();
    let mut graph = Graph::new(&mut arena);
    fill(&mut graph, &[("a", "b"), ("b", "c"), ("c", "d")]);
    assert!(graph.get_downstream(vec![0], 0).is_empty());
    let two = graph.get_downstream(vec![0], 2);
    assert_eq!(two.len(), 2);
    assert_eq!(two.get(&0), Some(&vec![0]));
    assert_eq!(two.get(&1), Some(&vec![1]));
    assert!(graph.get_downstream(Vec::new(), 5).is_empty());
    let unknown = graph.get_downstream(vec![17], 5);
    assert_eq!(unknown.len(), 1);
    assert_eq!(unknown.get(&0), Some(&vec![17]));
}

#[test]
fn shortest_distance_on_a_chain() {
    let mut arena = ArenaList::new();
    let mut graph = Graph::new(&mut arena);
    fill(&mut graph, &[("A", "B"), ("B", "C"), ("C", "D")]);
    let e = graph.add_node("E", "E".to_string());
    assert_eq!(e, 4);
    assert_eq!(graph.get_shortest(0, 3, 10), Some(3));
    assert_eq!(graph.get_shortest(0, 0, 10), Some(0));
    assert_eq!(graph.get_shortest(0, e, 10), None);
    assert_eq!(graph.get_shortest(3, 0, 10), None);
    assert_eq!(graph.get_shortest(0, 3, 4), Some(3));
    assert_eq!(graph.get_shortest(0, 3, 3), None);
    assert_eq!(graph.get_shortest(0, 0, 0), None);
    assert_eq!(graph.get_shortest(17, 17, 1), Some(0));
    assert_eq!(graph.get_shortest(17, 0, 5), None);
}

#[test]
fn shortest_distance_takes_the_shorter_of_two_ways() {
    let mut arena = ArenaList::new();
    let mut graph = Graph::new(&mut arena);
    fill(&mut graph, &[("a", "b"), ("b", "c"), ("c", "d"), ("a", "c"), ("d", "a")]);
    assert_eq!(graph.get_shortest(0, 3, 10), Some(2));
    assert_eq!(graph.get_shortest(3, 2, 10), Some(2));
    assert_eq!(graph.get_shortest(1, 0, 10), Some(3));
}

#[test]
fn save_and_load_leave_the_graph_alone() {
    let mut arena = ArenaList::new();
    let mut graph = Graph::new(&mut arena);
    fill(&mut graph, &[("a", "b")]);
    graph.save();
    graph.load();
    assert_eq!(graph.node_names(), vec!["a", "b"]);
    assert_eq!(graph.get_all_edges(), vec![(0, 1)]);
}
