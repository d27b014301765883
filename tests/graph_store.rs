use beams::graph::{Edge, Graph, LoadError};

fn ring(n: usize) -> Vec<(usize, usize)> {
    let mut rows = Vec::new();
    for i in 0..n {
        rows.push((i, (i + 1) % n));
    }
    rows
}

fn entry_total(g: &Graph) -> usize {
    let mut total = 0;
    for v in 0..g.node_count() {
        total += g.degree(v);
    }
    total
}

fn assert_mirrored(g: &Graph) {
    for i in 0..g.edge_count() {
        let e = g.edge_at(i);
        assert!(g.neighbors_of(e.src).contains(&e.dest));
        assert!(g.neighbors_of(e.dest).contains(&e.src));
    }
}

#[test]
fn load_fifty_nodes_fifty_edges_lists_each_connection_twice() {
    let g = Graph::load(50, &ring(50)).unwrap();
    assert_eq!(g.node_count(), 50);
    assert_eq!(g.edge_count(), 50);
    assert_eq!(entry_total(&g), 100);
    assert_mirrored(&g);
}

#[test]
fn load_starts_edges_fresh_and_not_free() {
    let g = Graph::load(3, &vec![(0, 1), (1, 2)]).unwrap();
    assert_eq!(g.edge_at(0), Edge { src: 0, dest: 1, hop_count: 0, free: false });
    assert_eq!(g.edge_at(1), Edge { src: 1, dest: 2, hop_count: 0, free: false });
    assert_eq!(g.neighbors_of(1), vec![0, 2]);
}

#[test]
fn load_skips_a_repeated_key_but_keeps_the_reverse_one() {
    let g = Graph::load(2, &vec![(0, 1), (0, 1), (1, 0)]).unwrap();
    assert_eq!(g.edge_count(), 2);
    assert_eq!(g.neighbors_of(0), vec![1, 1]);
    assert_eq!(g.neighbors_of(1), vec![0, 0]);
    assert_eq!(entry_total(&g), 4);
}

#[test]
fn load_rejects_the_first_row_out_of_range() {
    let r = Graph::load(3, &vec![(0, 1), (1, 3), (5, 0)]);
    assert_eq!(r.err(), Some(LoadError::NodeOutOfRange { row: 1 }));
    let r = Graph::load(3, &vec![(7, 1)]);
    assert_eq!(r.err(), Some(LoadError::NodeOutOfRange { row: 0 }));
}

#[test]
fn load_of_empty_table() {
    let g = Graph::load(4, &vec![]).unwrap();
    assert_eq!(g.edge_count(), 0);
    assert_eq!(entry_total(&g), 0);
    let g = Graph::load(0, &vec![]).unwrap();
    assert_eq!(g.node_count(), 0);
}

#[test]
fn insert_overwrites_a_present_key_and_appends_again() {
    let mut g = Graph::load(3, &vec![(0, 1)]).unwrap();
    g.record_hop(0, 1);
    assert_eq!(g.edge_at(0).hop_count, 1);
    g.insert_edge(0, 1, true);
    assert_eq!(g.edge_count(), 1);
    assert_eq!(g.edge_at(0), Edge { src: 0, dest: 1, hop_count: 0, free: true });
    assert_eq!(g.neighbors_of(0), vec![1, 1]);
    assert_mirrored(&g);
}

#[test]
fn insert_self_loop_lists_the_node_twice() {
    let mut g = Graph::new(2);
    g.insert_edge(1, 1, false);
    assert_eq!(g.neighbors_of(1), vec![1, 1]);
    assert_eq!(g.degree(0), 0);
}

#[test]
fn remove_edge_drops_first_match_only() {
    let mut g = Graph::load(3, &vec![(0, 1), (1, 0), (1, 2)]).unwrap();
    assert_eq!(g.neighbors_of(1), vec![0, 0, 2]);
    g.remove_edge(0, 1);
    assert_eq!(g.edge_count(), 2);
    assert_eq!(g.find_edge(0, 1), None);
    assert_eq!(g.neighbors_of(0), vec![1]);
    assert_eq!(g.neighbors_of(1), vec![0, 2]);
    assert_mirrored(&g);
    g.remove_edge(0, 2);
    assert_eq!(g.edge_count(), 2);
}

#[test]
fn record_hop_probes_both_orderings() {
    let mut g = Graph::load(3, &vec![(0, 1), (2, 1)]).unwrap();
    g.record_hop(1, 0);
    g.record_hop(1, 2);
    g.record_hop(0, 2);
    assert_eq!(g.get_edge(0, 1).unwrap().hop_count, 1);
    assert_eq!(g.get_edge(2, 1).unwrap().hop_count, 1);
    assert_eq!(g.get_edge(1, 0), None);
}

#[test]
fn record_hop_counts_a_self_loop_twice() {
    let mut g = Graph::load(1, &vec![(0, 0)]).unwrap();
    g.record_hop(0, 0);
    assert_eq!(g.edge_at(0).hop_count, 2);
}
