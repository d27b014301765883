use beams::graph::{Edge, Graph};
use beams::sim::{Event, Sim};
use beams::walker::{Mode, Walker, HOP_STEPS};

fn assert_mirrored(g: &Graph) {
    for i in 0..g.edge_count() {
        let e = g.edge_at(i);
        assert!(g.neighbors_of(e.src).contains(&e.dest));
        assert!(g.neighbors_of(e.dest).contains(&e.src));
    }
}

#[test]
fn break_and_rewire_after_two_hops() {
    let g = Graph::load(3, &vec![(0, 1), (1, 2)]).unwrap();
    let w = Walker { src: 1, dest: 0, progress: HOP_STEPS - 1, mode: Mode::Rails };
    let mut sim = Sim::new(g, vec![w], 2, Mode::Free).unwrap();

    assert_eq!(sim.advance_walker(0), HOP_STEPS);
    assert_eq!(sim.settle_walker(0), Event::Hopped);
    assert_eq!(sim.walkers[0], Walker { src: 0, dest: 1, progress: 0, mode: Mode::Rails });
    assert_eq!(sim.graph.get_edge(0, 1).unwrap().hop_count, 1);

    let mut w = sim.walkers[0];
    w.progress = HOP_STEPS;
    w.hop(&sim.graph, 0, Mode::Free);
    assert_eq!(w, Walker { src: 1, dest: 0, progress: 0, mode: Mode::Rails });
    sim.graph.record_hop(w.src, w.dest);
    assert_eq!(sim.graph.get_edge(0, 1).unwrap().hop_count, 2);

    assert_eq!(sim.graph.stale_edges(2), vec![(0, 1)]);
    sim.graph.age_edges_with(2, &vec![2, 1]);
    assert_eq!(sim.graph.get_edge(0, 1), None);
    assert!(!sim.graph.neighbors_of(0).contains(&1));
    assert!(!sim.graph.neighbors_of(1).contains(&0));
    assert_eq!(sim.graph.get_edge(0, 2), Some(Edge { src: 0, dest: 2, hop_count: 0, free: true }));
    assert_eq!(sim.graph.get_edge(1, 1), Some(Edge { src: 1, dest: 1, hop_count: 0, free: true }));
    assert_eq!(sim.graph.edge_count(), 3);
    assert_mirrored(&sim.graph);
}

#[test]
fn single_break_grows_the_edge_map_by_one() {
    let mut g = Graph::load(4, &vec![(0, 1), (1, 2), (2, 3)]).unwrap();
    for _ in 0..5 {
        g.record_hop(1, 2);
    }
    g.record_hop(0, 1);
    assert_eq!(g.stale_edges(5), vec![(1, 2)]);
    g.break_edge(1, 2, 3, 0);
    assert_eq!(g.edge_count(), 4);
    assert_eq!(g.get_edge(1, 2), None);
    assert_eq!(g.get_edge(1, 3).unwrap().free, true);
    assert_eq!(g.get_edge(2, 0).unwrap().hop_count, 0);
    assert_eq!(g.neighbors_of(1), vec![0, 3]);
    assert_eq!(g.neighbors_of(2), vec![3, 0]);
    assert_mirrored(&g);
}

#[test]
fn break_rewired_onto_its_own_key_removes_it() {
    let mut g = Graph::load(2, &vec![(0, 1)]).unwrap();
    g.break_edge(0, 1, 1, 1);
    assert_eq!(g.get_edge(0, 1), None);
    assert_eq!(g.edge_at(0), Edge { src: 1, dest: 1, hop_count: 0, free: true });
    assert_eq!(g.edge_count(), 1);
    assert_mirrored(&g);
}

#[test]
fn aging_below_threshold_changes_nothing() {
    let mut g = Graph::load(3, &vec![(0, 1), (1, 2)]).unwrap();
    g.record_hop(0, 1);
    assert_eq!(g.stale_edges(2), Vec::<(usize, usize)>::new());
    g.age_edges_with(2, &vec![]);
    assert_eq!(g.edge_count(), 2);
    assert_eq!(g.get_edge(0, 1).unwrap().hop_count, 1);
}

#[test]
fn aging_at_random_leaves_no_stale_edge() {
    let mut g = Graph::load(6, &vec![(0, 1), (1, 2), (2, 3), (3, 4), (4, 5)]).unwrap();
    for _ in 0..3 {
        g.record_hop(0, 1);
        g.record_hop(3, 4);
    }
    assert_eq!(g.stale_edges(3), vec![(0, 1), (3, 4)]);
    g.age_edges(3);
    for i in 0..g.edge_count() {
        let e = g.edge_at(i);
        assert!(e.hop_count < 3);
        assert!(e.src < 6 && e.dest < 6);
    }
    assert_eq!(g.stale_edges(1).len(), 0);
    assert_mirrored(&g);
    assert!(g.edge_count() >= 5);
}

#[test]
fn hop_resets_progress_and_follows_a_neighbour() {
    let g = Graph::load(4, &vec![(0, 1), (1, 2), (3, 1)]).unwrap();
    let mut w = Walker { src: 0, dest: 1, progress: 30, mode: Mode::Rails };
    let before = g.neighbors_of(1);
    w.hop(&g, 2, Mode::Free);
    assert_eq!(w.progress, 0);
    assert_eq!(w.src, 1);
    assert_eq!(w.dest, 3);
    assert!(before.contains(&w.dest));
}

#[test]
fn random_hop_stays_on_the_graph() {
    let g = Graph::load(4, &vec![(0, 1), (1, 2), (3, 1)]).unwrap();
    for _ in 0..20 {
        let mut w = Walker { src: 0, dest: 1, progress: 25, mode: Mode::Rails };
        w.hop_random(&g, Mode::Free);
        assert_eq!(w.progress, 0);
        assert_eq!(w.src, 1);
        assert!(g.neighbors_of(1).contains(&w.dest));
    }
}

#[test]
fn isolated_node_strands_the_walker() {
    let mut g = Graph::load(3, &vec![(0, 1), (1, 2)]).unwrap();
    g.remove_edge(0, 1);
    assert_eq!(g.degree(0), 0);
    let w = Walker { src: 1, dest: 0, progress: HOP_STEPS, mode: Mode::Rails };
    let mut sim = Sim::new(g, vec![w], 5, Mode::Core).unwrap();
    assert_eq!(sim.settle_walker(0), Event::Stranded);
    assert_eq!(sim.walkers[0], Walker { src: 1, dest: 0, progress: 0, mode: Mode::Core });
    assert!(sim.walkers[0].dest < sim.graph.node_count());
    assert_eq!(sim.settle_walker(0), Event::Moving);
}

#[test]
fn advance_counts_steps_until_due() {
    let mut w = Walker { src: 0, dest: 1, progress: 0, mode: Mode::Rails };
    for _ in 0..HOP_STEPS - 1 {
        w.advance();
        assert!(!w.is_due());
    }
    w.advance();
    assert!(w.is_due());
    let mut top = Walker { src: 0, dest: 1, progress: u64::MAX, mode: Mode::Free };
    top.advance();
    assert_eq!(top.progress, u64::MAX);
}

#[test]
fn spawn_places_walkers_on_edges() {
    let g = Graph::load(5, &vec![(0, 1), (1, 2), (2, 3), (3, 4), (4, 0)]).unwrap();
    let sim = Sim::spawn(g, 40, 5, Mode::Free).unwrap();
    assert_eq!(sim.walkers.len(), 40);
    for w in sim.walkers.iter() {
        assert!(w.src < 5);
        assert!(sim.graph.neighbors_of(w.src).contains(&w.dest));
        assert_eq!(w.progress, 0);
        assert_eq!(w.mode, Mode::Rails);
    }
}

#[test]
fn spawn_fails_on_a_graph_without_neighbours() {
    let g = Graph::new(3);
    assert!(Sim::spawn(g, 1, 5, Mode::Free).is_none());
    let g = Graph::new(3);
    assert!(Sim::spawn(g, 0, 5, Mode::Free).is_some());
}

#[test]
fn sim_new_rejects_a_walker_off_the_graph() {
    let g = Graph::load(2, &vec![(0, 1)]).unwrap();
    let w = Walker { src: 0, dest: 2, progress: 0, mode: Mode::Rails };
    assert!(Sim::new(g, vec![w], 5, Mode::Free).is_none());
}

#[test]
fn ticks_keep_the_neighbour_index_mirrored() {
    let g = Graph::load(8, &vec![(0, 1), (1, 2), (2, 3), (3, 4), (4, 5), (5, 6), (6, 7), (7, 0), (0, 4)]).unwrap();
    let mut sim = Sim::spawn(g, 30, 3, Mode::Free).unwrap();
    assert_mirrored(&sim.graph);
    for _ in 0..200 {
        sim.age();
        assert_mirrored(&sim.graph);
        for i in 0..sim.walkers.len() {
            sim.advance_walker(i);
            sim.settle_walker(i);
            let w = sim.walkers[i];
            assert!(w.src < 8 && w.dest < 8);
        }
        assert_mirrored(&sim.graph);
    }
}
