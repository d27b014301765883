//! One simulation: a graph, its walkers, and the steps of a tick.

use vstd::prelude::*;
use crate::graph::{Graph, GraphModel};
use crate::lifecycle::{aged, stale_keys};
use crate::walker::{Mode, Walker};

verus! {

/// What settling a walker did.
#[derive(Clone, Copy, Debug, PartialEq, Eq, Structural)]
pub enum Event {
    /// No hop was due.
    Moving,
    /// The walker hopped onto a new edge.
    Hopped,
    /// A hop was due but its node had no neighbour left.
    Stranded,
}

/// A graph, the walkers on it, the hop count at which an edge breaks, and
/// the mode a walker falls into when it is stranded.
pub struct Sim {
    pub graph: Graph,
    pub walkers: Vec<Walker>,
    pub threshold: u64,
    pub stranded: Mode,
}

pub open spec fn all_within(walkers: Seq<Walker>, g: &Graph) -> bool {
    forall|i: int| 0 <= i < walkers.len() ==> (#[trigger] walkers[i]).within(g)
}

impl Sim {
    pub open spec fn wf(&self) -> bool {
        &&& self.graph.wf()
        &&& all_within(self.walkers@, &self.graph)
    }

    /// A simulation of the given parts; `None` when a walker refers to a
    /// node that the graph does not have.
    pub fn new(graph: Graph, walkers: Vec<Walker>, threshold: u64, stranded: Mode) -> (r: Option<Sim>)
        requires
            graph.wf(),
        ensures
            match r {
                Some(s) => {
                    &&& s.wf()
                    &&& s.graph == graph
                    &&& s.walkers@ == walkers@
                    &&& s.threshold == threshold
                    &&& s.stranded == stranded
                },
                None => !all_within(walkers@, &graph),
            },
    {
        let n = graph.node_count();
        let mut i: usize = 0;
        while i < walkers.len()
            invariant
                n == graph@.nodes,
                i <= walkers@.len(),
                forall|k: int| 0 <= k < i ==> (#[trigger] walkers@[k]).within(&graph),
            decreases walkers@.len() - i,
        {
            if walkers[i].src >= n || walkers[i].dest >= n {
                return None;
            }
            i = i + 1;
        }
        Some(Sim { graph, walkers, threshold, stranded })
    }

    /// A simulation with `count` walkers, each spawned at random on rails;
    /// `None` when a spawn draws a node that has no neighbour.
    pub fn spawn(graph: Graph, count: usize, threshold: u64, stranded: Mode) -> (r: Option<Sim>)
        requires
            graph.wf(),
        ensures
            match r {
                Some(s) => {
                    &&& s.wf()
                    &&& s.graph == graph
                    &&& s.walkers@.len() == count
                    &&& s.threshold == threshold
                    &&& s.stranded == stranded
                    &&& forall|i: int|
                        0 <= i < count ==> {
                            let w = #[trigger] s.walkers@[i];
                            &&& w.progress == 0
                            &&& w.mode == Mode::Rails
                            &&& graph@.adj[w.src as int].contains(w.dest)
                        }
                },
                None => count > 0 && (graph@.nodes == 0 || exists|v: int|
                    0 <= v < graph@.nodes && graph@.adj[v].len() == 0),
            },
    {
        let mut walkers: Vec<Walker> = Vec::new();
        let mut i: usize = 0;
        while i < count
            invariant
                graph.wf(),
                i <= count,
                walkers@.len() == i,
                all_within(walkers@, &graph),
                forall|k: int|
                    0 <= k < i ==> {
                        let w = #[trigger] walkers@[k];
                        &&& w.progress == 0
                        &&& w.mode == Mode::Rails
                        &&& graph@.adj[w.src as int].contains(w.dest)
                    },
            decreases count - i,
        {
            match Walker::spawn_random(&graph) {
                Some(w) => walkers.push(w),
                None => return None,
            }
            i = i + 1;
        }
        Some(Sim { graph, walkers, threshold, stranded })
    }

    /// The lifecycle step of a tick: stale edges break and rewire at random.
    pub fn age(&mut self)
        requires
            old(self).wf(),
        ensures
            final(self).wf(),
            final(self).walkers == old(self).walkers,
            final(self).threshold == old(self).threshold,
            final(self).stranded == old(self).stranded,
            final(self).graph@.nodes == old(self).graph@.nodes,
            exists|targets: Seq<usize>|
                {
                    &&& targets.len() == 2 * stale_keys(old(self).graph@.edges, old(self).threshold).len()
                    &&& forall|k: int| 0 <= k < targets.len() ==> #[trigger] targets[k] < old(self).graph@.nodes
                    &&& final(self).graph@ == aged(
                        old(self).graph@,
                        stale_keys(old(self).graph@.edges, old(self).threshold),
                        targets,
                    )
                },
            old(self).threshold > 0 ==> forall|i: int|
                0 <= i < final(self).graph@.edges.len() ==> (#[trigger] final(self).graph@.edges[i]).hop_count
                    < old(self).threshold,
    {
        self.graph.age_edges(self.threshold);
        assert(all_within(self.walkers@, &self.graph));
    }

    /// Moves walker `i` one step on and returns its new progress.
    pub fn advance_walker(&mut self, i: usize) -> (p: u64)
        requires
            old(self).wf(),
            i < old(self).walkers@.len(),
        ensures
            final(self).wf(),
            final(self).graph == old(self).graph,
            final(self).threshold == old(self).threshold,
            final(self).stranded == old(self).stranded,
            final(self).walkers@ == old(self).walkers@.update(
                i as int,
                Walker { progress: crate::graph::inc_sat(old(self).walkers@[i as int].progress), ..old(self).walkers@[i as int] },
            ),
            p == final(self).walkers@[i as int].progress,
    {
        let mut w = self.walkers[i];
        w.advance();
        self.walkers.set(i, w);
        assert(all_within(self.walkers@, &self.graph)) by {
            assert forall|k: int| 0 <= k < self.walkers@.len() implies (#[trigger] self.walkers@[k]).within(
                &self.graph,
            ) by {
                assert(old(self).walkers@[k].within(&self.graph));
            }
        }
        w.progress
    }

    /// Hops walker `i` if its hop is due, and counts the crossing on the
    /// edge between its new `src` and `dest`, probed in both orderings.
    pub fn settle_walker(&mut self, i: usize) -> (e: Event)
        requires
            old(self).wf(),
            i < old(self).walkers@.len(),
        ensures
            final(self).wf(),
            final(self).threshold == old(self).threshold,
            final(self).stranded == old(self).stranded,
            final(self).walkers@.len() == old(self).walkers@.len(),
            forall|k: int| 0 <= k < old(self).walkers@.len() && k != i ==> #[trigger] final(self).walkers@[k]
                == old(self).walkers@[k],
            ({
                let w = old(self).walkers@[i as int];
                let v = final(self).walkers@[i as int];
                let g: GraphModel = old(self).graph@;
                if w.progress < crate::walker::HOP_STEPS {
                    &&& e == Event::Moving
                    &&& v == w
                    &&& final(self).graph == old(self).graph
                } else if g.adj[w.dest as int].len() > 0 {
                    &&& e == Event::Hopped
                    &&& v.progress == 0
                    &&& v.src == w.dest
                    &&& v.mode == w.mode
                    &&& g.adj[v.src as int].contains(v.dest)
                    &&& final(self).graph@ == g.crossed(v.src, v.dest)
                } else {
                    &&& e == Event::Stranded
                    &&& v == (Walker { progress: 0, mode: old(self).stranded, ..w })
                    &&& final(self).graph@ == g.crossed(v.src, v.dest)
                }
            }),
    {
        let mut w = self.walkers[i];
        if !w.is_due() {
            return Event::Moving;
        }
        let deg = self.graph.degree(w.dest);
        w.hop_random(&self.graph, self.stranded);
        self.walkers.set(i, w);
        self.graph.record_hop(w.src, w.dest);
        assert(all_within(self.walkers@, &self.graph)) by {
            assert forall|k: int| 0 <= k < self.walkers@.len() implies (#[trigger] self.walkers@[k]).within(
                &self.graph,
            ) by {
                assert(old(self).walkers@[k].within(&old(self).graph));
            }
        }
        if deg > 0 {
            Event::Hopped
        } else {
            Event::Stranded
        }
    }
}

} // verus!
