//! Walkers: entities that hop from node to node along the graph.

use vstd::prelude::*;
use crate::chance::random_below;
use crate::graph::{Graph, inc_sat};

verus! {

/// Progress is counted in steps; a hop is due once this many have passed.
pub const HOP_STEPS: u64 = 25;

/// How a walker moves.
#[derive(Clone, Copy, Debug, PartialEq, Eq, Structural)]
pub enum Mode {
    /// Along the edge from `src` to `dest`.
    Rails,
    /// Drifting without a graph anchor.
    Free,
    /// Drawn towards the origin.
    Core,
}

/// An entity walking the graph from node `src` towards node `dest`.
#[derive(Clone, Copy, Debug, PartialEq, Eq, Structural)]
pub struct Walker {
    pub src: usize,
    pub dest: usize,
    pub progress: u64,
    pub mode: Mode,
}

impl Walker {
    /// Both nodes the walker refers to exist in `g`.
    pub open spec fn within(&self, g: &Graph) -> bool {
        self.src < g@.nodes && self.dest < g@.nodes
    }

    /// A walker on rails from `start` towards the `choice`-th entry of its
    /// neighbour list.
    pub fn spawn(g: &Graph, start: usize, choice: usize) -> (w: Walker)
        requires
            g.wf(),
            start < g@.nodes,
            choice < g@.adj[start as int].len(),
        ensures
            w == (Walker { src: start, dest: g@.adj[start as int][choice as int], progress: 0, mode: Mode::Rails }),
            w.within(g),
    {
        let dest = g.neighbor(start, choice);
        Walker { src: start, dest, progress: 0, mode: Mode::Rails }
    }

    /// A walker on rails from a node drawn at random, towards a neighbour
    /// drawn at random; `None` when the graph has no nodes or the drawn node
    /// has no neighbour.
    pub fn spawn_random(g: &Graph) -> (r: Option<Walker>)
        requires
            g.wf(),
        ensures
            match r {
                Some(w) => {
                    &&& w.within(g)
                    &&& w.progress == 0
                    &&& w.mode == Mode::Rails
                    &&& g@.adj[w.src as int].contains(w.dest)
                },
                None => g@.nodes == 0 || exists|v: int| 0 <= v < g@.nodes && g@.adj[v].len() == 0,
            },
    {
        let n = g.node_count();
        if n == 0 {
            return None;
        }
        let start = random_below(n);
        let deg = g.degree(start);
        if deg == 0 {
            return None;
        }
        let choice = random_below(deg);
        let w = Walker::spawn(g, start, choice);
        assert(g@.adj[start as int][choice as int] == w.dest);
        Some(w)
    }

    /// One step further along: progress grows by one (saturating).
    pub fn advance(&mut self)
        ensures
            *final(self) == (Walker { progress: inc_sat(old(self).progress), ..*old(self) }),
    {
        if self.progress < u64::MAX {
            self.progress = self.progress + 1;
        }
    }

    /// Whether progress has reached the hop point.
    pub fn is_due(&self) -> (r: bool)
        ensures
            r == (self.progress >= HOP_STEPS),
    {
        self.progress >= HOP_STEPS
    }

    /// Hops from `dest` to the `choice`-th entry of its neighbour list:
    /// `src` becomes the old `dest`, and progress starts again from zero. When
    /// `dest` has no neighbour left, the walker stays where it refers and
    /// switches to `stranded` instead, also from zero.
    pub fn hop(&mut self, g: &Graph, choice: usize, stranded: Mode)
        requires
            g.wf(),
            old(self).within(g),
            g@.adj[old(self).dest as int].len() > 0 ==> choice < g@.adj[old(self).dest as int].len(),
        ensures
            final(self).within(g),
            final(self).progress == 0,
            g@.adj[old(self).dest as int].len() > 0 ==> *final(self) == (Walker {
                src: old(self).dest,
                dest: g@.adj[old(self).dest as int][choice as int],
                progress: 0,
                mode: old(self).mode,
            }),
            g@.adj[old(self).dest as int].len() > 0 ==> g@.adj[final(self).src as int].contains(
                final(self).dest,
            ),
            g@.adj[old(self).dest as int].len() == 0 ==> *final(self) == (Walker {
                progress: 0,
                mode: stranded,
                ..*old(self)
            }),
    {
        if g.degree(self.dest) > 0 {
            let next = g.neighbor(self.dest, choice);
            self.src = self.dest;
            self.dest = next;
            assert(g@.adj[self.src as int][choice as int] == next);
        } else {
            self.mode = stranded;
        }
        self.progress = 0;
    }

    /// Hops as `hop` does, towards a neighbour drawn uniformly at random.
    pub fn hop_random(&mut self, g: &Graph, stranded: Mode)
        requires
            g.wf(),
            old(self).within(g),
        ensures
            final(self).within(g),
            final(self).progress == 0,
            g@.adj[old(self).dest as int].len() > 0 ==> {
                &&& final(self).src == old(self).dest
                &&& final(self).mode == old(self).mode
                &&& g@.adj[final(self).src as int].contains(final(self).dest)
            },
            g@.adj[old(self).dest as int].len() == 0 ==> *final(self) == (Walker {
                progress: 0,
                mode: stranded,
                ..*old(self)
            }),
    {
        let deg = g.degree(self.dest);
        let choice = if deg > 0 { random_below(deg) } else { 0 };
        self.hop(g, choice, stranded);
    }
}

} // verus!
