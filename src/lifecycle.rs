//! The edge lifecycle: overused edges break and their ends are rewired.

use vstd::prelude::*;
use crate::chance::random_below;
use crate::graph::{Edge, Graph, GraphModel, is_key};

verus! {

/// The graph after the edge keyed `(s, d)` breaks and `s` is rewired to
/// `t1`, `d` to `t2`: the neighbour entries of `(s, d)` go first, then the
/// two fresh free edges `(s, t1)` and `(d, t2)` are inserted, and the record
/// keyed `(s, d)` is deleted last.
pub open spec fn rewired(g: GraphModel, s: usize, d: usize, t1: usize, t2: usize) -> GraphModel {
    g.unlinked(s, d).with_edge(s, t1, true).with_edge(d, t2, true).without_key(s, d)
}

/// Keys of the records whose hop count has reached `threshold`, in storage order.
pub open spec fn stale_keys(edges: Seq<Edge>, threshold: u64) -> Seq<(usize, usize)>
    decreases edges.len(),
{
    if edges.len() == 0 {
        Seq::empty()
    } else {
        let rest = stale_keys(edges.drop_last(), threshold);
        let e = edges.last();
        if e.hop_count >= threshold {
            rest.push((e.src, e.dest))
        } else {
            rest
        }
    }
}

/// The graph after each key of `keys` has broken in turn, the `k`-th being
/// rewired to `targets[2k]` and `targets[2k + 1]`.
pub open spec fn aged(g: GraphModel, keys: Seq<(usize, usize)>, targets: Seq<usize>) -> GraphModel
    decreases keys.len(),
{
    if keys.len() == 0 {
        g
    } else {
        aged(
            rewired(g, keys[0].0, keys[0].1, targets[0], targets[1]),
            keys.drop_first(),
            targets.subrange(2, targets.len() as int),
        )
    }
}

/// Every record that is at or over `threshold` has its key in `rest`.
pub open spec fn stale_within(g: GraphModel, threshold: u64, rest: Seq<(usize, usize)>) -> bool {
    forall|i: int|
        0 <= i < g.edges.len() && (#[trigger] g.edges[i]).hop_count >= threshold ==> rest.contains(
            (g.edges[i].src, g.edges[i].dest),
        )
}

pub proof fn lemma_rewired(g: GraphModel, s: usize, d: usize, t1: usize, t2: usize)
    requires
        g.wf(),
        g.has(s, d),
        t1 < g.nodes,
        t2 < g.nodes,
    ensures
        rewired(g, s, d, t1, t2).wf(),
        rewired(g, s, d, t1, t2).nodes == g.nodes,
        forall|x: usize, y: usize| #[trigger] rewired(g, s, d, t1, t2).has(x, y) <==> (g.has(x, y)
            || (x == s && y == t1) || (x == d && y == t2)) && !(x == s && y == d),
{
    let g1 = g.unlinked(s, d);
    crate::graph::lemma_unlinked(g, s, d);
    let g2 = g1.with_edge(s, t1, true);
    crate::graph::lemma_with_edge(g1, s, t1, true, s, d, true);
    let g3 = g2.with_edge(d, t2, true);
    crate::graph::lemma_with_edge(g2, d, t2, true, s, d, true);
    assert(g3.has(s, d));
    crate::graph::lemma_without_key(g3, s, d);
}

/// The stale keys are present, distinct, and cover every stale record.
pub proof fn lemma_stale_keys(g: GraphModel, threshold: u64)
    requires
        g.keys_unique(),
    ensures
        forall|j: int| 0 <= j < stale_keys(g.edges, threshold).len() ==> g.has(
            (#[trigger] stale_keys(g.edges, threshold)[j]).0,
            stale_keys(g.edges, threshold)[j].1,
        ),
        forall|i: int, j: int|
            0 <= i < j < stale_keys(g.edges, threshold).len() ==> #[trigger] stale_keys(g.edges, threshold)[i]
                != #[trigger] stale_keys(g.edges, threshold)[j],
        stale_within(g, threshold, stale_keys(g.edges, threshold)),
    decreases g.edges.len(),
{
    let r = stale_keys(g.edges, threshold);
    if g.edges.len() > 0 {
        let p = GraphModel { edges: g.edges.drop_last(), ..g };
        let n = g.edges.len() - 1;
        assert forall|i: int, j: int| 0 <= i < p.edges.len() && 0 <= j < p.edges.len() && i != j implies !is_key(
            #[trigger] p.edges[i],
            #[trigger] p.edges[j].src,
            p.edges[j].dest,
        ) by {
            assert(!is_key(g.edges[i], g.edges[j].src, g.edges[j].dest));
        }
        lemma_stale_keys(p, threshold);
        let q = stale_keys(p.edges, threshold);
        let e = g.edges.last();
        assert forall|j: int| 0 <= j < q.len() implies g.has(q[j].0, q[j].1) && q[j] != (e.src, e.dest) by {
            assert(p.has(q[j].0, q[j].1));
            let i = choose|i: int| 0 <= i < p.edges.len() && is_key(p.edges[i], q[j].0, q[j].1);
            assert(is_key(g.edges[i], q[j].0, q[j].1));
            assert(!is_key(g.edges[i], g.edges[n].src, g.edges[n].dest));
        }
        assert(is_key(g.edges[n], e.src, e.dest));
        assert forall|i: int|
            0 <= i < g.edges.len() && (#[trigger] g.edges[i]).hop_count >= threshold implies r.contains(
                (g.edges[i].src, g.edges[i].dest),
            ) by {
            if i < n {
                assert(p.edges[i] == g.edges[i]);
                let k = choose|k: int| 0 <= k < q.len() && q[k] == (p.edges[i].src, p.edges[i].dest);
                assert(r[k] == q[k]);
            } else {
                assert(r[r.len() - 1] == (e.src, e.dest));
            }
        }
    }
}

/// Inserting a fresh edge adds no stale record.
pub proof fn lemma_stale_with_edge(g: GraphModel, threshold: u64, rest: Seq<(usize, usize)>, a: usize, b: usize, free: bool)
    requires
        threshold > 0,
        stale_within(g, threshold, rest),
    ensures
        stale_within(g.with_edge(a, b, free), threshold, rest),
{
    let h = g.with_edge(a, b, free);
    assert forall|i: int|
        0 <= i < h.edges.len() && (#[trigger] h.edges[i]).hop_count >= threshold implies rest.contains(
            (h.edges[i].src, h.edges[i].dest),
        ) by {
        assert(h.edges[i] == g.edges[i]);
    }
}

/// Deleting the record of the first key in `rest` leaves the others.
pub proof fn lemma_stale_without_key(g: GraphModel, threshold: u64, rest: Seq<(usize, usize)>)
    requires
        rest.len() > 0,
        g.keys_unique(),
        g.has(rest[0].0, rest[0].1),
        stale_within(g, threshold, rest),
    ensures
        stale_within(g.without_key(rest[0].0, rest[0].1), threshold, rest.drop_first()),
{
    let (s, d) = rest[0];
    let h = g.without_key(s, d);
    let k = g.slot(s, d);
    assert(is_key(g.edges[k], s, d));
    assert forall|i: int|
        0 <= i < h.edges.len() && (#[trigger] h.edges[i]).hop_count >= threshold implies rest.drop_first().contains(
            (h.edges[i].src, h.edges[i].dest),
        ) by {
        let i2 = if i < k { i } else { i + 1 };
        assert(h.edges[i] == g.edges[i2]);
        assert(!is_key(g.edges[i2], g.edges[k].src, g.edges[k].dest));
        let m = choose|m: int| 0 <= m < rest.len() && rest[m] == (g.edges[i2].src, g.edges[i2].dest);
        assert(rest.drop_first()[m - 1] == rest[m]);
    }
}

/// How the edge count moves when a break rewires to two keys that were absent.
pub proof fn lemma_rewired_count(g: GraphModel, s: usize, d: usize, t1: usize, t2: usize)
    requires
        g.wf(),
        g.has(s, d),
        t1 < g.nodes,
        t2 < g.nodes,
        !g.has(s, t1),
        !g.has(d, t2),
        !(s == d && t1 == t2),
    ensures
        rewired(g, s, d, t1, t2).edges.len() == g.edges.len() + 1,
{
    let g1 = g.unlinked(s, d);
    crate::graph::lemma_unlinked(g, s, d);
    let g2 = g1.with_edge(s, t1, true);
    crate::graph::lemma_with_edge(g1, s, t1, true, s, d, true);
    let g3 = g2.with_edge(d, t2, true);
    crate::graph::lemma_with_edge(g2, d, t2, true, s, d, true);
    crate::graph::lemma_without_key(g3, s, d);
}

/// The law of a single break: when exactly one record is stale and the two
/// keys it is rewired to were absent and differ, the edge map grows by one.
pub proof fn lemma_single_break_grows(g: Graph, threshold: u64, t1: usize, t2: usize)
    requires
        g.wf(),
        stale_keys(g@.edges, threshold).len() == 1,
        t1 < g@.nodes,
        t2 < g@.nodes,
        !g@.has(stale_keys(g@.edges, threshold)[0].0, t1),
        !g@.has(stale_keys(g@.edges, threshold)[0].1, t2),
        (stale_keys(g@.edges, threshold)[0].0, t1) != (stale_keys(g@.edges, threshold)[0].1, t2),
    ensures
        aged(g@, stale_keys(g@.edges, threshold), seq![t1, t2]).edges.len() == g@.edges.len() + 1,
{
    let keys = stale_keys(g@.edges, threshold);
    lemma_stale_keys(g@, threshold);
    let (s, d) = keys[0];
    assert(g@.has(keys[0].0, keys[0].1));
    lemma_rewired_count(g@, s, d, t1, t2);
    let r = rewired(g@, s, d, t1, t2);
    assert(aged(r, keys.drop_first(), seq![t1, t2].subrange(2, 2)) == r);
}

/// One break keeps every later stale key in place and accounted for.
pub proof fn lemma_rewired_step(
    g: GraphModel,
    threshold: u64,
    rest: Seq<(usize, usize)>,
    t1: usize,
    t2: usize,
)
    requires
        g.wf(),
        rest.len() > 0,
        forall|j: int| 0 <= j < rest.len() ==> g.has((#[trigger] rest[j]).0, rest[j].1),
        forall|i: int, j: int| 0 <= i < j < rest.len() ==> #[trigger] rest[i] != #[trigger] rest[j],
        threshold > 0 ==> stale_within(g, threshold, rest),
        t1 < g.nodes,
        t2 < g.nodes,
    ensures
        ({
            let h = rewired(g, rest[0].0, rest[0].1, t1, t2);
            &&& h.wf()
            &&& h.nodes == g.nodes
            &&& forall|j: int| 0 <= j < rest.drop_first().len() ==> h.has(
                (#[trigger] rest.drop_first()[j]).0,
                rest.drop_first()[j].1,
            )
            &&& threshold > 0 ==> stale_within(h, threshold, rest.drop_first())
        }),
{
    let (s, d) = rest[0];
    assert(g.has(rest[0].0, rest[0].1));
    lemma_rewired(g, s, d, t1, t2);
    let h = rewired(g, s, d, t1, t2);
    assert forall|j: int| 0 <= j < rest.drop_first().len() implies h.has(
        (#[trigger] rest.drop_first()[j]).0,
        rest.drop_first()[j].1,
    ) by {
        assert(rest.drop_first()[j] == rest[j + 1]);
        assert(rest[0] != rest[j + 1]);
        assert(g.has(rest[j + 1].0, rest[j + 1].1));
    }
    if threshold > 0 {
        let g1 = g.unlinked(s, d);
        crate::graph::lemma_unlinked(g, s, d);
        let g2 = g1.with_edge(s, t1, true);
        crate::graph::lemma_with_edge(g1, s, t1, true, s, d, true);
        let g3 = g2.with_edge(d, t2, true);
        crate::graph::lemma_with_edge(g2, d, t2, true, s, d, true);
        assert(stale_within(g1, threshold, rest));
        lemma_stale_with_edge(g1, threshold, rest, s, t1, true);
        lemma_stale_with_edge(g2, threshold, rest, d, t2, true);
        lemma_stale_without_key(g3, threshold, rest);
    }
}

impl Graph {
    /// Breaks the edge keyed `(s, d)` and rewires its ends: `s` to `t1` and
    /// `d` to `t2`, each by a fresh free edge.
    pub fn break_edge(&mut self, s: usize, d: usize, t1: usize, t2: usize)
        requires
            old(self).wf(),
            old(self)@.has(s, d),
            t1 < old(self)@.nodes,
            t2 < old(self)@.nodes,
        ensures
            final(self).wf(),
            final(self)@ == rewired(old(self)@, s, d, t1, t2),
    {
        proof {
            lemma_rewired(self@, s, d, t1, t2);
            crate::graph::lemma_unlinked(self@, s, d);
            crate::graph::lemma_with_edge(self@.unlinked(s, d), s, t1, true, s, d, true);
            let i = self@.slot(s, d);
            assert(self@.edges[i].src < self@.nodes);
        }
        self.drop_neighbor(s, d);
        self.drop_neighbor(d, s);
        assert(self@ == old(self)@.unlinked(s, d));
        self.put_edge(s, t1, true);
        self.put_edge(d, t2, true);
        self.drop_key(s, d);
    }

    /// Keys of the records whose hop count has reached `threshold`, taken as
    /// a snapshot in storage order.
    pub fn stale_edges(&self, threshold: u64) -> (r: Vec<(usize, usize)>)
        ensures
            r@ == stale_keys(self@.edges, threshold),
    {
        let mut out: Vec<(usize, usize)> = Vec::new();
        let mut i: usize = 0;
        while i < self.edge_count()
            invariant
                i <= self@.edges.len(),
                out@ == stale_keys(self@.edges.subrange(0, i as int), threshold),
            decreases self@.edges.len() - i,
        {
            let e = self.edge_at(i);
            assert(self@.edges.subrange(0, i + 1).drop_last() =~= self@.edges.subrange(0, i as int));
            if e.hop_count >= threshold {
                out.push((e.src, e.dest));
            }
            i = i + 1;
        }
        assert(self@.edges.subrange(0, i as int) =~= self@.edges);
        out
    }
    /// One tick of the lifecycle with given rewiring targets: the stale keys
    /// are snapshotted first, then each breaks in turn, the `k`-th being
    /// rewired to `targets[2k]` and `targets[2k + 1]`. Afterwards no record
    /// is at or over a positive threshold.
    pub fn age_edges_with(&mut self, threshold: u64, targets: &Vec<usize>)
        requires
            old(self).wf(),
            targets@.len() == 2 * stale_keys(old(self)@.edges, threshold).len(),
            forall|k: int| 0 <= k < targets@.len() ==> #[trigger] targets@[k] < old(self)@.nodes,
        ensures
            final(self).wf(),
            final(self)@ == aged(old(self)@, stale_keys(old(self)@.edges, threshold), targets@),
            final(self)@.nodes == old(self)@.nodes,
            threshold > 0 ==> forall|i: int|
                0 <= i < final(self)@.edges.len() ==> (#[trigger] final(self)@.edges[i]).hop_count < threshold,
    {
        let keys = self.stale_edges(threshold);
        proof {
            lemma_stale_keys(self@, threshold);
            assert(keys@.subrange(0, keys@.len() as int) =~= keys@);
            assert(targets@.subrange(0, targets@.len() as int) =~= targets@);
        }
        let ghost g0 = self@;
        let tl = targets.len();
        let mut k: usize = 0;
        while k < keys.len()
            invariant
                self.wf(),
                self@.nodes == g0.nodes,
                keys@ == stale_keys(g0.edges, threshold),
                targets@.len() == 2 * keys@.len(),
                tl == targets@.len(),
                forall|m: int| 0 <= m < targets@.len() ==> #[trigger] targets@[m] < g0.nodes,
                forall|i: int, j: int| 0 <= i < j < keys@.len() ==> #[trigger] keys@[i] != #[trigger] keys@[j],
                k <= keys@.len(),
                aged(g0, keys@, targets@) == aged(
                    self@,
                    keys@.subrange(k as int, keys@.len() as int),
                    targets@.subrange(2 * k, targets@.len() as int),
                ),
                forall|j: int| k <= j < keys@.len() ==> self@.has((#[trigger] keys@[j]).0, keys@[j].1),
                threshold > 0 ==> stale_within(self@, threshold, keys@.subrange(k as int, keys@.len() as int)),
            decreases keys@.len() - k,
        {
            let (s, d) = keys[k];
            let t1 = targets[2 * k];
            let t2 = targets[2 * k + 1];
            let ghost rest = keys@.subrange(k as int, keys@.len() as int);
            let ghost ts = targets@.subrange(2 * k, targets@.len() as int);
            proof {
                assert(rest[0] == (s, d));
                assert(ts[0] == t1 && ts[1] == t2);
                assert forall|j: int| 0 <= j < rest.len() implies self@.has((#[trigger] rest[j]).0, rest[j].1) by {
                    assert(rest[j] == keys@[k + j]);
                }
                assert forall|i: int, j: int| 0 <= i < j < rest.len() implies #[trigger] rest[i] != #[trigger] rest[j] by {
                    assert(rest[i] == keys@[k + i] && rest[j] == keys@[k + j]);
                }
                lemma_rewired_step(self@, threshold, rest, t1, t2);
                assert(rest.drop_first() =~= keys@.subrange(k + 1, keys@.len() as int));
                assert(ts.subrange(2, ts.len() as int) =~= targets@.subrange(2 * k + 2, targets@.len() as int));
            }
            self.break_edge(s, d, t1, t2);
            k = k + 1;
            proof {
                assert forall|j: int| k <= j < keys@.len() implies self@.has((#[trigger] keys@[j]).0, keys@[j].1) by {
                    assert(keys@.subrange(k as int, keys@.len() as int)[j - k] == keys@[j]);
                }
            }
        }
        proof {
            let rest = keys@.subrange(k as int, keys@.len() as int);
            assert(rest.len() == 0);
            if threshold > 0 {
                assert forall|i: int| 0 <= i < self@.edges.len() implies (#[trigger] self@.edges[i]).hop_count < threshold by {
                    if self@.edges[i].hop_count >= threshold {
                        assert(rest.contains((self@.edges[i].src, self@.edges[i].dest)));
                    }
                }
            }
        }
    }

    /// One tick of the lifecycle with targets drawn uniformly at random over
    /// all nodes, two per stale record.
    pub fn age_edges(&mut self, threshold: u64)
        requires
            old(self).wf(),
        ensures
            final(self).wf(),
            final(self)@.nodes == old(self)@.nodes,
            exists|targets: Seq<usize>|
                {
                    &&& targets.len() == 2 * stale_keys(old(self)@.edges, threshold).len()
                    &&& forall|k: int| 0 <= k < targets.len() ==> #[trigger] targets[k] < old(self)@.nodes
                    &&& final(self)@ == aged(old(self)@, stale_keys(old(self)@.edges, threshold), targets)
                },
            threshold > 0 ==> forall|i: int|
                0 <= i < final(self)@.edges.len() ==> (#[trigger] final(self)@.edges[i]).hop_count < threshold,
    {
        let keys = self.stale_edges(threshold);
        let n = self.node_count();
        proof {
            lemma_stale_keys(self@, threshold);
        }
        let mut targets: Vec<usize> = Vec::new();
        let mut k: usize = 0;
        while k < keys.len()
            invariant
                self.wf(),
                n == self@.nodes,
                keys@ == stale_keys(self@.edges, threshold),
                forall|j: int| 0 <= j < keys@.len() ==> self@.has((#[trigger] keys@[j]).0, keys@[j].1),
                k <= keys@.len(),
                targets@.len() == 2 * k,
                forall|m: int| 0 <= m < targets@.len() ==> #[trigger] targets@[m] < n,
            decreases keys@.len() - k,
        {
            proof {
                assert(self@.has(keys@[k as int].0, keys@[k as int].1));
                let i = self@.slot(keys@[k as int].0, keys@[k as int].1);
                assert(self@.edges[i].src < self@.nodes);
            }
            targets.push(random_below(n));
            targets.push(random_below(n));
            k = k + 1;
        }
        self.age_edges_with(threshold, &targets);
        assert(targets@.len() == 2 * stale_keys(old(self)@.edges, threshold).len());
    }
}

} // verus!
