//! The graph store: an edge map keyed by ordered node pairs, and a neighbour
//! index kept as its mirror image.

use vstd::prelude::*;

verus! {

/// An edge stored under the ordered key `(src, dest)`.
#[derive(Clone, Copy, Debug, PartialEq, Eq, Structural)]
pub struct Edge {
    pub src: usize,
    pub dest: usize,
    pub hop_count: u64,
    pub free: bool,
}

/// The mathematical picture of a graph: how many nodes, the edge records in
/// order of insertion, and one neighbour list per node.
pub struct GraphModel {
    pub nodes: nat,
    pub edges: Seq<Edge>,
    pub adj: Seq<Seq<usize>>,
}

pub open spec fn is_key(e: Edge, a: usize, b: usize) -> bool {
    e.src == a && e.dest == b
}

/// The record a new edge starts with.
pub open spec fn fresh_edge(a: usize, b: usize, free: bool) -> Edge {
    Edge { src: a, dest: b, hop_count: 0, free }
}

/// `s` without its first `x` (unchanged when `x` is absent).
pub open spec fn drop_first(s: Seq<usize>, x: usize) -> Seq<usize> {
    match s.index_of_first(x) {
        Some(i) => s.remove(i),
        None => s,
    }
}

/// Neighbour lists after recording a connection between `a` and `b`.
pub open spec fn link(adj: Seq<Seq<usize>>, a: usize, b: usize) -> Seq<Seq<usize>> {
    let adj1 = adj.update(a as int, adj[a as int].push(b));
    adj1.update(b as int, adj1[b as int].push(a))
}

/// Neighbour lists after forgetting one connection between `a` and `b`.
pub open spec fn unlink(adj: Seq<Seq<usize>>, a: usize, b: usize) -> Seq<Seq<usize>> {
    let adj1 = adj.update(a as int, drop_first(adj[a as int], b));
    adj1.update(b as int, drop_first(adj1[b as int], a))
}

/// How many neighbour entries removing the connection `(s, d)` takes from
/// the list of `a` for the value `b`.
pub open spec fn owed(s: usize, d: usize, a: usize, b: usize) -> nat {
    (if a == s && b == d { 1nat } else { 0nat }) + (if a == d && b == s { 1nat } else { 0nat })
}

pub open spec fn inc_sat(n: u64) -> u64 {
    if n < u64::MAX { (n + 1) as u64 } else { n }
}

impl GraphModel {
    pub open spec fn has(self, a: usize, b: usize) -> bool {
        exists|i: int| 0 <= i < self.edges.len() && is_key(self.edges[i], a, b)
    }

    /// Where the edge keyed `(a, b)` stands in `edges`.
    pub open spec fn slot(self, a: usize, b: usize) -> int {
        choose|i: int| 0 <= i < self.edges.len() && is_key(self.edges[i], a, b)
    }

    pub open spec fn mult(self, a: usize, b: usize) -> nat {
        if self.has(a, b) { 1 } else { 0 }
    }

    pub open spec fn keys_unique(self) -> bool {
        forall|i: int, j: int|
            0 <= i < self.edges.len() && 0 <= j < self.edges.len() && i != j ==> !is_key(
                #[trigger] self.edges[i],
                #[trigger] self.edges[j].src,
                self.edges[j].dest,
            )
    }

    /// Every key, in either direction, is backed by neighbour entries; while
    /// `pending` holds, the connection `(s, d)` may already be missing its own.
    pub open spec fn covered(self, s: usize, d: usize, pending: bool) -> bool {
        forall|a: usize, b: usize|
            a < self.nodes && b < self.nodes ==> #[trigger] self.adj[a as int].to_multiset().count(b)
                + (if pending { owed(s, d, a, b) } else { 0nat }) >= self.mult(a, b) + self.mult(b, a)
    }

    pub open spec fn in_range(self) -> bool {
        &&& self.adj.len() == self.nodes
        &&& forall|i: int, j: int|
            0 <= i < self.adj.len() && 0 <= j < self.adj[i].len() ==> #[trigger] self.adj[i][j]
                < self.nodes
        &&& forall|i: int|
            0 <= i < self.edges.len() ==> (#[trigger] self.edges[i]).src < self.nodes
                && self.edges[i].dest < self.nodes
    }

    pub open spec fn wf(self) -> bool {
        &&& self.in_range()
        &&& self.keys_unique()
        &&& self.covered(0, 0, false)
    }

    /// After inserting `(a, b)` as a fresh edge: a present key is overwritten
    /// in place, an absent one is appended; both neighbour lists grow.
    pub open spec fn with_edge(self, a: usize, b: usize, free: bool) -> GraphModel {
        GraphModel {
            nodes: self.nodes,
            edges: if self.has(a, b) {
                self.edges.update(self.slot(a, b), fresh_edge(a, b, free))
            } else {
                self.edges.push(fresh_edge(a, b, free))
            },
            adj: link(self.adj, a, b),
        }
    }

    /// After deleting the record keyed `(a, b)`, neighbour lists untouched.
    pub open spec fn without_key(self, a: usize, b: usize) -> GraphModel {
        GraphModel {
            nodes: self.nodes,
            edges: if self.has(a, b) {
                self.edges.remove(self.slot(a, b))
            } else {
                self.edges
            },
            adj: self.adj,
        }
    }

    /// After one more crossing counted on the record keyed `(a, b)`, if any.
    pub open spec fn bumped(self, a: usize, b: usize) -> GraphModel {
        GraphModel {
            nodes: self.nodes,
            edges: if self.has(a, b) {
                let e = self.edges[self.slot(a, b)];
                self.edges.update(self.slot(a, b), Edge { hop_count: inc_sat(e.hop_count), ..e })
            } else {
                self.edges
            },
            adj: self.adj,
        }
    }

    /// After a walker crossed between `a` and `b`: both orderings are probed.
    pub open spec fn crossed(self, a: usize, b: usize) -> GraphModel {
        self.bumped(a, b).bumped(b, a)
    }

    /// After removing one neighbour entry each way for `(a, b)`.
    pub open spec fn unlinked(self, a: usize, b: usize) -> GraphModel {
        GraphModel { nodes: self.nodes, edges: self.edges, adj: unlink(self.adj, a, b) }
    }
}

pub proof fn lemma_push_count(s: Seq<usize>, v: usize, y: usize)
    ensures
        s.push(v).to_multiset().count(y) == s.to_multiset().count(y) + (if v == y { 1nat } else { 0nat }),
{
    broadcast use vstd::seq_lib::group_to_multiset_ensures, vstd::multiset::group_multiset_axioms;

}

pub proof fn lemma_drop_count(s: Seq<usize>, x: usize, y: usize)
    requires
        s.to_multiset().count(x) >= 1,
    ensures
        drop_first(s, x).to_multiset().count(y) == s.to_multiset().count(y) - (if x == y { 1int } else { 0int }),
        drop_first(s, x).len() == s.len() - 1,
{
    broadcast use vstd::seq_lib::group_to_multiset_ensures, vstd::multiset::group_multiset_axioms;

    s.index_of_first_ensures(x);
    assert(s.contains(x));
}

/// What is left after dropping an entry was there before.
pub proof fn lemma_drop_within(s: Seq<usize>, x: usize, bound: nat)
    requires
        forall|j: int| 0 <= j < s.len() ==> s[j] < bound,
    ensures
        forall|j: int| 0 <= j < drop_first(s, x).len() ==> #[trigger] drop_first(s, x)[j] < bound,
{
    s.index_of_first_ensures(x);
    match s.index_of_first(x) {
        Some(k) => {
            assert forall|j: int| 0 <= j < drop_first(s, x).len() implies #[trigger] drop_first(s, x)[j] < bound by {
                if j < k {
                    assert(drop_first(s, x)[j] == s[j]);
                } else {
                    assert(drop_first(s, x)[j] == s[j + 1]);
                }
            }
        },
        None => {},
    }
}

/// Counting after `link`: each end gains one entry for the other.
pub proof fn lemma_link_count(adj: Seq<Seq<usize>>, a: usize, b: usize, x: usize, y: usize)
    requires
        a < adj.len(),
        b < adj.len(),
        x < adj.len(),
    ensures
        link(adj, a, b)[x as int].to_multiset().count(y) == adj[x as int].to_multiset().count(y)
            + owed(a, b, x, y),
        link(adj, a, b).len() == adj.len(),
{
    let adj1 = adj.update(a as int, adj[a as int].push(b));
    lemma_push_count(adj[a as int], b, y);
    lemma_push_count(adj1[b as int], a, y);
}

/// Counting after `unlink`, where both entries are there to remove.
pub proof fn lemma_unlink_count(adj: Seq<Seq<usize>>, a: usize, b: usize, x: usize, y: usize)
    requires
        a < adj.len(),
        b < adj.len(),
        x < adj.len(),
        adj[a as int].to_multiset().count(b) >= 1,
        adj[b as int].to_multiset().count(a) >= (if a == b { 2nat } else { 1nat }),
    ensures
        unlink(adj, a, b)[x as int].to_multiset().count(y) + owed(a, b, x, y)
            == adj[x as int].to_multiset().count(y),
        unlink(adj, a, b).len() == adj.len(),
{
    let adj1 = adj.update(a as int, drop_first(adj[a as int], b));
    lemma_drop_count(adj[a as int], b, y);
    lemma_drop_count(adj[a as int], b, a);
    lemma_drop_count(adj1[b as int], a, y);
}

/// Keys are unique, so `slot` picks the one record with that key.
pub proof fn lemma_slot(g: GraphModel, a: usize, b: usize, i: int)
    requires
        g.keys_unique(),
        0 <= i < g.edges.len(),
        is_key(g.edges[i], a, b),
    ensures
        g.has(a, b),
        g.slot(a, b) == i,
{
    assert(g.has(a, b));
    let j = g.slot(a, b);
    assert(is_key(g.edges[j], a, b));
    if i != j {
        assert(!is_key(g.edges[i], g.edges[j].src, g.edges[j].dest));
    }
}

/// Inserting an edge keeps the model well formed, and keeps a pending
/// removal pending.
pub proof fn lemma_with_edge(g: GraphModel, a: usize, b: usize, free: bool, s: usize, d: usize, pending: bool)
    requires
        g.in_range(),
        g.keys_unique(),
        g.covered(s, d, pending),
        a < g.nodes,
        b < g.nodes,
    ensures
        g.with_edge(a, b, free).in_range(),
        g.with_edge(a, b, free).keys_unique(),
        g.with_edge(a, b, free).covered(s, d, pending),
        forall|x: usize, y: usize| #[trigger] g.with_edge(a, b, free).has(x, y) <==> g.has(x, y) || (x == a && y == b),
{
    let h = g.with_edge(a, b, free);
    assert forall|x: usize, y: usize| #[trigger] h.has(x, y) <==> g.has(x, y) || (x == a && y == b) by {
        if g.has(a, b) {
            let k = g.slot(a, b);
            if g.has(x, y) {
                let i = choose|i: int| 0 <= i < g.edges.len() && is_key(g.edges[i], x, y);
                assert(is_key(h.edges[i], x, y));
            }
            if h.has(x, y) {
                let i = choose|i: int| 0 <= i < h.edges.len() && is_key(h.edges[i], x, y);
                if i != k {
                    assert(is_key(g.edges[i], x, y));
                }
            }
            assert(is_key(h.edges[k], a, b));
        } else {
            if g.has(x, y) {
                let i = choose|i: int| 0 <= i < g.edges.len() && is_key(g.edges[i], x, y);
                assert(is_key(h.edges[i], x, y));
            }
            if h.has(x, y) {
                let i = choose|i: int| 0 <= i < h.edges.len() && is_key(h.edges[i], x, y);
                if i < g.edges.len() {
                    assert(is_key(g.edges[i], x, y));
                }
            }
            assert(is_key(h.edges[g.edges.len() as int], a, b));
        }
    }
    assert forall|i: int, j: int|
        0 <= i < h.edges.len() && 0 <= j < h.edges.len() && i != j implies !is_key(
            #[trigger] h.edges[i],
            #[trigger] h.edges[j].src,
            h.edges[j].dest,
        ) by {
        if g.has(a, b) {
            let k = g.slot(a, b);
            if i == k {
                assert(!is_key(g.edges[i], g.edges[j].src, g.edges[j].dest));
            } else if j == k {
                assert(!is_key(g.edges[i], g.edges[j].src, g.edges[j].dest));
            }
        } else {
            if i < g.edges.len() && j < g.edges.len() {
            } else if i < g.edges.len() {
                assert(is_key(g.edges[i], g.edges[i].src, g.edges[i].dest));
            } else {
                assert(is_key(g.edges[j], g.edges[j].src, g.edges[j].dest));
            }
        }
    }
    assert forall|i: int, j: int|
        0 <= i < h.adj.len() && 0 <= j < h.adj[i].len() implies #[trigger] h.adj[i][j] < h.nodes by {
        let adj1 = g.adj.update(a as int, g.adj[a as int].push(b));
        if i == b {
            if j < adj1[i].len() {
                assert(h.adj[i][j] == adj1[i][j]);
            }
        } else if i == a {
            if j < g.adj[i].len() {
                assert(h.adj[i][j] == g.adj[i][j]);
            }
        } else {
            assert(h.adj[i][j] == g.adj[i][j]);
        }
    }
    assert forall|x: usize, y: usize|
        x < h.nodes && y < h.nodes implies #[trigger] h.adj[x as int].to_multiset().count(y)
            + (if pending { owed(s, d, x, y) } else { 0nat }) >= h.mult(x, y) + h.mult(y, x) by {
        lemma_link_count(g.adj, a, b, x, y);
        assert(g.adj[x as int].to_multiset().count(y) + (if pending { owed(s, d, x, y) } else { 0nat })
            >= g.mult(x, y) + g.mult(y, x));
    }
}

/// Removing the entries of a present edge leaves it pending.
pub proof fn lemma_unlinked(g: GraphModel, s: usize, d: usize)
    requires
        g.wf(),
        g.has(s, d),
    ensures
        g.unlinked(s, d).in_range(),
        g.unlinked(s, d).keys_unique(),
        g.unlinked(s, d).covered(s, d, true),
        forall|x: usize, y: usize| #[trigger] g.unlinked(s, d).has(x, y) == g.has(x, y),
{
    let h = g.unlinked(s, d);
    assert(h.edges == g.edges);
    assert forall|x: usize, y: usize| #[trigger] h.has(x, y) == g.has(x, y) by {
        if g.has(x, y) {
            let i = choose|i: int| 0 <= i < g.edges.len() && is_key(g.edges[i], x, y);
            assert(is_key(h.edges[i], x, y));
        }
    }
    let i = g.slot(s, d);
    assert(g.edges[i].src < g.nodes);
    assert(g.adj[s as int].to_multiset().count(d) + 0nat >= g.mult(s, d) + g.mult(d, s));
    assert(g.adj[d as int].to_multiset().count(s) + 0nat >= g.mult(d, s) + g.mult(s, d));
    assert forall|i: int, j: int|
        0 <= i < h.adj.len() && 0 <= j < h.adj[i].len() implies #[trigger] h.adj[i][j] < h.nodes by {
        let adj1 = g.adj.update(s as int, drop_first(g.adj[s as int], d));
        assert(forall|j: int| 0 <= j < g.adj[s as int].len() ==> g.adj[s as int][j] < g.nodes);
        lemma_drop_within(g.adj[s as int], d, g.nodes);
        assert(forall|j: int| 0 <= j < adj1[d as int].len() ==> adj1[d as int][j] < g.nodes);
        lemma_drop_within(adj1[d as int], s, g.nodes);
        if i != s && i != d {
            assert(h.adj[i][j] == g.adj[i][j]);
        }
    }
    assert forall|x: usize, y: usize|
        x < h.nodes && y < h.nodes implies #[trigger] h.adj[x as int].to_multiset().count(y)
            + owed(s, d, x, y) >= h.mult(x, y) + h.mult(y, x) by {
        lemma_unlink_count(g.adj, s, d, x, y);
        assert(g.adj[x as int].to_multiset().count(y) + 0nat >= g.mult(x, y) + g.mult(y, x));
    }
}

/// Deleting the record of a pending edge settles it.
pub proof fn lemma_without_key(g: GraphModel, s: usize, d: usize)
    requires
        g.in_range(),
        g.keys_unique(),
        g.covered(s, d, true),
        g.has(s, d),
    ensures
        g.without_key(s, d).wf(),
        g.without_key(s, d).edges.len() + 1 == g.edges.len(),
        forall|x: usize, y: usize| #[trigger] g.without_key(s, d).has(x, y) <==> g.has(x, y) && !(x == s && y == d),
{
    let h = g.without_key(s, d);
    let k = g.slot(s, d);
    assert forall|x: usize, y: usize| #[trigger] h.has(x, y) <==> g.has(x, y) && !(x == s && y == d) by {
        if g.has(x, y) && !(x == s && y == d) {
            let i = choose|i: int| 0 <= i < g.edges.len() && is_key(g.edges[i], x, y);
            if i < k {
                assert(is_key(h.edges[i], x, y));
            } else {
                assert(is_key(h.edges[i - 1], x, y));
            }
        }
        if h.has(x, y) {
            let i = choose|i: int| 0 <= i < h.edges.len() && is_key(h.edges[i], x, y);
            let j = if i < k { i } else { i + 1 };
            assert(is_key(g.edges[j], x, y));
            assert(j != k ==> !is_key(g.edges[j], g.edges[k].src, g.edges[k].dest));
        }
    }
    assert forall|i: int, j: int|
        0 <= i < h.edges.len() && 0 <= j < h.edges.len() && i != j implies !is_key(
            #[trigger] h.edges[i],
            #[trigger] h.edges[j].src,
            h.edges[j].dest,
        ) by {
        let i2 = if i < k { i } else { i + 1 };
        let j2 = if j < k { j } else { j + 1 };
        assert(!is_key(g.edges[i2], g.edges[j2].src, g.edges[j2].dest));
    }
    assert forall|i: int| 0 <= i < h.edges.len() implies (#[trigger] h.edges[i]).src < h.nodes
        && h.edges[i].dest < h.nodes by {
        let i2 = if i < k { i } else { i + 1 };
        assert(h.edges[i] == g.edges[i2]);
    }
    assert forall|x: usize, y: usize|
        x < h.nodes && y < h.nodes implies #[trigger] h.adj[x as int].to_multiset().count(y)
            + 0nat >= h.mult(x, y) + h.mult(y, x) by {
        assert(g.adj[x as int].to_multiset().count(y) + owed(s, d, x, y) >= g.mult(x, y) + g.mult(y, x));
    }
}

/// Counting a crossing changes only hop counts.
pub proof fn lemma_bumped(g: GraphModel, a: usize, b: usize)
    requires
        g.wf(),
    ensures
        g.bumped(a, b).wf(),
        g.bumped(a, b).edges.len() == g.edges.len(),
        forall|x: usize, y: usize| #[trigger] g.bumped(a, b).has(x, y) == g.has(x, y),
        forall|i: int|
            0 <= i < g.edges.len() ==> is_key(#[trigger] g.bumped(a, b).edges[i], g.edges[i].src, g.edges[i].dest),
{
    let h = g.bumped(a, b);
    assert forall|i: int| 0 <= i < g.edges.len() implies is_key(
        #[trigger] h.edges[i],
        g.edges[i].src,
        g.edges[i].dest,
    ) by {}
    assert forall|x: usize, y: usize| #[trigger] h.has(x, y) == g.has(x, y) by {
        if g.has(x, y) {
            let i = choose|i: int| 0 <= i < g.edges.len() && is_key(g.edges[i], x, y);
            assert(is_key(h.edges[i], x, y));
        }
        if h.has(x, y) {
            let i = choose|i: int| 0 <= i < h.edges.len() && is_key(h.edges[i], x, y);
            assert(is_key(g.edges[i], x, y));
        }
    }
    assert forall|i: int, j: int|
        0 <= i < h.edges.len() && 0 <= j < h.edges.len() && i != j implies !is_key(
            #[trigger] h.edges[i],
            #[trigger] h.edges[j].src,
            h.edges[j].dest,
        ) by {
        assert(!is_key(g.edges[i], g.edges[j].src, g.edges[j].dest));
    }
    assert forall|i: int| 0 <= i < h.edges.len() implies (#[trigger] h.edges[i]).src < h.nodes
        && h.edges[i].dest < h.nodes by {
        assert(g.edges[i].src < g.nodes);
    }
    assert forall|x: usize, y: usize|
        x < h.nodes && y < h.nodes implies #[trigger] h.adj[x as int].to_multiset().count(y)
            + 0nat >= h.mult(x, y) + h.mult(y, x) by {
        assert(g.adj[x as int].to_multiset().count(y) + 0nat >= g.mult(x, y) + g.mult(y, x));
    }
}

/// Total number of entries over all neighbour lists.
pub open spec fn entry_total(adj: Seq<Seq<usize>>) -> int
    decreases adj.len(),
{
    if adj.len() == 0 {
        0
    } else {
        entry_total(adj.drop_last()) + adj.last().len()
    }
}

/// `nodes` nodes, no edges, empty neighbour lists.
pub open spec fn empty_model(nodes: nat) -> GraphModel {
    GraphModel { nodes, edges: Seq::empty(), adj: Seq::new(nodes, |i: int| Seq::<usize>::empty()) }
}

/// The graph that a table of edge rows describes: rows are taken in order,
/// and a row whose key is already present adds nothing.
pub open spec fn loaded(nodes: nat, rows: Seq<(usize, usize)>) -> GraphModel
    decreases rows.len(),
{
    if rows.len() == 0 {
        empty_model(nodes)
    } else {
        let g = loaded(nodes, rows.drop_last());
        let (a, b) = rows.last();
        if g.has(a, b) {
            g
        } else {
            g.with_edge(a, b, false)
        }
    }
}

pub open spec fn row_in_range(row: (usize, usize), nodes: nat) -> bool {
    row.0 < nodes && row.1 < nodes
}

/// Why a table of edges could not be loaded.
#[derive(Clone, Copy, Debug, PartialEq, Eq, Structural)]
pub enum LoadError {
    /// The row at this index names a node that does not exist.
    NodeOutOfRange { row: usize },
}

pub proof fn lemma_total_push(adj: Seq<Seq<usize>>, i: int, x: usize)
    requires
        0 <= i < adj.len(),
    ensures
        entry_total(adj.update(i, adj[i].push(x))) == entry_total(adj) + 1,
    decreases adj.len(),
{
    let adj2 = adj.update(i, adj[i].push(x));
    if i == adj.len() - 1 {
        assert(adj2.drop_last() =~= adj.drop_last());
    } else {
        lemma_total_push(adj.drop_last(), i, x);
        assert(adj2.drop_last() =~= adj.drop_last().update(i, adj.drop_last()[i].push(x)));
    }
}

pub proof fn lemma_total_empty(n: nat)
    ensures
        entry_total(Seq::new(n, |i: int| Seq::<usize>::empty())) == 0,
    decreases n,
{
    if n > 0 {
        lemma_total_empty((n - 1) as nat);
        assert(Seq::new(n, |i: int| Seq::<usize>::empty()).drop_last() =~= Seq::new(
            (n - 1) as nat,
            |i: int| Seq::<usize>::empty(),
        ));
    }
}

/// The law of the neighbour index: every key `(a, b)` of the edge map has
/// `b` among the neighbours of `a` and `a` among the neighbours of `b`.
pub proof fn lemma_keys_mirrored(g: Graph)
    requires
        g.wf(),
    ensures
        forall|i: int|
            0 <= i < g@.edges.len() ==> g@.adj[(#[trigger] g@.edges[i]).src as int].contains(g@.edges[i].dest)
                && g@.adj[g@.edges[i].dest as int].contains(g@.edges[i].src),
{
    broadcast use vstd::seq_lib::group_to_multiset_ensures;

    let m = g@;
    assert forall|i: int| 0 <= i < m.edges.len() implies m.adj[(#[trigger] m.edges[i]).src as int].contains(
        m.edges[i].dest,
    ) && m.adj[m.edges[i].dest as int].contains(m.edges[i].src) by {
        let (a, b) = (m.edges[i].src, m.edges[i].dest);
        assert(m.has(a, b));
        assert(m.adj[a as int].to_multiset().count(b) + 0nat >= m.mult(a, b) + m.mult(b, a));
        assert(m.adj[b as int].to_multiset().count(a) + 0nat >= m.mult(b, a) + m.mult(a, b));
    }
}

/// Nodes `0..nodes`, an edge map keyed by ordered node pairs, and a neighbour
/// index that mirrors the map.
pub struct Graph {
    nodes: usize,
    edges: Vec<Edge>,
    adj: Vec<Vec<usize>>,
}

impl View for Graph {
    type V = GraphModel;

    closed spec fn view(&self) -> GraphModel {
        GraphModel {
            nodes: self.nodes as nat,
            edges: self.edges@,
            adj: self.adj@.map_values(|v: Vec<usize>| v@),
        }
    }
}

impl Graph {
    pub open spec fn wf(&self) -> bool {
        self@.wf()
    }

    /// `nodes` nodes and no edges.
    pub fn new(nodes: usize) -> (g: Graph)
        ensures
            g.wf(),
            g@.nodes == nodes,
            g@.edges.len() == 0,
            g@.adj =~= Seq::new(nodes as nat, |i: int| Seq::<usize>::empty()),
    {
        let mut adj: Vec<Vec<usize>> = Vec::new();
        let mut i: usize = 0;
        while i < nodes
            invariant
                i <= nodes,
                adj@.len() == i,
                forall|k: int| 0 <= k < i ==> (#[trigger] adj@[k])@.len() == 0,
            decreases nodes - i,
        {
            adj.push(Vec::new());
            i = i + 1;
        }
        let g = Graph { nodes, edges: Vec::new(), adj };
        assert forall|k: int| 0 <= k < nodes implies #[trigger] g@.adj[k] =~= Seq::<usize>::empty() by {
            assert(adj@[k]@.len() == 0);
        }
        assert forall|a: usize, b: usize| a < g@.nodes && b < g@.nodes implies #[trigger] g@.adj[a as int].to_multiset().count(b)
            + 0nat >= g@.mult(a, b) + g@.mult(b, a) by {
            assert(!g@.has(a, b));
            assert(!g@.has(b, a));
        }
        g
    }

    pub fn node_count(&self) -> (r: usize)
        ensures
            r == self@.nodes,
    {
        self.nodes
    }

    pub fn edge_count(&self) -> (r: usize)
        ensures
            r == self@.edges.len(),
    {
        self.edges.len()
    }

    /// The `i`-th edge record, in order of insertion.
    pub fn edge_at(&self, i: usize) -> (r: Edge)
        requires
            i < self@.edges.len(),
        ensures
            r == self@.edges[i as int],
    {
        self.edges[i]
    }

    /// How many entries the neighbour list of `node` holds.
    pub fn degree(&self, node: usize) -> (r: usize)
        requires
            self.wf(),
            node < self@.nodes,
        ensures
            r == self@.adj[node as int].len(),
    {
        self.adj[node].len()
    }

    /// The `i`-th entry of the neighbour list of `node`.
    pub fn neighbor(&self, node: usize, i: usize) -> (r: usize)
        requires
            self.wf(),
            node < self@.nodes,
            i < self@.adj[node as int].len(),
        ensures
            r == self@.adj[node as int][i as int],
            r < self@.nodes,
    {
        self.adj[node][i]
    }

    /// A copy of the neighbour list of `node`; callers must not rely on its order.
    pub fn neighbors_of(&self, node: usize) -> (r: Vec<usize>)
        requires
            self.wf(),
            node < self@.nodes,
        ensures
            r@ == self@.adj[node as int],
    {
        let row = &self.adj[node];
        let mut out: Vec<usize> = Vec::new();
        let mut i: usize = 0;
        while i < row.len()
            invariant
                i <= row@.len(),
                out@ == row@.subrange(0, i as int),
            decreases row@.len() - i,
        {
            out.push(row[i]);
            i = i + 1;
            assert(out@ =~= row@.subrange(0, i as int));
        }
        assert(out@ =~= row@);
        out
    }

    /// Where the edge keyed `(a, b)` is stored, if it is.
    pub fn find_edge(&self, a: usize, b: usize) -> (r: Option<usize>)
        requires
            self@.keys_unique(),
        ensures
            match r {
                Some(i) => self@.has(a, b) && i == self@.slot(a, b),
                None => !self@.has(a, b),
            },
    {
        let mut i: usize = 0;
        while i < self.edges.len()
            invariant
                self@.keys_unique(),
                i <= self@.edges.len(),
                forall|k: int| 0 <= k < i ==> !is_key(#[trigger] self@.edges[k], a, b),
            decreases self@.edges.len() - i,
        {
            if self.edges[i].src == a && self.edges[i].dest == b {
                proof {
                    lemma_slot(self@, a, b, i as int);
                }
                return Some(i);
            }
            i = i + 1;
        }
        None
    }

    /// The record keyed `(a, b)`, if there is one.
    pub fn get_edge(&self, a: usize, b: usize) -> (r: Option<Edge>)
        requires
            self.wf(),
        ensures
            match r {
                Some(e) => self@.has(a, b) && e == self@.edges[self@.slot(a, b)],
                None => !self@.has(a, b),
            },
    {
        match self.find_edge(a, b) {
            Some(i) => Some(self.edges[i]),
            None => None,
        }
    }

    fn push_neighbor(&mut self, a: usize, b: usize)
        requires
            a < old(self).adj@.len(),
        ensures
            final(self).nodes == old(self).nodes,
            final(self).edges == old(self).edges,
            final(self).adj@.len() == old(self).adj@.len(),
            final(self)@.adj == old(self)@.adj.update(a as int, old(self)@.adj[a as int].push(b)),
    {
        self.adj[a].push(b);
        assert(self@.adj =~= old(self)@.adj.update(a as int, old(self)@.adj[a as int].push(b)));
    }

    /// Records `(a, b)` as a fresh edge. A record already under that key is
    /// overwritten in place; either way `b` joins the list of `a` and `a`
    /// joins the list of `b`.
    pub fn insert_edge(&mut self, a: usize, b: usize, free: bool)
        requires
            old(self).wf(),
            a < old(self)@.nodes,
            b < old(self)@.nodes,
        ensures
            final(self).wf(),
            final(self)@ == old(self)@.with_edge(a, b, free),
            final(self)@.has(a, b),
    {
        proof {
            lemma_with_edge(self@, a, b, free, 0, 0, false);
        }
        self.put_edge(a, b, free);
    }

    /// Removes the first `b` from the neighbour list of `a`, if any.
    pub(crate) fn drop_neighbor(&mut self, a: usize, b: usize)
        requires
            a < old(self)@.adj.len(),
        ensures
            final(self)@ == (GraphModel {
                adj: old(self)@.adj.update(a as int, drop_first(old(self)@.adj[a as int], b)),
                ..old(self)@
            }),
    {
        let ghost row = self@.adj[a as int];
        let mut k: usize = 0;
        let n = self.adj[a].len();
        while k < n
            invariant
                a < self.adj@.len(),
                n == row.len(),
                row == self@.adj[a as int],
                k <= n,
                forall|j: int| 0 <= j < k ==> row[j] != b,
            ensures
                k <= n,
                k < n ==> row[k as int] == b,
                forall|j: int| 0 <= j < k ==> row[j] != b,
            decreases n - k,
        {
            if self.adj[a][k] == b {
                break;
            }
            k = k + 1;
        }
        proof {
            row.index_of_first_ensures(b);
        }
        if k < n {
            assert(row[k as int] == b);
            assert(row.index_of_first(b) == Some(k as int)) by {
                let f = row.index_of_first(b).unwrap();
                if f < k {
                    assert(row[f] != b);
                }
            }
            self.adj[a].remove(k);
        } else {
            assert(!row.contains(b));
        }
        assert(self@.adj =~= old(self)@.adj.update(a as int, drop_first(old(self)@.adj[a as int], b)));
        assert(self@ == (GraphModel {
                adj: old(self)@.adj.update(a as int, drop_first(old(self)@.adj[a as int], b)),
                ..old(self)@
            }));
    }

    /// Deletes the record keyed `(a, b)`, leaving the neighbour lists alone.
    pub(crate) fn drop_key(&mut self, a: usize, b: usize)
        requires
            old(self)@.keys_unique(),
        ensures
            final(self)@ == old(self)@.without_key(a, b),
    {
        let mut i: usize = 0;
        while i < self.edges.len()
            invariant
                self@.keys_unique(),
                self == old(self),
                i <= self@.edges.len(),
                forall|k: int| 0 <= k < i ==> !is_key(#[trigger] self@.edges[k], a, b),
            decreases self@.edges.len() - i,
        {
            if self.edges[i].src == a && self.edges[i].dest == b {
                proof {
                    lemma_slot(self@, a, b, i as int);
                }
                self.edges.remove(i);
                assert(self@ == old(self)@.without_key(a, b));
                return;
            }
            i = i + 1;
        }
        assert(self@ == old(self)@.without_key(a, b));
    }

    fn bump(&mut self, a: usize, b: usize)
        requires
            old(self).wf(),
        ensures
            final(self).wf(),
            final(self)@ == old(self)@.bumped(a, b),
    {
        proof {
            lemma_bumped(self@, a, b);
        }
        match self.find_edge(a, b) {
            Some(i) => {
                let e = self.edges[i];
                let n = if e.hop_count < u64::MAX { e.hop_count + 1 } else { e.hop_count };
                self.edges.set(i, Edge { hop_count: n, ..e });
            },
            None => {},
        }
        assert(self@ == old(self)@.bumped(a, b));
    }

    /// Counts a crossing between `a` and `b`: the record keyed `(a, b)` and
    /// the one keyed `(b, a)` each gain one hop where present (saturating); a
    /// miss on both is no error.
    pub fn record_hop(&mut self, a: usize, b: usize)
        requires
            old(self).wf(),
        ensures
            final(self).wf(),
            final(self)@ == old(self)@.crossed(a, b),
    {
        self.bump(a, b);
        self.bump(b, a);
    }

    /// Deletes the record keyed `(a, b)` and one neighbour entry each way.
    /// Nothing changes when there is no such record.
    pub fn remove_edge(&mut self, a: usize, b: usize)
        requires
            old(self).wf(),
        ensures
            final(self).wf(),
            final(self)@ == if old(self)@.has(a, b) {
                old(self)@.unlinked(a, b).without_key(a, b)
            } else {
                old(self)@
            },
    {
        if self.find_edge(a, b).is_some() {
            proof {
                let i = old(self)@.slot(a, b);
                assert(old(self)@.edges[i].src < old(self)@.nodes);
                lemma_unlinked(old(self)@, a, b);
                lemma_without_key(old(self)@.unlinked(a, b), a, b);
            }
            self.drop_neighbor(a, b);
            self.drop_neighbor(b, a);
            assert(self@ == old(self)@.unlinked(a, b));
            self.drop_key(a, b);
        }
    }

    /// Inserts a fresh edge `(a, b)`; the model need not be covered, so this
    /// also serves while a removal is under way.
    pub(crate) fn put_edge(&mut self, a: usize, b: usize, free: bool)
        requires
            old(self)@.in_range(),
            old(self)@.keys_unique(),
            a < old(self)@.nodes,
            b < old(self)@.nodes,
        ensures
            final(self)@ == old(self)@.with_edge(a, b, free),
    {
        let e = Edge { src: a, dest: b, hop_count: 0, free };
        match self.find_edge(a, b) {
            Some(i) => {
                self.edges.set(i, e);
            },
            None => {
                self.edges.push(e);
            },
        }
        self.push_neighbor(a, b);
        self.push_neighbor(b, a);
        assert(self@ == old(self)@.with_edge(a, b, free));
    }

    /// Builds the graph on `nodes` nodes from a table of `(src, dest)` rows,
    /// each a fresh load-time edge; a row repeating a key adds nothing. Every
    /// connection is listed once from each end. Fails on the first row that
    /// names a node outside `0..nodes`.
    pub fn load(nodes: usize, rows: &Vec<(usize, usize)>) -> (r: Result<Graph, LoadError>)
        ensures
            match r {
                Ok(g) => {
                    &&& forall|k: int| 0 <= k < rows@.len() ==> row_in_range(#[trigger] rows@[k], nodes as nat)
                    &&& g.wf()
                    &&& g@ == loaded(nodes as nat, rows@)
                    &&& entry_total(g@.adj) == 2 * g@.edges.len()
                },
                Err(LoadError::NodeOutOfRange { row }) => {
                    &&& row < rows@.len()
                    &&& !row_in_range(rows@[row as int], nodes as nat)
                    &&& forall|k: int| 0 <= k < row ==> row_in_range(#[trigger] rows@[k], nodes as nat)
                },
            },
    {
        let mut g = Graph::new(nodes);
        proof {
            lemma_total_empty(nodes as nat);
            assert(g@.edges =~= Seq::<Edge>::empty());
            assert(g@ == loaded(nodes as nat, rows@.subrange(0, 0)));
        }
        let mut i: usize = 0;
        while i < rows.len()
            invariant
                i <= rows@.len(),
                g.wf(),
                g@.nodes == nodes,
                g@ == loaded(nodes as nat, rows@.subrange(0, i as int)),
                entry_total(g@.adj) == 2 * g@.edges.len(),
                forall|k: int| 0 <= k < i ==> row_in_range(#[trigger] rows@[k], nodes as nat),
            decreases rows@.len() - i,
        {
            let (a, b) = rows[i];
            if a >= nodes || b >= nodes {
                return Err(LoadError::NodeOutOfRange { row: i });
            }
            let ghost before = g@;
            assert(rows@.subrange(0, i + 1).drop_last() =~= rows@.subrange(0, i as int));
            if g.find_edge(a, b).is_none() {
                g.insert_edge(a, b, false);
                proof {
                    let adj1 = before.adj.update(a as int, before.adj[a as int].push(b));
                    lemma_total_push(before.adj, a as int, b);
                    lemma_total_push(adj1, b as int, a);
                }
            }
            i = i + 1;
        }
        assert(rows@.subrange(0, i as int) =~= rows@);
        Ok(g)
    }
}

} // verus!
