use vstd::prelude::*;

use crate::gc_ptr::GcPtr;

verus! {

/// A heap seen as a graph: each node (a slot number) maps to the pointers its
/// payload holds. Only the nodes in the domain take part.
pub type Graph = Map<usize, Seq<GcPtr>>;

/// There is an edge from `a` to `b` and both are nodes.
pub open spec fn has_edge(g: Graph, a: usize, b: usize) -> bool {
    &&& g.dom().contains(a)
    &&& g.dom().contains(b)
    &&& g[a].contains(GcPtr { index: b })
}

/// Step `k` of `path` follows an edge.
pub open spec fn step(g: Graph, path: Seq<usize>, k: int) -> bool {
    has_edge(g, path[k], path[k + 1])
}

/// A non-empty sequence of nodes, each joined to the next by an edge.
pub open spec fn is_path(g: Graph, path: Seq<usize>) -> bool {
    &&& path.len() > 0
    &&& g.dom().contains(path[0])
    &&& forall|k: int| 0 <= k < path.len() - 1 ==> #[trigger] step(g, path, k)
}

/// `dst` can be reached from `src` by following edges (each node reaches itself).
pub open spec fn reaches(g: Graph, src: usize, dst: usize) -> bool {
    exists|path: Seq<usize>| #[trigger] is_path(g, path) && path[0] == src && path.last() == dst
}

/// Every edge that leaves a member of `s` ends in `s`.
pub open spec fn closed_under(g: Graph, s: Set<usize>) -> bool {
    forall|a: usize, b: usize| #[trigger] s.contains(a) && #[trigger] has_edge(g, a, b) ==> s.contains(b)
}

pub proof fn lemma_reaches_self(g: Graph, a: usize)
    requires
        g.dom().contains(a),
    ensures
        reaches(g, a, a),
{
    let path = seq![a];
    assert(is_path(g, path));
}

pub proof fn lemma_reaches_step(g: Graph, src: usize, a: usize, b: usize)
    requires
        reaches(g, src, a),
        has_edge(g, a, b),
    ensures
        reaches(g, src, b),
{
    let path = choose|path: Seq<usize>| #[trigger] is_path(g, path) && path[0] == src && path.last() == a;
    let longer = path.push(b);
    assert forall|k: int| 0 <= k < longer.len() - 1 implies #[trigger] step(g, longer, k) by {
        if k < path.len() - 1 {
            assert(step(g, path, k));
        }
    }
    assert(is_path(g, longer));
}

proof fn lemma_path_prefix_in(g: Graph, s: Set<usize>, path: Seq<usize>, n: int)
    requires
        is_path(g, path),
        s.contains(path[0]),
        closed_under(g, s),
        0 <= n < path.len(),
    ensures
        s.contains(path[n]),
    decreases n,
{
    if n > 0 {
        lemma_path_prefix_in(g, s, path, n - 1);
        assert(step(g, path, n - 1));
    }
}

/// A set that holds `src` and is closed under edges holds all that `src` reaches.
pub proof fn lemma_closed_holds_reached(g: Graph, s: Set<usize>, src: usize, dst: usize)
    requires
        s.contains(src),
        closed_under(g, s),
        reaches(g, src, dst),
    ensures
        s.contains(dst),
{
    let path = choose|path: Seq<usize>| #[trigger] is_path(g, path) && path[0] == src && path.last() == dst;
    lemma_path_prefix_in(g, s, path, path.len() - 1);
}

/// What a graph reaches, any graph that holds it (same nodes with the same
/// edges, and maybe more) reaches too.
pub proof fn lemma_reaches_subgraph(small: Graph, big: Graph, src: usize, dst: usize)
    requires
        forall|i: usize| #[trigger] small.dom().contains(i) ==> big.dom().contains(i) && big[i] == small[i],
        reaches(small, src, dst),
    ensures
        reaches(big, src, dst),
{
    let path = choose|path: Seq<usize>| #[trigger] is_path(small, path) && path[0] == src && path.last() == dst;
    assert forall|k: int| 0 <= k < path.len() - 1 implies #[trigger] step(big, path, k) by {
        assert(step(small, path, k));
    }
    assert(is_path(big, path));
}

/// A node without edges reaches itself alone.
pub proof fn lemma_reaches_from_leaf(g: Graph, src: usize, dst: usize)
    requires
        g.dom().contains(src) ==> g[src].len() == 0,
        reaches(g, src, dst),
    ensures
        dst == src,
{
    let path = choose|path: Seq<usize>| #[trigger] is_path(g, path) && path[0] == src && path.last() == dst;
    if path.len() > 1 {
        assert(step(g, path, 0));
    }
}

/// Reachability is a property of the graph alone.
pub proof fn lemma_reaches_dom(g: Graph, src: usize, dst: usize)
    requires
        reaches(g, src, dst),
    ensures
        g.dom().contains(src),
        g.dom().contains(dst),
{
    let path = choose|path: Seq<usize>| #[trigger] is_path(g, path) && path[0] == src && path.last() == dst;
    if path.len() > 1 {
        assert(step(g, path, path.len() - 2));
    }
}

} // verus!
