//! Vertex reordering: heaviest vertices first, with the graph relabelled to
//! match.
use crate::graph::{
    edge_weight, joins, lemma_valid_edges, lemma_valid_from_facts, lemma_valid_prefix,
    total_weight, Edge, Graph, Vertex,
};
use crate::perm::renumbered;
use crate::matrix::edge_matrix;
use vstd::prelude::*;

verus! {

/// Sum of the weights of the edges at `v`.
pub open spec fn degree(es: Seq<Edge>, v: int) -> nat
    decreases es.len(),
{
    if es.len() == 0 {
        0
    } else {
        degree(es.drop_last(), v) + if es.last().a == v || es.last().b == v {
            es.last().w as nat
        } else {
            0
        }
    }
}

/// `x` comes before `y`: it has the larger degree, or the same degree and
/// the smaller index.
pub open spec fn ranks_before(d: Seq<u64>, x: usize, y: usize) -> bool {
    d[x as int] > d[y as int] || (d[x as int] == d[y as int] && x < y)
}

/// `v` occurs in `o`.
pub open spec fn lists(o: Seq<usize>, v: int) -> bool {
    exists|i: int| 0 <= i < o.len() && #[trigger] o[i] == v
}

/// `o` lists each of the vertices `0..n` once.
pub open spec fn is_permutation(o: Seq<usize>, n: nat) -> bool {
    &&& o.len() == n
    &&& forall|i: int| 0 <= i < n ==> #[trigger] o[i] < n
    &&& forall|i: int, j: int| 0 <= i < j < n ==> #[trigger] o[i] != #[trigger] o[j]
    &&& forall|v: int| 0 <= v < n ==> #[trigger] lists(o, v)
}

proof fn lemma_degree_le_total(es: Seq<Edge>, v: int)
    ensures
        degree(es, v) <= total_weight(es),
    decreases es.len(),
{
    if es.len() > 0 {
        lemma_degree_le_total(es.drop_last(), v);
    }
}

/// The weighted degree of each vertex of a valid graph.
pub fn weighted_degrees(graph: &Graph) -> (d: Vec<u64>)
    requires
        graph.wf(),
    ensures
        d@.len() == graph.n(),
        forall|v: int| 0 <= v < graph.n() ==> #[trigger] d@[v] == degree(graph.edges_view(), v),
{
    let n = graph.vertex_count();
    let edges = graph.edges();
    proof {
        lemma_valid_edges(graph.n(), graph.edges_view());
    }
    let mut d: Vec<u64> = Vec::new();
    let mut v: usize = 0;
    while v < n
        invariant
            v <= n,
            d@ == Seq::new(v as nat, |i: int| 0u64),
        decreases n - v,
    {
        d.push(0);
        v += 1;
        assert(d@ =~= Seq::new(v as nat, |i: int| 0u64));
    }
    let mut i: usize = 0;
    while i < edges.len()
        invariant
            i <= edges@.len(),
            edges@ == graph.edges_view(),
            n == graph.n(),
            graph.wf(),
            d@.len() == n,
            forall|j: int| 0 <= j < edges@.len() ==> #[trigger] edges@[j].a < n && edges@[j].b < n && edges@[j].a != edges@[j].b,
            forall|u: int| 0 <= u < n ==> #[trigger] d@[u] == degree(edges@.subrange(0, i as int), u),
        decreases edges@.len() - i,
    {
        let e = edges[i];
        let ghost pre = edges@.subrange(0, i as int);
        let ghost next = edges@.subrange(0, i + 1);
        assert(next.drop_last() =~= pre);
        proof {
            lemma_valid_prefix(n as nat, edges@, i + 1);
            lemma_valid_edges(n as nat, next);
            lemma_degree_le_total(next, e.a as int);
            lemma_degree_le_total(next, e.b as int);
        }
        d.set(e.a, d[e.a] + e.w);
        d.set(e.b, d[e.b] + e.w);
        i += 1;
        assert forall|u: int| 0 <= u < n implies #[trigger] d@[u] == degree(edges@.subrange(0, i as int), u) by {
        }
    }
    assert(edges@.subrange(0, i as int) =~= edges@);
    d
}

/// The vertices in order of decreasing degree `d`, ties by increasing index.
pub fn order_by_weight(d: &Vec<u64>) -> (o: Vec<usize>)
    ensures
        is_permutation(o@, d@.len()),
        forall|i: int, j: int| 0 <= i < j < o@.len() ==> ranks_before(d@, #[trigger] o@[i], #[trigger] o@[j]),
{
    let n = d.len();
    let mut o: Vec<usize> = Vec::new();
    let mut v: usize = 0;
    while v < n
        invariant
            v <= n,
            n == d@.len(),
            o@.len() == v,
            forall|i: int| 0 <= i < v ==> #[trigger] o@[i] < v,
            forall|i: int, j: int| 0 <= i < j < v ==> ranks_before(d@, #[trigger] o@[i], #[trigger] o@[j]),
            forall|u: int| 0 <= u < v ==> #[trigger] lists(o@, u),
        decreases n - v,
    {
        let mut p: usize = 0;
        while p < o.len() && d[o[p]] >= d[v]
            invariant
                p <= o@.len(),
                o@.len() == v < n,
                n == d@.len(),
                forall|i: int| 0 <= i < v ==> #[trigger] o@[i] < v,
                forall|i: int| 0 <= i < p ==> d@[#[trigger] o@[i] as int] >= d@[v as int],
            decreases o@.len() - p,
        {
            p += 1;
        }
        let ghost old_o = o@;
        o.insert(p, v);
        proof {
            let q = o@;
            assert(q == old_o.insert(p as int, v));
            assert forall|i: int| 0 <= i < v + 1 implies #[trigger] q[i] < v + 1 by {
                if i < p {
                    assert(q[i] == old_o[i]);
                } else if i > p {
                    assert(q[i] == old_o[i - 1]);
                }
            }
            assert forall|i: int| p < i < v + 1 implies d@[#[trigger] q[i] as int] < d@[v as int] by {
                assert(q[i] == old_o[i - 1]);
                if i - 1 > p {
                    assert(ranks_before(d@, old_o[p as int], old_o[i - 1]));
                }
            }
            assert forall|i: int, j: int| 0 <= i < j < v + 1 implies ranks_before(d@, #[trigger] q[i], #[trigger] q[j]) by {
                if j < p {
                    assert(q[i] == old_o[i] && q[j] == old_o[j]);
                } else if j == p {
                    assert(q[i] == old_o[i]);
                    assert(d@[old_o[i] as int] >= d@[v as int]);
                } else if i < p {
                    assert(q[i] == old_o[i] && q[j] == old_o[j - 1]);
                    assert(d@[old_o[i] as int] >= d@[v as int]);
                } else if i == p {
                    assert(q[i] == v);
                } else {
                    assert(q[i] == old_o[i - 1] && q[j] == old_o[j - 1]);
                }
            }
            assert forall|u: int| 0 <= u < v + 1 implies #[trigger] lists(q, u) by {
                if u == v {
                    assert(q[p as int] == u);
                } else {
                    assert(lists(old_o, u));
                    let i = choose|i: int| 0 <= i < old_o.len() && #[trigger] old_o[i] == u;
                    if i < p {
                        assert(q[i] == u);
                    } else {
                        assert(q[i + 1] == u);
                    }
                }
            }
        }
        v += 1;
    }
    proof {
        assert forall|i: int, j: int| 0 <= i < j < n implies o@[i] != o@[j] by {
            assert(ranks_before(d@, o@[i], o@[j]));
        }
    }
    o
}


/// `inv` undoes the permutation `o` of `0..n`.
pub open spec fn inverse_of(inv: Seq<usize>, o: Seq<usize>, n: nat) -> bool {
    &&& inv.len() == n
    &&& forall|i: int| 0 <= i < n ==> #[trigger] inv[o[i] as int] == i
    &&& forall|v: int| 0 <= v < n ==> #[trigger] inv[v] < n && o[inv[v] as int] == v
}

/// `es2` is `es` with each end `v` renamed `inv[v]`.
pub open spec fn renamed_edges(es2: Seq<Edge>, es: Seq<Edge>, inv: Seq<usize>) -> bool {
    &&& es2.len() == es.len()
    &&& forall|i: int|
        0 <= i < es.len() ==> #[trigger] es2[i] == (Edge { a: inv[es[i].a as int], b: inv[es[i].b as int], w: es[i].w })
}

proof fn lemma_total_renamed(es2: Seq<Edge>, es: Seq<Edge>, inv: Seq<usize>)
    requires
        renamed_edges(es2, es, inv),
    ensures
        total_weight(es2) == total_weight(es),
    decreases es.len(),
{
    if es.len() > 0 {
        assert(renamed_edges(es2.drop_last(), es.drop_last(), inv));
        lemma_total_renamed(es2.drop_last(), es.drop_last(), inv);
        assert(es2[es2.len() - 1].w == es[es.len() - 1].w);
    }
}

proof fn lemma_edge_weight_renamed(es2: Seq<Edge>, es: Seq<Edge>, inv: Seq<usize>, o: Seq<usize>, n: nat, x: int, y: int)
    requires
        renamed_edges(es2, es, inv),
        inverse_of(inv, o, n),
        forall|i: int| 0 <= i < es.len() ==> #[trigger] es[i].a < n && es[i].b < n,
        0 <= x < n,
        0 <= y < n,
    ensures
        edge_weight(es2, x, y) == edge_weight(es, o[x] as int, o[y] as int),
    decreases es.len(),
{
    if es.len() > 0 {
        assert(renamed_edges(es2.drop_last(), es.drop_last(), inv));
        lemma_edge_weight_renamed(es2.drop_last(), es.drop_last(), inv, o, n, x, y);
        let e = es[es.len() - 1];
        let e2 = es2[es2.len() - 1];
        assert(e.a < n && e.b < n);
        assert(o[inv[e.a as int] as int] == e.a && o[inv[e.b as int] as int] == e.b);
        assert(inv[o[x] as int] == x && inv[o[y] as int] == y);
        assert(joins(e2, x, y) == joins(e, o[x] as int, o[y] as int));
    }
}

/// The graph with vertex `order[i]` renumbered `i`, and the inverse
/// numbering.
pub fn relabel(graph: &Graph, order: &Vec<usize>) -> (r: (Graph, Vec<usize>))
    requires
        graph.wf(),
        is_permutation(order@, graph.n()),
    ensures
        r.0.wf(),
        r.0.n() == graph.n(),
        forall|i: int| 0 <= i < graph.n() ==> #[trigger] r.0.vertices_view()[i] == graph.vertices_view()[order@[i] as int],
        renumbered(edge_matrix(r.0.edges_view(), graph.n()), edge_matrix(graph.edges_view(), graph.n()), order@, graph.n()),
        inverse_of(r.1@, order@, graph.n()),
{
    let n = graph.vertex_count();
    let ghost o = order@;
    let mut inv: Vec<usize> = Vec::new();
    let mut v: usize = 0;
    while v < n
        invariant
            v <= n,
            inv@.len() == v,
            forall|j: int| 0 <= j < v ==> #[trigger] inv@[j] < n,
        decreases n - v,
    {
        inv.push(0);
        v += 1;
    }
    let mut i: usize = 0;
    while i < n
        invariant
            i <= n,
            n == graph.n(),
            o == order@,
            is_permutation(o, n as nat),
            inv@.len() == n,
            forall|j: int| 0 <= j < n ==> #[trigger] inv@[j] < n,
            forall|j: int| 0 <= j < i ==> #[trigger] inv@[o[j] as int] == j,
        decreases n - i,
    {
        inv.set(order[i], i);
        i += 1;
        assert forall|j: int| 0 <= j < i implies #[trigger] inv@[o[j] as int] == j by {
            if j < i - 1 {
                assert(o[j] != o[i - 1]);
            }
        }
    }
    assert forall|u: int| 0 <= u < n implies #[trigger] inv@[u] < n && o[inv@[u] as int] == u by {
        assert(lists(o, u));
        let j = choose|j: int| 0 <= j < o.len() && #[trigger] o[j] == u;
        assert(inv@[o[j] as int] == j);
    }
    let vertices = graph.vertices();
    let mut vs: Vec<Vertex> = Vec::new();
    let mut i: usize = 0;
    while i < n
        invariant
            i <= n,
            n == graph.n(),
            o == order@,
            is_permutation(o, n as nat),
            vertices@ == graph.vertices_view(),
            vs@.len() == i,
            forall|j: int| 0 <= j < i ==> #[trigger] vs@[j] == vertices@[o[j] as int],
        decreases n - i,
    {
        vs.push(vertices[order[i]]);
        i += 1;
    }
    let edges = graph.edges();
    proof {
        lemma_valid_edges(graph.n(), graph.edges_view());
    }
    let mut es: Vec<Edge> = Vec::new();
    let mut i: usize = 0;
    while i < edges.len()
        invariant
            i <= edges@.len(),
            n == graph.n(),
            edges@ == graph.edges_view(),
            inv@.len() == n,
            forall|j: int| 0 <= j < edges@.len() ==> #[trigger] edges@[j].a < n && edges@[j].b < n && edges@[j].a != edges@[j].b,
            renamed_edges(es@, edges@.subrange(0, i as int), inv@),
        decreases edges@.len() - i,
    {
        let e = edges[i];
        es.push(Edge { a: inv[e.a], b: inv[e.b], w: e.w });
        i += 1;
        assert(renamed_edges(es@, edges@.subrange(0, i as int), inv@));
    }
    assert(edges@.subrange(0, i as int) =~= edges@);
    proof {
        let es2 = es@;
        let es1 = edges@;
        assert forall|j: int| 0 <= j < es2.len() implies #[trigger] es2[j].a < n && es2[j].b < n && es2[j].a != es2[j].b by {
            assert(es1[j].a < n && es1[j].b < n && es1[j].a != es1[j].b);
            assert(o[inv@[es1[j].a as int] as int] == es1[j].a);
            assert(o[inv@[es1[j].b as int] as int] == es1[j].b);
        }
        assert forall|j: int, k: int| 0 <= j < k < es2.len() implies !joins(#[trigger] es2[j], es2[k].a as int, #[trigger] es2[k].b as int) by {
            assert(!joins(es1[j], es1[k].a as int, es1[k].b as int));
            assert(o[inv@[es1[j].a as int] as int] == es1[j].a);
            assert(o[inv@[es1[j].b as int] as int] == es1[j].b);
            assert(o[inv@[es1[k].a as int] as int] == es1[k].a);
            assert(o[inv@[es1[k].b as int] as int] == es1[k].b);
        }
        lemma_total_renamed(es2, es1, inv@);
        lemma_valid_from_facts(n as nat, es2);
        assert forall|x: int, y: int| 0 <= x < n && 0 <= y < n implies #[trigger] edge_matrix(es2, n as nat)[x][y]
            == edge_matrix(es1, n as nat)[o[x] as int][o[y] as int] by {
            lemma_edge_weight_renamed(es2, es1, inv@, o, n as nat, x, y);
        }
    }
    let g = Graph::new(vs, es).unwrap();
    (g, inv)
}

} // verus!
