//! The weight matrix of a graph: the weight of each pair of vertices, held
//! as one adjacency map per vertex, and facts about its total weight.
use crate::graph::{
    edge_weight, edges_valid, joins, lemma_valid_edges, lemma_valid_prefix, total_weight, Edge, Graph,
};
use crate::model::{cross, lemma_cross_push, lemma_span_push, lemma_weight_push, span, symmetric_matrix, weight};
use std::collections::HashMap;
use vstd::prelude::*;

verus! {

broadcast use vstd::std_specs::hash::group_hash_axioms;

/// The weight matrix of an edge list over `n` vertices.
pub open spec fn edge_matrix(es: Seq<Edge>, n: nat) -> Seq<Seq<u64>> {
    Seq::new(n, |a: int| Seq::new(n, |b: int| edge_weight(es, a, b) as u64))
}

/// The weight of `b` in the adjacency map `row`: 0 where it has none.
pub open spec fn lookup(row: Map<usize, u64>, b: int) -> u64 {
    if row.contains_key(b as usize) {
        row[b as usize]
    } else {
        0
    }
}

/// The weight matrix held by per-vertex adjacency maps.
pub open spec fn maps_view(rows: Seq<HashMap<usize, u64>>) -> Seq<Seq<u64>> {
    Seq::new(rows.len(), |a: int| Seq::new(rows.len(), |b: int| lookup(rows[a]@, b)))
}

/// The weight between `a` and `b`.
pub(crate) fn weight_at(rows: &Vec<HashMap<usize, u64>>, a: usize, b: usize) -> (r: u64)
    requires
        a < rows@.len(),
        b < rows@.len(),
    ensures
        r == maps_view(rows@)[a as int][b as int],
{
    match rows[a].get(&b) {
        Some(w) => *w,
        None => 0,
    }
}

/// For each vertex, a map from its neighbours to the weights of the edges
/// joining them.
pub(crate) fn build_matrix(graph: &Graph) -> (mat: Vec<HashMap<usize, u64>>)
    requires
        graph.wf(),
    ensures
        maps_view(mat@) == edge_matrix(graph.edges_view(), graph.n()),
        symmetric_matrix(maps_view(mat@), graph.n()),
{
    let n = graph.vertex_count();
    let edges = graph.edges();
    proof {
        lemma_valid_edges(graph.n(), graph.edges_view());
    }
    let mut mat: Vec<HashMap<usize, u64>> = Vec::new();
    let mut a: usize = 0;
    while a < n
        invariant
            a <= n,
            mat@.len() == a,
            forall|x: int| 0 <= x < a ==> #[trigger] mat@[x]@ == Map::<usize, u64>::empty(),
        decreases n - a,
    {
        mat.push(HashMap::new());
        a += 1;
    }
    let mut i: usize = 0;
    while i < edges.len()
        invariant
            0 <= i <= edges@.len(),
            edges@ == graph.edges_view(),
            n == graph.n(),
            mat@.len() == n,
            forall|i: int| 0 <= i < edges@.len() ==> #[trigger] edges@[i].a < n && edges@[i].b < n && edges@[i].a != edges@[i].b,
            forall|x: int, y: int|
                0 <= x < n && 0 <= y < n ==> #[trigger] lookup(mat@[x]@, y) == edge_weight(edges@.subrange(0, i as int), x, y),
        decreases edges@.len() - i,
    {
        let e = edges[i];
        let ghost pre = edges@.subrange(0, i as int);
        assert(edges@.subrange(0, i + 1) =~= pre.push(e));
        let ghost before = mat@;
        mat[e.a].insert(e.b, e.w);
        mat[e.b].insert(e.a, e.w);
        i += 1;
        assert forall|x: int, y: int| 0 <= x < n && 0 <= y < n implies #[trigger] lookup(mat@[x]@, y) == edge_weight(
            edges@.subrange(0, i as int),
            x,
            y,
        ) by {
            assert(edges@.subrange(0, i as int).drop_last() =~= pre);
            assert(e.a < n && e.b < n && e.a != e.b);
            assert(edges@.subrange(0, i as int).last() == e);
            assert(lookup(before[x]@, y) == edge_weight(pre, x, y));
            if x == e.a {
                assert(mat@[x]@ == before[x]@.insert(e.b, e.w));
                if y == e.b {
                    assert(lookup(mat@[x]@, y) == e.w);
                } else {
                    assert(lookup(mat@[x]@, y) == lookup(before[x]@, y));
                }
            } else if x == e.b {
                assert(mat@[x]@ == before[x]@.insert(e.a, e.w));
                if y == e.a {
                    assert(lookup(mat@[x]@, y) == e.w);
                } else {
                    assert(lookup(mat@[x]@, y) == lookup(before[x]@, y));
                }
            } else {
                assert(mat@[x]@ == before[x]@);
            }
        }
    }
    assert(edges@.subrange(0, i as int) =~= edges@);
    proof {
        lemma_edge_weight_bound(edges@);
    }
    assert(maps_view(mat@) =~= edge_matrix(graph.edges_view(), graph.n())) by {
        let m = maps_view(mat@);
        let em = edge_matrix(graph.edges_view(), graph.n());
        assert forall|x: int| 0 <= x < n implies #[trigger] m[x] =~= em[x] by {
            assert forall|y: int| 0 <= y < n implies m[x][y] == em[x][y] by {
                assert(lookup(mat@[x]@, y) == edge_weight(edges@, x, y));
            }
        }
    }
    proof {
        lemma_edge_matrix_symmetric(graph.edges_view(), graph.n());
    }
    mat
}

pub proof fn lemma_edge_weight_bound(es: Seq<Edge>)
    ensures
        forall|x: int, y: int| #[trigger] edge_weight(es, x, y) <= u64::MAX,
    decreases es.len(),
{
    if es.len() > 0 {
        lemma_edge_weight_bound(es.drop_last());
        assert forall|x: int, y: int| #[trigger] edge_weight(es, x, y) <= u64::MAX by {
            assert(edge_weight(es.drop_last(), x, y) <= u64::MAX);
        }
    }
}

/// The weight matrix of an edge list is symmetric.
pub proof fn lemma_edge_matrix_symmetric(es: Seq<Edge>, n: nat)
    ensures
        symmetric_matrix(edge_matrix(es, n), n),
{
    assert forall|a: int, b: int| 0 <= a < n && 0 <= b < n implies #[trigger] edge_matrix(es, n)[a][b] == edge_matrix(
        es,
        n,
    )[b][a] by {
        lemma_edge_weight_symmetric(es, a, b);
    }
}

proof fn lemma_edge_weight_symmetric(es: Seq<Edge>, x: int, y: int)
    ensures
        edge_weight(es, x, y) == edge_weight(es, y, x),
    decreases es.len(),
{
    if es.len() > 0 {
        lemma_edge_weight_symmetric(es.drop_last(), x, y);
    }
}

proof fn lemma_edge_weight_absent(es: Seq<Edge>, a: int, b: int)
    requires
        forall|j: int| 0 <= j < es.len() ==> !#[trigger] joins(es[j], a, b),
    ensures
        edge_weight(es, a, b) == 0,
    decreases es.len(),
{
    if es.len() > 0 {
        assert(!joins(es[es.len() - 1], a, b));
        lemma_edge_weight_absent(es.drop_last(), a, b);
    }
}

/// `m2` is `m` with `w` added to the pair `{a, b}`.
spec fn adds_pair(m2: Seq<Seq<u64>>, m: Seq<Seq<u64>>, n: nat, a: int, b: int, w: int) -> bool {
    forall|x: int, y: int|
        0 <= x < n && 0 <= y < n ==> #[trigger] m2[x][y] == m[x][y] + if (x == a && y == b) || (x == b && y == a) {
            w
        } else {
            0
        }
}

proof fn lemma_adds_pair_cross(m2: Seq<Seq<u64>>, m: Seq<Seq<u64>>, n: nat, a: int, b: int, w: int, v: usize, h: int)
    requires
        adds_pair(m2, m, n, a, b, w),
        0 <= a < n,
        0 <= b < n,
        v < n,
        0 <= h <= n,
        n <= usize::MAX,
    ensures
        cross(m2, v, span(0, h)) == cross(m, v, span(0, h)) + if (v == a && b < h) || (v == b && a < h) {
            w
        } else {
            0
        },
    decreases h,
{
    if h > 0 {
        lemma_adds_pair_cross(m2, m, n, a, b, w, v, h - 1);
        lemma_span_push(0, h - 1);
        lemma_cross_push(m2, v, span(0, h - 1), (h - 1) as usize);
        lemma_cross_push(m, v, span(0, h - 1), (h - 1) as usize);
        assert(m2[v as int][h - 1] == m[v as int][h - 1] + if (v == a && h - 1 == b) || (v == b && h - 1 == a) {
            w
        } else {
            0
        });
    }
}

proof fn lemma_adds_pair_weight(m2: Seq<Seq<u64>>, m: Seq<Seq<u64>>, n: nat, a: int, b: int, w: int, h: int)
    requires
        adds_pair(m2, m, n, a, b, w),
        0 <= a < n,
        0 <= b < n,
        a != b,
        0 <= h <= n,
        n <= usize::MAX,
    ensures
        weight(m2, span(0, h)) == weight(m, span(0, h)) + if a < h && b < h {
            w
        } else {
            0
        },
    decreases h,
{
    if h > 0 {
        lemma_adds_pair_weight(m2, m, n, a, b, w, h - 1);
        lemma_span_push(0, h - 1);
        lemma_weight_push(m2, span(0, h - 1), (h - 1) as usize);
        lemma_weight_push(m, span(0, h - 1), (h - 1) as usize);
        lemma_adds_pair_cross(m2, m, n, a, b, w, (h - 1) as usize, h - 1);
    }
}

/// The whole of a valid graph weighs the sum of its edge weights.
pub proof fn lemma_whole_graph_weight(n: nat, es: Seq<Edge>)
    requires
        edges_valid(n, es),
        n <= usize::MAX,
    ensures
        weight(edge_matrix(es, n), span(0, n as int)) == total_weight(es),
    decreases es.len(),
{
    if es.len() == 0 {
        lemma_zero_span(n, es, n as int);
    } else {
        let p = es.drop_last();
        let e = es.last();
        assert(p =~= es.subrange(0, es.len() - 1));
        lemma_valid_prefix(n, es, es.len() - 1);
        lemma_whole_graph_weight(n, p);
        lemma_valid_edges(n, es);
        lemma_edge_weight_bound(es);
        lemma_edge_weight_bound(p);
        assert forall|j: int| 0 <= j < p.len() implies !#[trigger] joins(p[j], e.a as int, e.b as int) by {
            assert(p[j] == es[j]);
            assert(!joins(es[j], es[es.len() - 1].a as int, es[es.len() - 1].b as int));
        }
        lemma_edge_weight_absent(p, e.a as int, e.b as int);
        lemma_edge_weight_symmetric(p, e.a as int, e.b as int);
        assert(es[es.len() - 1] == e);
        assert(adds_pair(edge_matrix(es, n), edge_matrix(p, n), n, e.a as int, e.b as int, e.w as int));
        lemma_adds_pair_weight(edge_matrix(es, n), edge_matrix(p, n), n, e.a as int, e.b as int, e.w as int, n as int);
    }
}

proof fn lemma_zero_span(n: nat, es: Seq<Edge>, h: int)
    requires
        es.len() == 0,
        0 <= h <= n,
        n <= usize::MAX,
    ensures
        weight(edge_matrix(es, n), span(0, h)) == 0,
    decreases h,
{
    if h > 0 {
        lemma_zero_span(n, es, h - 1);
        lemma_span_push(0, h - 1);
        lemma_weight_push(edge_matrix(es, n), span(0, h - 1), (h - 1) as usize);
        lemma_zero_cross_span(n, es, (h - 1) as usize, h - 1);
    }
}

proof fn lemma_zero_cross_span(n: nat, es: Seq<Edge>, v: usize, h: int)
    requires
        es.len() == 0,
        v < n,
        0 <= h <= n,
        n <= usize::MAX,
    ensures
        cross(edge_matrix(es, n), v, span(0, h)) == 0,
    decreases h,
{
    if h > 0 {
        lemma_zero_cross_span(n, es, v, h - 1);
        lemma_span_push(0, h - 1);
        lemma_cross_push(edge_matrix(es, n), v, span(0, h - 1), (h - 1) as usize);
    }
}

} // verus!
