//! General facts about the optimum that the search reports.
use crate::graph::{total_weight, Edge, Graph};
use crate::heaviest::{graph_matrix, lemma_optimum_transfers};
use crate::order::{inverse_of, is_permutation, lists};
use crate::perm::renumbered;
use crate::model::{
    candidate, cross, is_optimum, symmetric_matrix, within, lemma_span_props, lemma_weight_le_span, span, weight,
};
use crate::matrix::{edge_matrix, lemma_whole_graph_weight};
use vstd::prelude::*;

verus! {

/// Two heaviest subsets under the same size bound weigh the same. So the
/// weight that a search reports depends on the weight matrix and the bound
/// alone: running it again, or with the cross-weight refinement of the bound
/// switched off, reports the same weight, whichever subset it picks among
/// ties.
pub proof fn lemma_optimum_weight_unique(m: Seq<Seq<u64>>, k: nat, s1: Seq<usize>, w1: int, s2: Seq<usize>, w2: int)
    requires
        is_optimum(m, k, s1, w1),
        is_optimum(m, k, s2, w2),
    ensures
        w1 == w2,
{
    assert(weight(m, s2) <= w1);
    assert(weight(m, s1) <= w2);
}

/// Renumbering the vertices by a permutation keeps the optimum weight: the
/// search reports the same weight for a graph before and after its vertices
/// are reordered.
pub proof fn lemma_renumbering_keeps_optimum(
    m: Seq<Seq<u64>>,
    m2: Seq<Seq<u64>>,
    o: Seq<usize>,
    inv: Seq<usize>,
    n: nat,
    k: nat,
    s: Seq<usize>,
    w: int,
    s2: Seq<usize>,
    w2: int,
)
    requires
        symmetric_matrix(m, n),
        symmetric_matrix(m2, n),
        renumbered(m2, m, o, n),
        is_permutation(o, n),
        inverse_of(inv, o, n),
        is_optimum(m, k, s, w),
        is_optimum(m2, k, s2, w2),
    ensures
        w == w2,
{
    lemma_optimum_transfers(m2, m, o, inv, n, k, w2);
    assert(renumbered(m, m2, inv, n)) by {
        assert forall|x: int, y: int| 0 <= x < n && 0 <= y < n implies #[trigger] m[x][y] == m2[inv[x] as int][inv[y] as int] by {
            assert(inv[x] < n && inv[y] < n);
        }
    }
    assert(is_permutation(inv, n)) by {
        assert forall|i: int, j: int| 0 <= i < j < n implies #[trigger] inv[i] != #[trigger] inv[j] by {
            assert(o[inv[i] as int] == i && o[inv[j] as int] == j);
        }
        assert forall|v: int| 0 <= v < n implies #[trigger] lists(inv, v) by {
            assert(o[v] < n);
            assert(inv[o[v] as int] == v);
        }
    }
    assert(inverse_of(o, inv, n)) by {
        assert forall|v: int| 0 <= v < n implies #[trigger] o[v] < n && inv[o[v] as int] == v by {
            assert(o[v] < n);
        }
    }
    lemma_optimum_transfers(m, m2, inv, o, n, k, w);
}

/// With room for a single vertex there is no pair, so the optimum weighs 0.
pub proof fn lemma_size_one(m: Seq<Seq<u64>>, s: Seq<usize>, w: int)
    requires
        is_optimum(m, 1, s, w),
    ensures
        w == 0,
{
    if s.len() == 1 {
        assert(s.drop_last() =~= Seq::<usize>::empty());
        assert(cross(m, s.last(), Seq::<usize>::empty()) == 0);
        assert(weight(m, Seq::<usize>::empty()) == 0);
    } else {
        assert(s.len() == 0);
    }
}

/// With room for every vertex, the optimum is the weight of the whole graph.
pub proof fn lemma_size_covers_graph(m: Seq<Seq<u64>>, k: nat, s: Seq<usize>, w: int)
    requires
        is_optimum(m, k, s, w),
        k >= m.len(),
        m.len() <= usize::MAX,
    ensures
        w == weight(m, span(0, m.len() as int)),
{
    let all = span(0, m.len() as int);
    lemma_span_props(0, m.len() as int);
    assert(candidate(all, m.len(), k));
    lemma_weight_le_span(m, s, m.len() as int);
}

/// With room for every vertex of a valid graph, the optimum takes every
/// edge: it weighs the sum of all edge weights.
pub proof fn lemma_size_covers_all_edges(g: Graph, k: nat, s: Seq<usize>, w: int)
    requires
        g.wf(),
        is_optimum(graph_matrix(g), k, s, w),
        k >= g.n(),
    ensures
        w == total_weight(g.edges_view()),
{
    lemma_size_covers_graph(graph_matrix(g), k, s, w);
    lemma_whole_graph_weight(g.n(), g.edges_view());
}

proof fn lemma_zero_weight(n: nat, s: Seq<usize>)
    requires
        within(s, 0, n as int),
    ensures
        weight(edge_matrix(Seq::<Edge>::empty(), n), s) == 0,
    decreases s.len(),
{
    if s.len() > 0 {
        assert(0 <= s[s.len() - 1] < n);
        lemma_zero_weight(n, s.drop_last());
        lemma_zero_cross(n, s.last(), s.drop_last());
    }
}

proof fn lemma_zero_cross(n: nat, v: usize, s: Seq<usize>)
    requires
        v < n,
        within(s, 0, n as int),
    ensures
        cross(edge_matrix(Seq::<Edge>::empty(), n), v, s) == 0,
    decreases s.len(),
{
    if s.len() > 0 {
        lemma_zero_cross(n, v, s.drop_last());
        assert(0 <= s[s.len() - 1] < n);
    }
}

/// Without edges every subset weighs 0: the optimum is 0, and every subset
/// within the size bound is a heaviest one.
pub proof fn lemma_no_edges(n: nat, k: nat, s: Seq<usize>)
    requires
        candidate(s, n, k),
    ensures
        is_optimum(edge_matrix(Seq::<Edge>::empty(), n), k, s, 0),
{
    let m = edge_matrix(Seq::<Edge>::empty(), n);
    lemma_zero_weight(n, s);
    assert forall|t: Seq<usize>| candidate(t, m.len(), k) implies weight(m, t) <= 0 by {
        lemma_zero_weight(n, t);
    }
}

} // verus!
