//! The whole solver: reorder the vertices, search, and report the answer
//! in the graph's own vertex numbers.
use crate::graph::Graph;
use crate::model::{candidate, symmetric_matrix, weight, within};
use crate::order::{inverse_of, is_permutation, order_by_weight, relabel, weighted_degrees};
use crate::perm::{lemma_sort_seq, lemma_weight_perm, lemma_weight_renumbered, lemma_within_perm, rename, renumbered, sort_seq};
use crate::matrix::{edge_matrix, lemma_edge_matrix_symmetric};
use crate::solver::{Bruteforcer, SolveError};
use vstd::prelude::*;

verus! {

broadcast use vstd::seq_lib::group_to_multiset_ensures;

/// A vertex subset and its weight.
#[derive(Debug)]
pub struct Solution {
    pub vertices: Vec<usize>,
    pub weight: u64,
}

/// The weight matrix of a graph.
pub open spec fn graph_matrix(g: Graph) -> Seq<Seq<u64>> {
    edge_matrix(g.edges_view(), g.n())
}

/// `s`, of weight `w`, is a heaviest set of at most `k` distinct vertices.
pub open spec fn heaviest(m: Seq<Seq<u64>>, k: nat, s: Seq<usize>, w: int) -> bool {
    &&& s.no_duplicates()
    &&& within(s, 0, m.len() as int)
    &&& s.len() <= k
    &&& weight(m, s) == w
    &&& forall|t: Seq<usize>| candidate(t, m.len(), k) ==> weight(m, t) <= w
}

/// If no subset of at most `k` vertices weighs more than `w` in `m2`, the
/// same holds in `m`, of which `m2` is a renumbering.
pub proof fn lemma_optimum_transfers(
    m2: Seq<Seq<u64>>,
    m: Seq<Seq<u64>>,
    o: Seq<usize>,
    inv: Seq<usize>,
    n: nat,
    k: nat,
    w: int,
)
    requires
        symmetric_matrix(m2, n),
        m.len() == n,
        m2.len() == n,
        renumbered(m2, m, o, n),
        is_permutation(o, n),
        inverse_of(inv, o, n),
        forall|u: Seq<usize>| candidate(u, n, k) ==> weight(m2, u) <= w,
    ensures
        forall|t: Seq<usize>| candidate(t, n, k) ==> weight(m, t) <= w,
{
    assert forall|t: Seq<usize>| candidate(t, n, k) implies weight(m, t) <= w by {
        let t2 = rename(t, inv);
        assert(t2.no_duplicates()) by {
            assert forall|x: int, y: int| 0 <= x < t2.len() && 0 <= y < t2.len() && x != y implies t2[x] != t2[y] by {
                if x < y {
                    assert(t[x] < t[y]);
                } else {
                    assert(t[y] < t[x]);
                }
                assert(o[inv[t[x] as int] as int] == t[x]);
                assert(o[inv[t[y] as int] as int] == t[y]);
            }
        }
        assert(within(t2, 0, n as int)) by {
            assert forall|x: int| 0 <= x < t2.len() implies 0 <= #[trigger] t2[x] < n by {
                assert(0 <= t[x] < n);
            }
        }
        let u = sort_seq(t2);
        lemma_sort_seq(t2);
        lemma_within_perm(t2, u, 0, n as int);
        assert(u.len() == t2.len()) by {
            assert(u.to_multiset().len() == t2.to_multiset().len());
        }
        assert(candidate(u, n, k));
        lemma_weight_perm(m2, n, t2, u);
        lemma_weight_renumbered(m2, m, o, n, t2);
        assert(rename(t2, o) =~= t) by {
            assert forall|x: int| 0 <= x < t.len() implies #[trigger] rename(t2, o)[x] == t[x] by {
                assert(0 <= t[x] < n);
            }
        }
    }
}

/// Finds a heaviest set of at most `max_size` vertices of `graph`, as
/// vertex numbers of `graph` with its weight. Fails when `max_size` is 0.
pub fn find_heaviest_subgraph(graph: Graph, max_size: usize) -> (r: Result<Solution, SolveError>)
    requires
        graph.wf(),
    ensures
        max_size == 0 ==> r == Err::<Solution, SolveError>(SolveError::ZeroSize),
        max_size > 0 ==> (r matches Ok(s)
            && heaviest(graph_matrix(graph), max_size as nat, s.vertices@, s.weight as int)),
{
    let n = graph.vertex_count();
    let ghost m = graph_matrix(graph);
    let d = weighted_degrees(&graph);
    let order = order_by_weight(&d);
    let (g2, inv) = relabel(&graph, &order);
    let ghost m2 = graph_matrix(g2);
    let ghost o = order@;
    proof {
        lemma_edge_matrix_symmetric(graph.edges_view(), n as nat);
        lemma_edge_matrix_symmetric(g2.edges_view(), n as nat);
    }
    let mut b = match Bruteforcer::new(g2, max_size) {
        Ok(b) => b,
        Err(e) => {
            return Err(e);
        },
    };
    b.solve();
    let best = b.best_subgraph_so_far();
    let mut vs: Vec<usize> = Vec::new();
    let mut i: usize = 0;
    while i < best.len()
        invariant
            i <= best@.len(),
            o == order@,
            is_permutation(o, n as nat),
            within(best@, 0, n as int),
            vs@ == rename(best@.subrange(0, i as int), o),
        decreases best@.len() - i,
    {
        vs.push(order[best[i]]);
        i += 1;
        assert(vs@ =~= rename(best@.subrange(0, i as int), o));
    }
    assert(best@.subrange(0, i as int) =~= best@);
    let w = b.best_weight_so_far();
    proof {
        let bs = best@;
        lemma_weight_renumbered(m2, m, o, n as nat, bs);
        assert(vs@.no_duplicates()) by {
            assert forall|x: int, y: int| 0 <= x < vs@.len() && 0 <= y < vs@.len() && x != y implies vs@[x] != vs@[y] by {
                assert(0 <= bs[x] < n && 0 <= bs[y] < n);
                if x < y {
                    assert(bs[x] < bs[y]);
                    assert(o[bs[x] as int] != o[bs[y] as int]);
                } else {
                    assert(bs[y] < bs[x]);
                    assert(o[bs[y] as int] != o[bs[x] as int]);
                }
            }
        }
        assert(within(vs@, 0, n as int)) by {
            assert forall|x: int| 0 <= x < vs@.len() implies 0 <= #[trigger] vs@[x] < n by {
                assert(0 <= bs[x] < n);
            }
        }
        lemma_optimum_transfers(m2, m, o, inv@, n as nat, max_size as nat, w as int);
    }
    Ok(Solution { vertices: vs, weight: w })
}

} // verus!
