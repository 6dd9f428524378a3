//! Branch-and-bound search for a heaviest induced subgraph of bounded size.
use crate::bounds::{
    build_right, build_tables, min_u64, right_links_ok, rows_view, sort_ascending, table_row_ok, tables_ok, Link,
};
use crate::graph::{edge_weight, lemma_valid_edges, Graph};
use crate::matrix::{
    build_matrix, edge_matrix, lemma_edge_weight_bound, lemma_whole_graph_weight, maps_view, weight_at,
};
use crate::model::{
    candidate, cross, cross_row, cross_sum, increasing, is_optimum, lemma_cross_bound, lemma_cross_concat,
    lemma_cross_nonneg, lemma_cross_push, lemma_increasing_len, lemma_suffix_bound, lemma_weight_concat,
    lemma_weight_le_span, lemma_weight_nonneg, lemma_weight_push, pairs, span, suffix_weights,
    symmetric_matrix, weight, within,
};
use crate::sums::{lemma_top_all, lemma_top_next, sorted_asc, top_sum};
use std::collections::HashMap;
use vstd::prelude::*;

verus! {

broadcast use vstd::seq_lib::group_to_multiset_ensures;

/// Why a search could not be set up.
#[derive(Clone, Copy, PartialEq, Eq, Debug, Structural)]
pub enum SolveError {
    /// The size bound was 0.
    ZeroSize,
}

/// Searches for a heaviest subgraph of at most `max_size` vertices.
///
/// The search keeps the partial subgraph it is extending (`subgraph`, in
/// increasing order, with its weight) and the heaviest subgraph met so far.
pub struct Bruteforcer {
    graph: Graph,
    max_size: usize,
    cap: usize,
    matrix: Vec<HashMap<usize, u64>>,
    subgraph: Vec<usize>,
    subgraph_weight: u64,
    edges_to_right: Vec<Vec<Link>>,
    upper_limits: Vec<Vec<u64>>,
    best_weight_so_far: u64,
    best_subgraph_so_far: Vec<usize>,
    cross_refinement: bool,
    sorted_suffixes: Ghost<Seq<Seq<u64>>>,
}

impl Bruteforcer {
    /// The weight matrix.
    pub closed spec fn mat(&self) -> Seq<Seq<u64>> {
        maps_view(self.matrix@)
    }

    pub closed spec fn n(&self) -> nat {
        self.matrix@.len()
    }

    /// The size bound.
    pub closed spec fn k(&self) -> nat {
        self.max_size as nat
    }

    pub closed spec fn graph_view(&self) -> Graph {
        self.graph
    }

    pub closed spec fn partial(&self) -> Seq<usize> {
        self.subgraph@
    }

    pub closed spec fn partial_weight(&self) -> int {
        self.subgraph_weight as int
    }

    pub closed spec fn best(&self) -> Seq<usize> {
        self.best_subgraph_so_far@
    }

    pub closed spec fn best_weight(&self) -> int {
        self.best_weight_so_far as int
    }

    /// Whether the cross-weight refinement of the bound is used; without it
    /// no subtree is pruned.
    pub closed spec fn refining(&self) -> bool {
        self.cross_refinement
    }

    /// The largest size budget that the bound table covers: the smaller of
    /// the size bound and the vertex count.
    pub closed spec fn table_width(&self) -> nat {
        self.cap as nat
    }

    /// The bound table: entry `[u][k]` bounds the weight of any `k` vertices
    /// from `u` on.
    pub closed spec fn table(&self) -> Seq<Seq<u64>> {
        rows_view(self.upper_limits@)
    }

    /// For each vertex `u`, the weights of the edges whose lower end is at
    /// least `u`, in ascending order.
    pub closed spec fn suffixes(&self) -> Seq<Seq<u64>> {
        self.sorted_suffixes@
    }

    /// For each vertex, its links to later vertices.
    pub closed spec fn links(&self) -> Seq<Seq<Link>> {
        self.edges_to_right@.map_values(|l: Vec<Link>| l@)
    }

    /// What holds of every state of a search, stated over its views.
    pub open spec fn valid(&self) -> bool {
        let m = self.mat();
        let n = self.n();
        &&& n == self.graph_view().n()
        &&& self.graph_view().wf()
        &&& m == edge_matrix(self.graph_view().edges_view(), n)
        &&& self.k() >= 1
        &&& self.table_width() == if self.k() < n { self.k() } else { n }
        &&& self.links().len() == n
        &&& forall|a: int| 0 <= a < n ==> right_links_ok(m, n, a, #[trigger] self.links()[a])
        &&& tables_ok(m, n, self.table_width(), self.table(), self.suffixes())
        &&& candidate(self.partial(), n, self.k())
        &&& self.partial_weight() == weight(m, self.partial())
        &&& candidate(self.best(), n, self.k())
        &&& self.best_weight() == weight(m, self.best())
    }

    /// `self` searches the same graph as `o`, under the same bound, with the
    /// same tables.
    pub open spec fn same_setup(&self, o: &Bruteforcer) -> bool {
        &&& self.graph_view() == o.graph_view()
        &&& self.mat() == o.mat()
        &&& self.n() == o.n()
        &&& self.k() == o.k()
        &&& self.refining() == o.refining()
        &&& self.table_width() == o.table_width()
        &&& self.table() == o.table()
        &&& self.suffixes() == o.suffixes()
        &&& self.links() == o.links()
    }

    /// Everything that the search does not change.
    pub closed spec fn same_problem(&self, o: &Bruteforcer) -> bool {
        &&& self.graph == o.graph
        &&& self.max_size == o.max_size
        &&& self.cap == o.cap
        &&& self.matrix@ == o.matrix@
        &&& self.edges_to_right@ == o.edges_to_right@
        &&& self.upper_limits@ == o.upper_limits@
        &&& self.cross_refinement == o.cross_refinement
        &&& self.sorted_suffixes == o.sorted_suffixes
    }

    pub closed spec fn inv(&self) -> bool {
        let m = self.mat();
        let n = self.n();
        &&& self.valid()
        &&& n == self.graph.n()
        &&& n <= usize::MAX
        &&& self.graph.wf()
        &&& m == edge_matrix(self.graph.edges_view(), n)
        &&& symmetric_matrix(m, n)
        &&& weight(m, span(0, n as int)) <= u64::MAX
        &&& self.max_size >= 1
        &&& self.cap == if self.max_size < n { self.max_size as nat } else { n }
        &&& self.edges_to_right@.len() == n
        &&& forall|a: int| 0 <= a < n ==> right_links_ok(m, n, a, #[trigger] self.edges_to_right@[a]@)
        &&& tables_ok(m, n, self.cap as nat, rows_view(self.upper_limits@), self.sorted_suffixes@)
        &&& candidate(self.subgraph@, n, self.k())
        &&& self.subgraph_weight == weight(m, self.subgraph@)
        &&& candidate(self.best_subgraph_so_far@, n, self.k())
        &&& self.best_weight_so_far == weight(m, self.best_subgraph_so_far@)
    }

    /// Sets up a search over `graph` for subgraphs of at most `max_size`
    /// vertices, with an empty partial subgraph and an empty best subgraph.
    pub fn new(graph: Graph, max_size: usize) -> (r: Result<Bruteforcer, SolveError>)
        requires
            graph.wf(),
        ensures
            max_size == 0 ==> r == Err::<Bruteforcer, SolveError>(SolveError::ZeroSize),
            max_size > 0 ==> (r matches Ok(b) && b.inv() && b.valid() && b.graph_view() == graph
                && b.n() == graph.n() && b.k() == max_size && b.mat() == edge_matrix(graph.edges_view(), graph.n())
                && b.partial().len() == 0 && b.partial_weight() == 0 && b.best().len() == 0 && b.best_weight() == 0
                && b.refining()),
    {
        if max_size == 0 {
            return Err(SolveError::ZeroSize);
        }
        let n = graph.vertex_count();
        let matrix = build_matrix(&graph);
        proof {
            lemma_whole_graph_weight(graph.n(), graph.edges_view());
            lemma_valid_edges(graph.n(), graph.edges_view());
        }
        let cap = if max_size < n {
            max_size
        } else {
            n
        };
        let edges_to_right = build_right(&matrix, n);
        let (upper_limits, sorted_suffixes) = build_tables(&matrix, &edges_to_right, n, cap);
        let subgraph: Vec<usize> = Vec::new();
        let best_subgraph_so_far: Vec<usize> = Vec::new();
        Ok(Bruteforcer {
            graph,
            max_size,
            cap,
            matrix,
            subgraph,
            subgraph_weight: 0,
            edges_to_right,
            upper_limits,
            best_weight_so_far: 0,
            best_subgraph_so_far,
            cross_refinement: true,
            sorted_suffixes,
        })
    }
}


/// Appending `v`, beyond the vertices of `p`, keeps the weight within that
/// of the whole graph.
proof fn lemma_extend(m: Seq<Seq<u64>>, n: nat, p: Seq<usize>, v: usize)
    requires
        symmetric_matrix(m, n),
        n <= usize::MAX,
        increasing(p),
        within(p, 0, v as int),
        v < n,
        weight(m, span(0, n as int)) <= u64::MAX,
    ensures
        increasing(p.push(v)),
        within(p.push(v), 0, n as int),
        weight(m, p.push(v)) == weight(m, p) + cross(m, v, p),
        0 <= weight(m, p),
        0 <= cross(m, v, p),
        weight(m, p) + cross(m, v, p) <= u64::MAX,
{
    let q = p.push(v);
    assert(increasing(q)) by {
        assert forall|i: int, j: int| 0 <= i < j < q.len() implies q[i] < q[j] by {
            if j == q.len() - 1 {
                assert(p[i] < v);
            } else {
                assert(p[i] < p[j]);
            }
        }
    }
    assert(within(q, 0, n as int)) by {
        assert forall|i: int| 0 <= i < q.len() implies 0 <= #[trigger] q[i] < n by {
            if i < p.len() {
                assert(p[i] < v);
            }
        }
    }
    lemma_weight_push(m, p, v);
    lemma_weight_nonneg(m, p);
    lemma_cross_nonneg(m, v, p);
    lemma_weight_le_span(m, q, n as int);
}

/// A subset of `0..lo` followed by a subset of `lo..hi` is a subset of `0..hi`.
proof fn lemma_join(p: Seq<usize>, t: Seq<usize>, lo: int, hi: int)
    requires
        increasing(p),
        within(p, 0, lo),
        increasing(t),
        within(t, lo, hi),
        lo <= hi,
    ensures
        increasing(p + t),
        within(p + t, 0, hi),
{
    let q = p + t;
    assert forall|i: int, j: int| 0 <= i < j < q.len() implies q[i] < q[j] by {
        if j < p.len() {
            assert(p[i] < p[j]);
        } else if i < p.len() {
            assert(p[i] < lo <= t[j - p.len()]);
        } else {
            assert(t[i - p.len()] < t[j - p.len()]);
        }
    }
    assert forall|i: int| 0 <= i < q.len() implies 0 <= #[trigger] q[i] < hi by {
        if i < p.len() {
            assert(q[i] == p[i]);
            assert(0 <= p[i] < lo);
        } else {
            assert(q[i] == t[i - p.len()]);
            assert(lo <= t[i - p.len()] < hi);
        }
    }
}

/// The weight of a subset of the whole graph fits in a `u64`, and splits
/// into its parts.
proof fn lemma_split(m: Seq<Seq<u64>>, n: nat, p: Seq<usize>, t: Seq<usize>, lo: int)
    requires
        n <= usize::MAX,
        weight(m, span(0, n as int)) <= u64::MAX,
        increasing(p),
        within(p, 0, lo),
        increasing(t),
        within(t, lo, n as int),
        lo <= n,
    ensures
        weight(m, p + t) == weight(m, p) + cross_sum(m, t, p) + weight(m, t),
        weight(m, p + t) <= u64::MAX,
        0 <= weight(m, p),
        0 <= weight(m, t),
        0 <= cross_sum(m, t, p),
{
    lemma_join(p, t, lo, n as int);
    lemma_weight_le_span(m, p + t, n as int);
    lemma_weight_concat(m, p, t);
    lemma_weight_nonneg(m, p);
    lemma_weight_nonneg(m, t);
    lemma_cross_sum_nonneg(m, t, p);
}

proof fn lemma_cross_sum_nonneg(m: Seq<Seq<u64>>, t: Seq<usize>, p: Seq<usize>)
    ensures
        cross_sum(m, t, p) >= 0,
    decreases t.len(),
{
    if t.len() > 0 {
        lemma_cross_sum_nonneg(m, t.drop_last(), p);
        lemma_cross_nonneg(m, t.last(), p);
    }
}

/// An extension of `p` by vertices from `next` on, within the size bound.
pub open spec fn extension(t: Seq<usize>, p: Seq<usize>, next: int, n: nat, k: nat) -> bool {
    &&& increasing(t)
    &&& within(t, next, n as int)
    &&& p.len() + t.len() <= k
}

/// The heaviest subset that the search records, with its weight, when it
/// starts from the partial subgraph `p`, the next vertex `next` and the
/// best subset `b` of weight `w` so far. It records `p` when `p` is strictly
/// heavier than `w`, then explores the extensions of `p` that include
/// `next`, then those that exclude it. Pruning skips only subtrees in which
/// nothing would be recorded, so the search yields exactly this with or
/// without the cross-weight refinement.
pub open spec fn explore(m: Seq<Seq<u64>>, n: nat, k: nat, p: Seq<usize>, next: int, b: Seq<usize>, w: int) -> (
    Seq<usize>,
    int,
)
    decreases n - next,
{
    let (b1, w1) = if weight(m, p) > w {
        (p, weight(m, p))
    } else {
        (b, w)
    };
    if next >= n || p.len() >= k {
        (b1, w1)
    } else {
        let (b2, w2) = explore(m, n, k, p.push(next as usize), next + 1, b1, w1);
        explore(m, n, k, p, next + 1, b2, w2)
    }
}

/// What a search of the weight matrix `m` under the size bound `k` records,
/// started from nothing: a function of `m` and `k` alone.
pub open spec fn search_outcome(m: Seq<Seq<u64>>, k: nat) -> (Seq<usize>, int) {
    explore(m, m.len(), k, Seq::empty(), 0, Seq::empty(), 0)
}

/// Where no extension of `p` is heavier than `w`, the search records
/// nothing new.
proof fn lemma_explore_noop(m: Seq<Seq<u64>>, n: nat, k: nat, p: Seq<usize>, next: int, b: Seq<usize>, w: int)
    requires
        0 <= next <= n,
        n <= usize::MAX,
        p.len() <= k,
        forall|t: Seq<usize>| #![trigger weight(m, p + t)] extension(t, p, next, n, k) ==> weight(m, p + t) <= w,
    ensures
        explore(m, n, k, p, next, b, w) == (b, w),
    decreases n - next,
{
    let e = Seq::<usize>::empty();
    assert(p + e =~= p);
    assert(extension(e, p, next, n, k)) by {
        if p.len() > k {
        }
    }
    if next < n && p.len() < k {
        let q = p.push(next as usize);
        assert forall|t: Seq<usize>| #![trigger weight(m, q + t)] extension(t, q, next + 1, n, k) implies weight(m, q + t)
            <= w by {
            let t2 = seq![next as usize] + t;
            assert(q + t =~= p + t2);
            assert(extension(t2, p, next, n, k)) by {
                assert forall|i: int, j: int| 0 <= i < j < t2.len() implies t2[i] < t2[j] by {
                    if i > 0 {
                        assert(t[i - 1] < t[j - 1]);
                    } else {
                        assert(next + 1 <= t[j - 1]);
                    }
                }
                assert forall|i: int| 0 <= i < t2.len() implies next <= #[trigger] t2[i] < n by {
                    if i == 0 {
                        assert(t2[0] == next as usize);
                    } else {
                        assert(next + 1 <= t[i - 1] < n);
                    }
                }
            }
        }
        lemma_explore_noop(m, n, k, q, next + 1, b, w);
        assert forall|t: Seq<usize>| #![trigger weight(m, p + t)] extension(t, p, next + 1, n, k) implies weight(m, p + t)
            <= w by {
            assert(extension(t, p, next, n, k));
        }
        lemma_explore_noop(m, n, k, p, next + 1, b, w);
    }
}

/// The search's record only grows; it changes only on a strictly heavier
/// subset; and it is either the old record or an extension of `p` with its
/// weight.
pub proof fn lemma_explore_shape(m: Seq<Seq<u64>>, n: nat, k: nat, p: Seq<usize>, next: int, b: Seq<usize>, w: int)
    requires
        0 <= next,
        n <= usize::MAX,
        p.len() <= k,
    ensures
        explore(m, n, k, p, next, b, w).1 >= w,
        explore(m, n, k, p, next, b, w).1 == w ==> explore(m, n, k, p, next, b, w).0 == b,
        explore(m, n, k, p, next, b, w) == (b, w) || exists|t: Seq<usize>|
            extension(t, p, next, n, k) && #[trigger] (p + t) == explore(m, n, k, p, next, b, w).0
                && explore(m, n, k, p, next, b, w).1 == weight(m, p + t),
    decreases n - next,
{
    let r = explore(m, n, k, p, next, b, w);
    let e = Seq::<usize>::empty();
    assert(p + e =~= p);
    let (b1, w1) = if weight(m, p) > w {
        (p, weight(m, p))
    } else {
        (b, w)
    };
    if next < n && p.len() < k {
        let q = p.push(next as usize);
        lemma_explore_shape(m, n, k, q, next + 1, b1, w1);
        let (b2, w2) = explore(m, n, k, q, next + 1, b1, w1);
        lemma_explore_shape(m, n, k, p, next + 1, b2, w2);
        if r != (b, w) {
            if r != (b2, w2) {
                let t = choose|t: Seq<usize>|
                    extension(t, p, next + 1, n, k) && #[trigger] (p + t) == r.0 && r.1 == weight(m, p + t);
                assert(extension(t, p, next, n, k));
            } else if (b2, w2) != (b1, w1) {
                let t = choose|t: Seq<usize>|
                    extension(t, q, next + 1, n, k) && #[trigger] (q + t) == b2 && w2 == weight(m, q + t);
                let t2 = seq![next as usize] + t;
                assert(q + t =~= p + t2);
                assert(extension(t2, p, next, n, k)) by {
                    assert forall|i: int, j: int| 0 <= i < j < t2.len() implies t2[i] < t2[j] by {
                        if i > 0 {
                            assert(t[i - 1] < t[j - 1]);
                        } else {
                            assert(next + 1 <= t[j - 1]);
                        }
                    }
                    assert forall|i: int| 0 <= i < t2.len() implies next <= #[trigger] t2[i] < n by {
                        if i == 0 {
                            assert(t2[0] == next as usize);
                        } else {
                            assert(next + 1 <= t[i - 1] < n);
                        }
                    }
                }
            } else {
                assert(extension(e, p, next, n, k));
            }
        }
    } else {
        if r != (b, w) {
            assert(extension(e, p, next, n, k));
        }
    }
}

/// A search from the empty subgraph at vertex 0 that no subset beats has
/// found an optimum.
proof fn lemma_fresh_optimum(m: Seq<Seq<u64>>, n: nat, k: nat, p: Seq<usize>, best: Seq<usize>, bw: int)
    requires
        p.len() == 0,
        m.len() == n,
        forall|t: Seq<usize>|
            #![trigger weight(m, p + t)]
            increasing(t) && within(t, 0, n as int) && p.len() + t.len() <= k ==> weight(m, p + t) <= bw,
        candidate(best, n, k),
        weight(m, best) == bw,
    ensures
        is_optimum(m, k, best, bw),
{
    assert forall|t: Seq<usize>| candidate(t, m.len(), k) implies weight(m, t) <= bw by {
        assert(p + t =~= t);
    }
}

/// With no vertex left to add, or no room for one, the only extension of
/// `p` is `p` itself.
proof fn lemma_terminal(m: Seq<Seq<u64>>, n: nat, k: nat, p: Seq<usize>, nxt: int, best: int)
    requires
        nxt == n || p.len() == k,
        weight(m, p) <= best,
    ensures
        forall|t: Seq<usize>|
            #![trigger weight(m, p + t)]
            increasing(t) && within(t, nxt, n as int) && p.len() + t.len() <= k ==> weight(m, p + t) <= best,
{
    assert forall|t: Seq<usize>|
        increasing(t) && within(t, nxt, n as int) && p.len() + t.len() <= k implies #[trigger] weight(m, p + t)
        <= best by {
        if t.len() > 0 {
            assert(nxt <= t[0] < n);
        }
        assert(p + t =~= p);
    }
}

/// When the weight of `p`, plus a bound on the cross weight, plus a bound on
/// the weight among the remaining vertices, is at most `best`, no extension
/// of `p` beats `best`.
proof fn lemma_prune(
    m: Seq<Seq<u64>>,
    n: nat,
    k: nat,
    p: Seq<usize>,
    nxt: int,
    c: u64,
    right: u64,
    best: u64,
    acc: Seq<u64>,
    budget: nat,
)
    requires
        symmetric_matrix(m, n),
        n <= usize::MAX,
        weight(m, span(0, n as int)) <= u64::MAX,
        increasing(p),
        within(p, 0, nxt),
        0 <= nxt < n,
        p.len() < k,
        forall|t: Seq<usize>|
            increasing(t) && within(t, nxt, n as int) && t.len() <= k - p.len() ==> cross_sum(m, t, p) <= c,
        right == min_u64(top_sum(acc, pairs(budget))),
        sorted_asc(acc),
        acc.to_multiset() == suffix_weights(m, nxt, n as int),
        budget == k - p.len() || (budget == n && n < k - p.len()),
        min_u64(min_u64(weight(m, p) + c) + right) <= best,
    ensures
        forall|t: Seq<usize>|
            #![trigger weight(m, p + t)]
            increasing(t) && within(t, nxt, n as int) && p.len() + t.len() <= k ==> weight(m, p + t) <= best,
{
    assert forall|t: Seq<usize>|
        increasing(t) && within(t, nxt, n as int) && p.len() + t.len() <= k implies #[trigger] weight(m, p + t)
        <= best by {
        lemma_split(m, n, p, t, nxt);
        lemma_increasing_len(t, nxt, n as int);
        lemma_suffix_bound(m, n, t, nxt, acc, budget);
        assert(cross_sum(m, t, p) <= c);
    }
}

/// An extension of `p` by vertices from `nxt` on either starts with `nxt`
/// or uses only vertices after it.
proof fn lemma_branches(m: Seq<Seq<u64>>, n: nat, k: nat, p: Seq<usize>, nxt: usize, best1: int, best2: int)
    requires
        forall|t: Seq<usize>|
            #![trigger weight(m, p.push(nxt) + t)]
            increasing(t) && within(t, nxt + 1, n as int) && p.push(nxt).len() + t.len() <= k ==> weight(
                m,
                p.push(nxt) + t,
            ) <= best1,
        forall|t: Seq<usize>|
            #![trigger weight(m, p + t)]
            increasing(t) && within(t, nxt + 1, n as int) && p.len() + t.len() <= k ==> weight(m, p + t) <= best2,
        best1 <= best2,
    ensures
        forall|t: Seq<usize>|
            #![trigger weight(m, p + t)]
            increasing(t) && within(t, nxt as int, n as int) && p.len() + t.len() <= k ==> weight(m, p + t) <= best2,
{
    assert forall|t: Seq<usize>|
        increasing(t) && within(t, nxt as int, n as int) && p.len() + t.len() <= k implies #[trigger] weight(m, p + t)
        <= best2 by {
        if t.len() > 0 && t[0] == nxt {
            let rest = t.skip(1);
            assert(increasing(rest) && within(rest, nxt + 1, n as int)) by {
                assert forall|i: int| 0 <= i < rest.len() implies nxt + 1 <= #[trigger] rest[i] < n by {
                    assert(rest[i] == t[i + 1]);
                    assert(t[0] < t[i + 1]);
                }
            }
            assert(p.push(nxt) + rest =~= p + t);
            assert(weight(m, p.push(nxt) + rest) <= best1);
        } else {
            assert(within(t, nxt + 1, n as int)) by {
                assert forall|i: int| 0 <= i < t.len() implies nxt + 1 <= #[trigger] t[i] < n by {
                    if i > 0 {
                        assert(t[0] < t[i]);
                    }
                }
            }
        }
    }
}

impl Bruteforcer {
    /// The weight between `v` and the partial subgraph.
    fn cross_weight(&self, v: usize) -> (r: u64)
        requires
            self.inv(),
            v < self.n(),
            within(self.partial(), 0, v as int),
        ensures
            r == cross(self.mat(), v, self.partial()),
    {
        let ghost m = self.mat();
        let ghost p = self.subgraph@;
        proof {
            lemma_extend(m, self.n(), p, v);
        }
        let mut sum: u64 = 0;
        let mut i: usize = 0;
        while i < self.subgraph.len()
            invariant
                self.inv(),
                m == self.mat(),
                p == self.subgraph@,
                v < self.n(),
                i <= p.len(),
                sum == cross(m, v, p.subrange(0, i as int)),
                cross(m, v, p) <= u64::MAX,
            decreases p.len() - i,
        {
            proof {
                let head = p.subrange(0, i + 1);
                let tail = p.subrange(i + 1, p.len() as int);
                assert(head + tail =~= p);
                lemma_cross_concat(m, v, head, tail);
                lemma_cross_nonneg(m, v, tail);
                assert(head =~= p.subrange(0, i as int).push(p[i as int]));
                lemma_cross_push(m, v, p.subrange(0, i as int), p[i as int]);
                assert(0 <= p[i as int] < self.n());
            }
            sum = sum + weight_at(&self.matrix, v, self.subgraph[i]);
            i += 1;
        }
        assert(p.subrange(0, i as int) =~= p);
        sum
    }

    /// An upper bound on the weight between the partial subgraph and any
    /// `r` vertices from `next` on: the sum of the `r` largest cross weights.
    fn cross_bound(&self, next: usize, r: usize) -> (c: u64)
        requires
            self.inv(),
            next < self.n(),
            within(self.partial(), 0, next as int),
        ensures
            forall|t: Seq<usize>|
                increasing(t) && within(t, next as int, self.n() as int) && t.len() <= r ==> cross_sum(
                    self.mat(),
                    t,
                    self.partial(),
                ) <= c,
    {
        let ghost m = self.mat();
        let ghost p = self.subgraph@;
        let n = self.matrix.len();
        let mut cw: Vec<u64> = Vec::new();
        let mut v: usize = next;
        while v < n
            invariant
                self.inv(),
                m == self.mat(),
                p == self.subgraph@,
                n == self.n(),
                next <= v <= n,
                within(p, 0, next as int),
                cw@ =~= cross_row(m, p, next as int, v as int),
            decreases n - v,
        {
            assert(within(p, 0, v as int)) by {
                assert forall|i: int| 0 <= i < p.len() implies 0 <= #[trigger] p[i] < v by {
                    assert(p[i] < next);
                }
            }
            let x = self.cross_weight(v);
            cw.push(x);
            v += 1;
        }
        let ghost row = cw@;
        sort_ascending(&mut cw);
        let len = cw.len();
        let take = if r < len {
            r
        } else {
            len
        };
        let mut sum: u64 = 0;
        let mut j: usize = 0;
        while j < take
            invariant
                j <= take <= len,
                len == cw@.len(),
                sum == min_u64(top_sum(cw@, j as nat)),
            decreases take - j,
        {
            proof {
                lemma_top_next(cw@, j as nat);
            }
            sum = sum.saturating_add(cw[len - 1 - j]);
            j += 1;
        }
        proof {
            if r >= len {
                lemma_top_all(cw@, r as nat);
            }
            assert forall|t: Seq<usize>|
                increasing(t) && within(t, next as int, n as int) && t.len() <= r implies cross_sum(m, t, p)
                <= sum by {
                assert forall|u: int| next <= u < n implies 0 <= #[trigger] cross(m, u as usize, p) <= u64::MAX by {
                    assert(within(p, 0, u)) by {
                        assert forall|i: int| 0 <= i < p.len() implies 0 <= #[trigger] p[i] < u by {
                            assert(p[i] < next);
                        }
                    }
                    lemma_extend(m, n as nat, p, u as usize);
                }
                lemma_cross_bound(m, p, t, next as int, n as int, cw@, r as nat);
                lemma_split(m, n as nat, p, t, next as int);
            }
        }
        sum
    }

    /// Explores every way of extending the partial subgraph with vertices
    /// from `next_vertex` on, recording each heavier subgraph met.
    ///
    /// On return the partial subgraph is as it was, the best weight has not
    /// decreased, and no extension of the partial subgraph by vertices from
    /// `next_vertex` on, within the size bound, is heavier than the best.
    pub fn run(&mut self, next_vertex: usize)
        requires
            old(self).inv(),
            next_vertex <= old(self).n(),
            within(old(self).partial(), 0, next_vertex as int),
        ensures
            final(self).inv(),
            final(self).valid(),
            final(self).same_problem(old(self)),
            final(self).same_setup(old(self)),
            final(self).partial() == old(self).partial(),
            final(self).partial_weight() == old(self).partial_weight(),
            (final(self).best(), final(self).best_weight()) == explore(
                old(self).mat(),
                old(self).n(),
                old(self).k(),
                old(self).partial(),
                next_vertex as int,
                old(self).best(),
                old(self).best_weight(),
            ),
            final(self).best_weight() >= old(self).best_weight(),
            final(self).best_weight() == old(self).best_weight() ==> final(self).best() == old(self).best(),
            final(self).best() == old(self).best() || exists|t: Seq<usize>|
                extension(t, old(self).partial(), next_vertex as int, old(self).n(), old(self).k())
                    && #[trigger] (old(self).partial() + t) == final(self).best(),
            forall|t: Seq<usize>|
                #![trigger weight(old(self).mat(), old(self).partial() + t)]
                increasing(t) && within(t, next_vertex as int, old(self).n() as int)
                    && old(self).partial().len() + t.len() <= old(self).k()
                    ==> weight(old(self).mat(), old(self).partial() + t) <= final(self).best_weight(),
            next_vertex == 0 && old(self).partial().len() == 0 ==> is_optimum(
                final(self).mat(),
                final(self).k(),
                final(self).best(),
                final(self).best_weight(),
            ),
        decreases old(self).n() - next_vertex,
    {
        let ghost m = self.mat();
        let ghost p = self.subgraph@;
        let ghost n = self.n();
        let ghost k = self.k();
        let ghost b0 = self.best();
        let ghost w0 = self.best_weight();
        proof {
            lemma_explore_shape(m, n, k, p, next_vertex as int, b0, w0);
        }
        if self.subgraph_weight > self.best_weight_so_far {
            self.best_weight_so_far = self.subgraph_weight;
            self.best_subgraph_so_far = self.subgraph.clone();
            assert(self.best_subgraph_so_far@ =~= p);
        }
        let ghost b1 = self.best();
        let ghost w1 = self.best_weight();
        let nv = self.matrix.len();
        let len = self.subgraph.len();
        if next_vertex == nv || len == self.max_size {
            proof {
                lemma_terminal(m, n, k, p, next_vertex as int, self.best_weight());
                assert(explore(m, n, k, p, next_vertex as int, b0, w0) == (b1, w1));
                if next_vertex == 0 && p.len() == 0 {
                    lemma_fresh_optimum(m, n, k, p, b1, w1);
                }
            }
            return;
        }
        // Prune when even an optimistic bound on what the remaining vertices
        // can add does not beat the best weight.
        let remaining = self.max_size - len;
        if self.cross_refinement {
            let budget = if remaining < self.cap {
                remaining
            } else {
                self.cap
            };
            assert(rows_view(self.upper_limits@)[next_vertex as int] == self.upper_limits@[next_vertex as int]@);
            assert(table_row_ok(
                rows_view(self.upper_limits@)[next_vertex as int],
                self.sorted_suffixes@[next_vertex as int],
                self.cap as nat,
            ));
            let right = self.upper_limits[next_vertex][budget];
            if self.subgraph_weight.saturating_add(right) <= self.best_weight_so_far {
                let cross = self.cross_bound(next_vertex, remaining);
                if self.subgraph_weight.saturating_add(cross).saturating_add(right) <= self.best_weight_so_far {
                    proof {
                        let accs = self.sorted_suffixes@;
                        let nxt = next_vertex as int;
                        lemma_prune(m, n, k, p, nxt, cross, right, self.best_weight_so_far, accs[nxt], budget as nat);
                        lemma_explore_noop(m, n, k, p, nxt, b1, w1);
                        assert(explore(m, n, k, p, nxt, b0, w0) == explore(m, n, k, p, nxt, b1, w1));
                        if next_vertex == 0 && p.len() == 0 {
                            lemma_fresh_optimum(m, n, k, p, b1, w1);
                        }
                    }
                    return;
                }
            }
        }
        // Include `next_vertex`, then backtrack.
        let diff = self.cross_weight(next_vertex);
        proof {
            lemma_extend(m, n, p, next_vertex);
        }
        self.subgraph_weight = self.subgraph_weight + diff;
        self.subgraph.push(next_vertex);
        assert(self.subgraph@ == p.push(next_vertex));
        assert(within(self.subgraph@, 0, next_vertex + 1)) by {
            assert forall|i: int| 0 <= i < self.subgraph@.len() implies 0 <= #[trigger] self.subgraph@[i] < next_vertex + 1 by {
                if i < p.len() {
                    assert(self.subgraph@[i] == p[i]);
                }
            }
        }
        let ghost before1 = *self;
        assert(before1.partial() == p.push(next_vertex) && before1.mat() == m && before1.n() == n
            && before1.k() == k);
        self.run(next_vertex + 1);
        let ghost best1 = self.best_weight();
        assert(self.mat() == m && self.n() == n && self.k() == k);
        self.subgraph.pop();
        self.subgraph_weight = self.subgraph_weight - diff;
        assert(self.subgraph@ =~= p);
        assert(within(p, 0, next_vertex + 1)) by {
            assert forall|i: int| 0 <= i < p.len() implies 0 <= #[trigger] p[i] < next_vertex + 1 by {
                assert(p[i] < next_vertex);
            }
        }
        // Exclude it.
        let ghost before2 = *self;
        assert(before2.partial() == p && before2.mat() == m && before2.n() == n && before2.k() == k);
        self.run(next_vertex + 1);
        assert(self.mat() == m && self.n() == n && self.k() == k);
        proof {
            lemma_branches(m, n, k, p, next_vertex, best1, self.best_weight());
            assert(before1.best() == b1 && before1.best_weight() == w1);
            assert(before2.best() == explore(m, n, k, p.push(next_vertex), next_vertex + 1, b1, w1).0);
            assert(before2.best_weight() == explore(m, n, k, p.push(next_vertex), next_vertex + 1, b1, w1).1);
            if next_vertex == 0 && p.len() == 0 {
                lemma_fresh_optimum(m, n, k, p, self.best(), self.best_weight());
            }
        }
    }
}


impl Bruteforcer {
    /// Runs the whole search from an empty partial subgraph; afterwards the
    /// best subgraph is a heaviest subset of at most `k` vertices.
    pub fn solve(&mut self)
        requires
            old(self).inv(),
            old(self).partial().len() == 0,
        ensures
            final(self).inv(),
            final(self).valid(),
            final(self).same_problem(old(self)),
            final(self).same_setup(old(self)),
            final(self).partial().len() == 0,
            final(self).partial_weight() == 0,
            (final(self).best(), final(self).best_weight()) == explore(
                old(self).mat(),
                old(self).n(),
                old(self).k(),
                Seq::empty(),
                0,
                old(self).best(),
                old(self).best_weight(),
            ),
            old(self).best().len() == 0 ==> (final(self).best(), final(self).best_weight()) == search_outcome(
                final(self).mat(),
                final(self).k(),
            ),
            final(self).best_weight() >= old(self).best_weight(),
            final(self).best_weight() == old(self).best_weight() ==> final(self).best() == old(self).best(),
            is_optimum(final(self).mat(), final(self).k(), final(self).best(), final(self).best_weight()),
    {
        let ghost p = self.subgraph@;
        let ghost before = *self;
        assert(before.partial() =~= Seq::<usize>::empty());
        assert(before.best().len() == 0 ==> before.best() =~= Seq::<usize>::empty());
        self.run(0);
        proof {
            let m = self.mat();
            assert forall|t: Seq<usize>| candidate(t, m.len(), self.k()) implies weight(m, t) <= self.best_weight() by {
                assert(p + t =~= t);
                assert(weight(before.mat(), before.partial() + t) <= self.best_weight());
            }
        }
    }

    /// Turns the cross-weight refinement of the bound on or off. Without it
    /// the search prunes nothing; the optimum found is the same.
    pub fn set_cross_refinement(&mut self, on: bool)
        requires
            old(self).inv(),
        ensures
            final(self).inv(),
            final(self).valid(),
            final(self).refining() == on,
            final(self).graph_view() == old(self).graph_view(),
            final(self).mat() == old(self).mat(),
            final(self).n() == old(self).n(),
            final(self).k() == old(self).k(),
            final(self).table_width() == old(self).table_width(),
            final(self).table() == old(self).table(),
            final(self).suffixes() == old(self).suffixes(),
            final(self).links() == old(self).links(),
            final(self).partial() == old(self).partial(),
            final(self).partial_weight() == old(self).partial_weight(),
            final(self).best() == old(self).best(),
            final(self).best_weight() == old(self).best_weight(),
    {
        self.cross_refinement = on;
    }

    pub fn best_weight_so_far(&self) -> (r: u64)
        ensures
            r == self.best_weight(),
    {
        self.best_weight_so_far
    }

    pub fn best_subgraph_so_far(&self) -> (r: &Vec<usize>)
        ensures
            r@ == self.best(),
    {
        &self.best_subgraph_so_far
    }

    pub fn graph(&self) -> (r: &Graph)
        ensures
            *r == self.graph_view(),
    {
        &self.graph
    }

    /// The weight of the pair `{a, b}`, 0 where no edge joins it.
    pub fn pair_weight(&self, a: usize, b: usize) -> (r: u64)
        requires
            self.inv(),
            a < self.n(),
            b < self.n(),
        ensures
            r == self.mat()[a as int][b as int],
            r == edge_weight(self.graph_view().edges_view(), a as int, b as int),
    {
        proof {
            lemma_edge_weight_bound(self.graph.edges_view());
        }
        weight_at(&self.matrix, a, b)
    }

    /// The links from `u` to later vertices, in increasing order of
    /// neighbour, with their nonzero weights.
    pub fn right_neighbors(&self, u: usize) -> (r: &Vec<Link>)
        requires
            self.inv(),
            u < self.n(),
        ensures
            right_links_ok(self.mat(), self.n(), u as int, r@),
    {
        &self.edges_to_right[u]
    }

    /// Entry `[u][k]` of the bound table: the sum of the `k * (k - 1) / 2`
    /// largest weights of the edges whose lower end is at least `u`, capped
    /// at `u64::MAX`. No `k` vertices from `u` on weigh more.
    pub fn upper_limit(&self, u: usize, k: usize) -> (r: u64)
        requires
            self.inv(),
            u < self.n(),
            k <= self.table_width(),
        ensures
            r == self.table()[u as int][k as int],
            r == min_u64(top_sum(self.suffixes()[u as int], pairs(k as nat))),
            forall|t: Seq<usize>|
                increasing(t) && within(t, u as int, self.n() as int) && t.len() <= k ==> #[trigger] weight(
                    self.mat(),
                    t,
                ) <= r,
    {
        let ghost m = self.mat();
        let ghost n = self.n();
        proof {
            let accs = self.sorted_suffixes@;
            assert(table_row_ok(rows_view(self.upper_limits@)[u as int], accs[u as int], self.cap as nat));
            assert forall|t: Seq<usize>|
                increasing(t) && within(t, u as int, n as int) && t.len() <= k implies #[trigger] weight(m, t)
                <= self.table()[u as int][k as int] by {
                lemma_suffix_bound(m, n, t, u as int, accs[u as int], k as nat);
                assert(within(t, 0, n as int));
                lemma_weight_le_span(m, t, n as int);
            }
        }
        self.upper_limits[u][k]
    }

    /// The largest size budget that the bound table covers.
    pub fn bound_table_width(&self) -> (r: usize)
        ensures
            r == self.table_width(),
    {
        self.cap
    }

    pub fn vertex_count(&self) -> (r: usize)
        requires
            self.inv(),
        ensures
            r == self.n(),
    {
        self.matrix.len()
    }

    pub fn max_size(&self) -> (r: usize)
        ensures
            r == self.k(),
    {
        self.max_size
    }
}

} // verus!
