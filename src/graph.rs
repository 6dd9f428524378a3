use vstd::prelude::*;

verus! {

/// An opaque vertex payload; the solver never looks inside it.
#[derive(Clone, Copy, PartialEq, Eq, Debug)]
pub struct Vertex(pub [u8; 4]);

/// An undirected edge between vertices `a` and `b` with weight `w`.
#[derive(Clone, Copy, PartialEq, Eq, Debug, Structural)]
pub struct Edge {
    pub a: usize,
    pub b: usize,
    pub w: u64,
}

/// Why an edge list was rejected; each variant carries the index of the
/// first offending edge.
#[derive(Clone, Copy, PartialEq, Eq, Debug, Structural)]
pub enum GraphError {
    VertexOutOfRange(usize),
    SelfLoop(usize),
    DuplicateEdge(usize),
    WeightOverflow(usize),
}

/// Does edge `e` join the unordered pair `{a, b}`?
pub open spec fn joins(e: Edge, a: int, b: int) -> bool {
    (e.a == a && e.b == b) || (e.a == b && e.b == a)
}

/// Sum of all edge weights.
pub open spec fn total_weight(es: Seq<Edge>) -> nat
    decreases es.len(),
{
    if es.len() == 0 {
        0
    } else {
        total_weight(es.drop_last()) + es.last().w as nat
    }
}

/// Weight of the pair `{a, b}`: the weight of the edge joining it, 0 if none.
pub open spec fn edge_weight(es: Seq<Edge>, a: int, b: int) -> nat
    decreases es.len(),
{
    if es.len() == 0 {
        0
    } else if joins(es.last(), a, b) {
        es.last().w as nat
    } else {
        edge_weight(es.drop_last(), a, b)
    }
}

/// What is wrong with edge `e`, given the edges `prev` before it, in a graph
/// of `n` vertices.
pub open spec fn edge_fault(n: nat, prev: Seq<Edge>, e: Edge) -> Option<GraphError> {
    let i = prev.len() as usize;
    if e.a >= n || e.b >= n {
        Some(GraphError::VertexOutOfRange(i))
    } else if e.a == e.b {
        Some(GraphError::SelfLoop(i))
    } else if exists|j: int| 0 <= j < prev.len() && #[trigger] joins(prev[j], e.a as int, e.b as int) {
        Some(GraphError::DuplicateEdge(i))
    } else if total_weight(prev) + e.w > u64::MAX {
        Some(GraphError::WeightOverflow(i))
    } else {
        None
    }
}

/// The first fault of an edge list, scanning it from the front.
pub open spec fn first_fault(n: nat, es: Seq<Edge>) -> Option<GraphError>
    decreases es.len(),
{
    if es.len() == 0 {
        None
    } else {
        match first_fault(n, es.drop_last()) {
            Some(f) => Some(f),
            None => edge_fault(n, es.drop_last(), es.last()),
        }
    }
}

pub open spec fn edges_valid(n: nat, es: Seq<Edge>) -> bool {
    first_fault(n, es) is None
}

pub proof fn lemma_valid_prefix(n: nat, es: Seq<Edge>, k: int)
    requires
        edges_valid(n, es),
        0 <= k <= es.len(),
    ensures
        edges_valid(n, es.subrange(0, k)),
    decreases es.len(),
{
    if k < es.len() {
        assert(es.drop_last() =~= es.subrange(0, es.len() - 1));
        lemma_valid_prefix(n, es.drop_last(), k);
        assert(es.drop_last().subrange(0, k) =~= es.subrange(0, k));
    } else {
        assert(es.subrange(0, k) =~= es);
    }
}

/// A fault found in a prefix is the first fault of the whole list.
pub proof fn lemma_fault_of_prefix(n: nat, es: Seq<Edge>, k: int)
    requires
        0 <= k <= es.len(),
        first_fault(n, es.subrange(0, k)) is Some,
    ensures
        first_fault(n, es) == first_fault(n, es.subrange(0, k)),
    decreases es.len(),
{
    if k < es.len() {
        assert(es.drop_last().subrange(0, k) =~= es.subrange(0, k));
        lemma_fault_of_prefix(n, es.drop_last(), k);
    } else {
        assert(es.subrange(0, k) =~= es);
    }
}

/// Every edge of a valid list joins two distinct vertices in range, no pair
/// is joined twice, and the total weight fits in a `u64`.
pub proof fn lemma_valid_edges(n: nat, es: Seq<Edge>)
    requires
        edges_valid(n, es),
    ensures
        forall|i: int| 0 <= i < es.len() ==> #[trigger] es[i].a < n && es[i].b < n && es[i].a != es[i].b,
        forall|i: int, j: int|
            0 <= i < j < es.len() ==> !joins(#[trigger] es[i], es[j].a as int, #[trigger] es[j].b as int),
        total_weight(es) <= u64::MAX,
    decreases es.len(),
{
    if es.len() > 0 {
        let p = es.drop_last();
        lemma_valid_edges(n, p);
        assert forall|i: int, j: int|
            0 <= i < j < es.len() implies !joins(#[trigger] es[i], es[j].a as int, #[trigger] es[j].b as int) by {
            if j == es.len() - 1 {
                assert(p[i] == es[i]);
                if joins(es[i], es[j].a as int, es[j].b as int) {
                    assert(joins(p[i], es.last().a as int, es.last().b as int));
                }
            } else {
                assert(p[i] == es[i] && p[j] == es[j]);
            }
        }
        assert forall|i: int| 0 <= i < es.len() implies #[trigger] es[i].a < n && es[i].b < n && es[i].a
            != es[i].b by {
            if i < es.len() - 1 {
                assert(p[i] == es[i]);
            }
        }
    }
}

/// An edge list whose edges join distinct vertices in range, no pair twice,
/// with a total weight that fits in a `u64`, is valid.
pub proof fn lemma_valid_from_facts(n: nat, es: Seq<Edge>)
    requires
        forall|i: int| 0 <= i < es.len() ==> #[trigger] es[i].a < n && es[i].b < n && es[i].a != es[i].b,
        forall|i: int, j: int|
            0 <= i < j < es.len() ==> !joins(#[trigger] es[i], es[j].a as int, #[trigger] es[j].b as int),
        total_weight(es) <= u64::MAX,
    ensures
        edges_valid(n, es),
    decreases es.len(),
{
    if es.len() > 0 {
        let p = es.drop_last();
        let e = es.last();
        assert forall|i: int, j: int|
            0 <= i < j < p.len() implies !joins(#[trigger] p[i], p[j].a as int, #[trigger] p[j].b as int) by {
            assert(p[i] == es[i] && p[j] == es[j]);
        }
        assert forall|i: int| 0 <= i < p.len() implies #[trigger] p[i].a < n && p[i].b < n && p[i].a != p[i].b by {
            assert(p[i] == es[i]);
        }
        lemma_valid_from_facts(n, p);
        assert(es[es.len() - 1] == e);
        assert forall|j: int| 0 <= j < p.len() implies !#[trigger] joins(p[j], e.a as int, e.b as int) by {
            assert(p[j] == es[j]);
            assert(!joins(es[j], es[es.len() - 1].a as int, es[es.len() - 1].b as int));
        }
    }
}

/// A vertex list together with a valid edge list over it.
pub struct Graph {
    vertices: Vec<Vertex>,
    edges: Vec<Edge>,
}

impl Graph {
    pub closed spec fn vertices_view(&self) -> Seq<Vertex> {
        self.vertices@
    }

    pub closed spec fn edges_view(&self) -> Seq<Edge> {
        self.edges@
    }

    pub open spec fn n(&self) -> nat {
        self.vertices_view().len()
    }

    pub open spec fn wf(&self) -> bool {
        &&& self.n() <= usize::MAX
        &&& edges_valid(self.n(), self.edges_view())
    }

    /// Builds a graph, rejecting the edge list at its first fault: a vertex
    /// out of range, a self-loop, a pair joined twice, or a total weight that
    /// does not fit in a `u64`.
    pub fn new(vertices: Vec<Vertex>, edges: Vec<Edge>) -> (r: Result<Graph, GraphError>)
        ensures
            match first_fault(vertices@.len(), edges@) {
                None => r matches Ok(g) && g.wf() && g.vertices_view() == vertices@
                    && g.edges_view() == edges@,
                Some(f) => r == Err::<Graph, GraphError>(f),
            },
    {
        let n = vertices.len();
        let mut total: u64 = 0;
        let mut i: usize = 0;
        while i < edges.len()
            invariant
                n == vertices@.len(),
                0 <= i <= edges@.len(),
                first_fault(n as nat, edges@.subrange(0, i as int)) is None,
                total == total_weight(edges@.subrange(0, i as int)),
            decreases edges@.len() - i,
        {
            let e = edges[i];
            let ghost prev = edges@.subrange(0, i as int);
            assert(edges@.subrange(0, i + 1).drop_last() =~= prev);
            proof {
                if edge_fault(n as nat, prev, e) is Some {
                    lemma_fault_of_prefix(n as nat, edges@, i + 1);
                }
            }
            if e.a >= n || e.b >= n {
                return Err(GraphError::VertexOutOfRange(i));
            }
            if e.a == e.b {
                return Err(GraphError::SelfLoop(i));
            }
            let mut j: usize = 0;
            while j < i
                invariant
                    0 <= j <= i < edges@.len(),
                    e == edges@[i as int],
                    prev == edges@.subrange(0, i as int),
                    n == vertices@.len(),
                    first_fault(n as nat, prev) is None,
                    e.a < n && e.b < n && e.a != e.b,
                    forall|k: int| 0 <= k < j ==> !#[trigger] joins(prev[k], e.a as int, e.b as int),
                decreases i - j,
            {
                let f = edges[j];
                if (f.a == e.a && f.b == e.b) || (f.a == e.b && f.b == e.a) {
                    assert(joins(prev[j as int], e.a as int, e.b as int));
                    assert(edges@.subrange(0, i + 1).drop_last() =~= prev);
                    proof { lemma_fault_of_prefix(n as nat, edges@, i + 1); }
                    return Err(GraphError::DuplicateEdge(i));
                }
                j += 1;
            }
            if total > u64::MAX - e.w {
                return Err(GraphError::WeightOverflow(i));
            }
            total = total + e.w;
            i += 1;
        }
        assert(edges@.subrange(0, i as int) =~= edges@);
        Ok(Graph { vertices, edges })
    }

    pub fn vertex_count(&self) -> (r: usize)
        ensures
            r == self.n(),
    {
        self.vertices.len()
    }

    pub fn vertices(&self) -> (r: &Vec<Vertex>)
        ensures
            r@ == self.vertices_view(),
    {
        &self.vertices
    }

    pub fn edges(&self) -> (r: &Vec<Edge>)
        ensures
            r@ == self.edges_view(),
    {
        &self.edges
    }
}

} // verus!
