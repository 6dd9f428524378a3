//! Bounds for pruning the search: for each vertex, its links to later
//! vertices, and a table of the most that the vertices from it on can weigh.
use crate::matrix::{maps_view, weight_at};
use crate::model::{col, lemma_span_push, lemma_suffix_monotone, pairs, span, suffix_weights, symmetric_matrix};
use crate::sums::{lemma_top_all, lemma_top_monotone, lemma_top_next, lemma_top_sum_sub, sorted_asc, top_sum};
use std::collections::HashMap;
use vstd::prelude::*;

verus! {

broadcast use vstd::seq_lib::group_to_multiset_ensures;

/// A neighbour `v` of some vertex, reached by an edge of weight `w`.
#[derive(Clone, Copy, PartialEq, Eq, Debug, Structural)]
pub struct Link {
    pub v: usize,
    pub w: u64,
}

pub open spec fn rows_view(rows: Seq<Vec<u64>>) -> Seq<Seq<u64>> {
    rows.map_values(|r: Vec<u64>| r@)
}

pub open spec fn min_u64(x: int) -> int {
    if x <= u64::MAX {
        x
    } else {
        u64::MAX as int
    }
}

/// The vertices of `s` with a nonzero weight to `v`, in order.
pub open spec fn col_targets(m: Seq<Seq<u64>>, v: usize, s: Seq<usize>) -> Seq<usize>
    decreases s.len(),
{
    if s.len() == 0 {
        Seq::empty()
    } else {
        let c = col_targets(m, v, s.drop_last());
        if m[v as int][s.last() as int] != 0 {
            c.push(s.last())
        } else {
            c
        }
    }
}

/// `links` lists, in increasing order of neighbour, the vertices after `a`
/// with a nonzero weight to it, each with that weight.
pub open spec fn right_links_ok(m: Seq<Seq<u64>>, n: nat, a: int, links: Seq<Link>) -> bool {
    let c = col(m, a as usize, span(a + 1, n as int));
    let t = col_targets(m, a as usize, span(a + 1, n as int));
    &&& links.len() == c.len()
    &&& links.len() == t.len()
    &&& forall|i: int| 0 <= i < links.len() ==> #[trigger] links[i].w == c[i] && links[i].v == t[i]
}

/// Row `row` of the bound table for the sorted suffix weights `acc`: entry
/// `k` is the sum of the `k * (k - 1) / 2` largest of them, capped at
/// `u64::MAX`.
pub open spec fn table_row_ok(row: Seq<u64>, acc: Seq<u64>, cap: nat) -> bool {
    &&& row.len() == cap + 1
    &&& forall|k: int| 0 <= k <= cap ==> #[trigger] row[k] == min_u64(top_sum(acc, pairs(k as nat)))
}

/// Relies on `slice::sort_unstable`: the elements are reordered into
/// ascending order.
#[verifier::external_body]
pub(crate) fn sort_ascending(v: &mut Vec<u64>)
    ensures
        final(v)@.to_multiset() == old(v)@.to_multiset(),
        sorted_asc(final(v)@),
{
    v.sort_unstable();
}

/// For each vertex, the list of its heavier-than-zero links to later vertices.
pub(crate) fn build_right(mat: &Vec<HashMap<usize, u64>>, n: usize) -> (right: Vec<Vec<Link>>)
    requires
        symmetric_matrix(maps_view(mat@), n as nat),
    ensures
        right@.len() == n,
        forall|a: int| 0 <= a < n ==> right_links_ok(maps_view(mat@), n as nat, a, #[trigger] right@[a]@),
{
    let ghost m = maps_view(mat@);
    let mut right: Vec<Vec<Link>> = Vec::new();
    let mut a: usize = 0;
    while a < n
        invariant
            a <= n,
            m == maps_view(mat@),
            symmetric_matrix(m, n as nat),
            right@.len() == a,
            forall|x: int| 0 <= x < a ==> right_links_ok(m, n as nat, x, #[trigger] right@[x]@),
        decreases n - a,
    {
        let mut links: Vec<Link> = Vec::new();
        let mut b: usize = a + 1;
        while b < n
            invariant
                a < b <= n,
                m == maps_view(mat@),
                symmetric_matrix(m, n as nat),
                links@.len() == col(m, a, span(a + 1, b as int)).len(),
                links@.len() == col_targets(m, a, span(a + 1, b as int)).len(),
                forall|i: int|
                    0 <= i < links@.len() ==> #[trigger] links@[i].w == col(m, a, span(a + 1, b as int))[i]
                        && links@[i].v == col_targets(m, a, span(a + 1, b as int))[i],
            decreases n - b,
        {
            proof {
                lemma_span_push(a + 1, b as int);
                assert(span(a + 1, b + 1).drop_last() =~= span(a + 1, b as int));
            }
            let w = weight_at(mat, a, b);
            if w != 0 {
                links.push(Link { v: b, w });
            }
            b += 1;
        }
        if a + 1 > n {
            assert(span(a + 1, n as int) =~= span(a + 1, a + 1));
        }
        right.push(links);
        a += 1;
    }
    right
}

/// One row of the bound table: entry `k`, for `k` up to `cap`, sums the
/// `k * (k - 1) / 2` largest weights of the ascending `acc`.
pub(crate) fn table_row(acc: &Vec<u64>, cap: usize) -> (row: Vec<u64>)
    requires
        sorted_asc(acc@),
    ensures
        table_row_ok(row@, acc@, cap as nat),
{
    let len = acc.len();
    let mut row: Vec<u64> = Vec::new();
    row.push(0);
    let mut taken: usize = 0;
    let mut sum: u64 = 0;
    let mut j: usize = 0;
    while j < cap
        invariant
            j <= cap,
            len == acc@.len(),
            row@.len() == j + 1,
            taken == if pairs(j as nat) < len { pairs(j as nat) } else { len as nat },
            sum == min_u64(top_sum(acc@, taken as nat)),
            forall|k: int| 0 <= k <= j ==> #[trigger] row@[k] == min_u64(top_sum(acc@, pairs(k as nat))),
        decreases cap - j,
    {
        let target = if taken < len {
            let want = taken.saturating_add(j);
            if want < len {
                want
            } else {
                len
            }
        } else {
            len
        };
        assert(pairs((j + 1) as nat) == pairs(j as nat) + j);
        while taken < target
            invariant
                taken <= target <= len,
                len == acc@.len(),
                sum == min_u64(top_sum(acc@, taken as nat)),
            decreases target - taken,
        {
            proof {
                lemma_top_next(acc@, taken as nat);
            }
            sum = sum.saturating_add(acc[len - 1 - taken]);
            taken += 1;
        }
        proof {
            if pairs((j + 1) as nat) >= len {
                lemma_top_all(acc@, pairs((j + 1) as nat));
            }
        }
        row.push(sum);
        j += 1;
    }
    row
}

/// The bound table: for each vertex `u` a row over the sorted weights of
/// the edges whose lower end is at least `u`.
pub(crate) fn build_tables(mat: &Vec<HashMap<usize, u64>>, right: &Vec<Vec<Link>>, n: usize, cap: usize) -> (r: (
    Vec<Vec<u64>>,
    Ghost<Seq<Seq<u64>>>,
))
    requires
        symmetric_matrix(maps_view(mat@), n as nat),
        right@.len() == n,
        forall|a: int| 0 <= a < n ==> right_links_ok(maps_view(mat@), n as nat, a, #[trigger] right@[a]@),
    ensures
        tables_ok(maps_view(mat@), n as nat, cap as nat, rows_view(r.0@), r.1@),
{
    let ghost m = maps_view(mat@);
    let mut acc: Vec<u64> = Vec::new();
    let mut tables: Vec<Vec<u64>> = Vec::new();
    let ghost mut accs: Seq<Seq<u64>> = Seq::empty();
    let mut u: usize = n;
    while u > 0
        invariant
            u <= n,
            m == maps_view(mat@),
            right@.len() == n,
            forall|a: int| 0 <= a < n ==> right_links_ok(m, n as nat, a, #[trigger] right@[a]@),
            acc@.to_multiset() == suffix_weights(m, u as int, n as int),
            tables@.len() == n - u,
            accs.len() == n - u,
            forall|x: int| 0 <= x < n - u ==> sorted_asc(#[trigger] accs[x]),
            forall|x: int|
                0 <= x < n - u ==> #[trigger] accs[x].to_multiset() == suffix_weights(m, x + u, n as int),
            forall|x: int| 0 <= x < n - u ==> table_row_ok(#[trigger] tables@[x]@, accs[x], cap as nat),
        decreases u,
    {
        u -= 1;
        let links = &right[u];
        let ghost c = col(m, u, span(u + 1, n as int));
        let ghost start = acc@;
        let mut i: usize = 0;
        while i < links.len()
            invariant
                i <= links@.len(),
                links@.len() == c.len(),
                forall|j: int| 0 <= j < links@.len() ==> #[trigger] links@[j].w == c[j],
                acc@ == start + c.subrange(0, i as int),
            decreases links@.len() - i,
        {
            acc.push(links[i].w);
            i += 1;
            assert(acc@ =~= start + c.subrange(0, i as int));
        }
        assert(c.subrange(0, i as int) =~= c);
        sort_ascending(&mut acc);
        assert(acc@.to_multiset() =~= suffix_weights(m, u as int, n as int)) by {
            vstd::seq_lib::lemma_multiset_commutative(start, c);
        }
        let row = table_row(&acc, cap);
        tables.insert(0, row);
        proof {
            accs = accs.insert(0, acc@);
        }
    }
    proof {
        assert(rows_view(tables@).len() == n);
        assert forall|x: int| 0 <= x < n implies table_row_ok(#[trigger] rows_view(tables@)[x], accs[x], cap as nat)
            && sorted_asc(accs[x]) && accs[x].to_multiset() == suffix_weights(m, x, n as int) by {
            assert(table_row_ok(tables@[x]@, accs[x], cap as nat));
        }
    }
    (tables, Ghost(accs))
}

/// `tables[u]` is a row of the bound table over `accs[u]`, the sorted edge
/// weights of the suffix starting at `u`.
pub open spec fn tables_ok(m: Seq<Seq<u64>>, n: nat, cap: nat, tables: Seq<Seq<u64>>, accs: Seq<Seq<u64>>) -> bool {
    &&& tables.len() == n
    &&& accs.len() == n
    &&& forall|u: int|
        0 <= u < n ==> {
            &&& table_row_ok(#[trigger] tables[u], accs[u], cap)
            &&& sorted_asc(accs[u])
            &&& accs[u].to_multiset() == suffix_weights(m, u, n as int)
        }
}


/// Entries of the bound table do not decrease as the size budget grows.
pub proof fn lemma_table_grows_with_size(
    m: Seq<Seq<u64>>,
    n: nat,
    cap: nat,
    tables: Seq<Seq<u64>>,
    accs: Seq<Seq<u64>>,
    u: int,
    k: int,
)
    requires
        tables_ok(m, n, cap, tables, accs),
        0 <= u < n,
        0 <= k < cap,
    ensures
        tables[u][k] <= tables[u][k + 1],
{
    assert(table_row_ok(tables[u], accs[u], cap));
    assert(pairs((k + 1) as nat) == pairs(k as nat) + k);
    lemma_top_monotone(accs[u], pairs(k as nat), pairs((k + 1) as nat));
}

/// Entries of the bound table do not increase from one vertex to the next:
/// fewer edges lie after a later vertex.
pub proof fn lemma_table_shrinks_along(
    m: Seq<Seq<u64>>,
    n: nat,
    cap: nat,
    tables: Seq<Seq<u64>>,
    accs: Seq<Seq<u64>>,
    u: int,
    k: int,
)
    requires
        tables_ok(m, n, cap, tables, accs),
        0 <= u,
        u + 1 < n,
        0 <= k <= cap,
    ensures
        tables[u + 1][k] <= tables[u][k],
{
    assert(table_row_ok(tables[u], accs[u], cap));
    assert(table_row_ok(tables[u + 1], accs[u + 1], cap));
    lemma_suffix_monotone(m, u, u + 1, n as int);
    lemma_top_sum_sub(accs[u], accs[u + 1], pairs(k as nat));
}

} // verus!
