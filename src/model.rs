//! The mathematical model of the problem: the weight of an induced subgraph
//! over a weight matrix, and the facts that make the search bounds sound.
use crate::sums::{index_chain, lemma_pick_sub, lemma_sum_concat, lemma_sum_push, lemma_top_sum_bounds, pick, seq_sum, sorted_asc, top_sum};
use vstd::multiset::Multiset;
use vstd::prelude::*;

verus! {

broadcast use vstd::seq_lib::group_to_multiset_ensures, vstd::seq_lib::lemma_multiset_commutative;

/// An `n` by `n` symmetric matrix of pair weights.
pub open spec fn symmetric_matrix(m: Seq<Seq<u64>>, n: nat) -> bool {
    &&& m.len() == n
    &&& forall|a: int| 0 <= a < n ==> #[trigger] m[a].len() == n
    &&& forall|a: int, b: int| 0 <= a < n && 0 <= b < n ==> #[trigger] m[a][b] == m[b][a]
}

/// Sum of the weights between `v` and each vertex of `s`.
pub open spec fn cross(m: Seq<Seq<u64>>, v: usize, s: Seq<usize>) -> int
    decreases s.len(),
{
    if s.len() == 0 {
        0
    } else {
        cross(m, v, s.drop_last()) + m[v as int][s.last() as int]
    }
}

/// Total weight of the subgraph induced by the vertices of `s`: the sum over
/// its pairs of their weight.
pub open spec fn weight(m: Seq<Seq<u64>>, s: Seq<usize>) -> int
    decreases s.len(),
{
    if s.len() == 0 {
        0
    } else {
        weight(m, s.drop_last()) + cross(m, s.last(), s.drop_last())
    }
}

/// Sum over the vertices of `t` of their cross weight to `p`.
pub open spec fn cross_sum(m: Seq<Seq<u64>>, t: Seq<usize>, p: Seq<usize>) -> int
    decreases t.len(),
{
    if t.len() == 0 {
        0
    } else {
        cross_sum(m, t.drop_last(), p) + cross(m, t.last(), p)
    }
}

pub open spec fn increasing(s: Seq<usize>) -> bool {
    forall|i: int, j: int| 0 <= i < j < s.len() ==> s[i] < s[j]
}

pub open spec fn within(s: Seq<usize>, lo: int, hi: int) -> bool {
    forall|i: int| 0 <= i < s.len() ==> lo <= #[trigger] s[i] < hi
}

/// The vertices `lo, lo + 1, ..., hi - 1`.
pub open spec fn span(lo: int, hi: int) -> Seq<usize> {
    Seq::new(if lo <= hi { (hi - lo) as nat } else { 0 }, |i: int| (lo + i) as usize)
}

/// A vertex subset of a graph of `n` vertices, listed in increasing order,
/// with at most `k` vertices.
pub open spec fn candidate(s: Seq<usize>, n: nat, k: nat) -> bool {
    &&& increasing(s)
    &&& within(s, 0, n as int)
    &&& s.len() <= k
}

/// `s` is a heaviest subset of at most `k` vertices, of weight `w`.
pub open spec fn is_optimum(m: Seq<Seq<u64>>, k: nat, s: Seq<usize>, w: int) -> bool {
    &&& candidate(s, m.len(), k)
    &&& weight(m, s) == w
    &&& forall|t: Seq<usize>| candidate(t, m.len(), k) ==> weight(m, t) <= w
}

/// Number of pairs among `k` vertices.
pub open spec fn pairs(k: nat) -> nat
    decreases k,
{
    if k == 0 {
        0
    } else {
        pairs((k - 1) as nat) + (k - 1) as nat
    }
}

/// The nonzero weights between `v` and the vertices of `s`, in order.
pub open spec fn col(m: Seq<Seq<u64>>, v: usize, s: Seq<usize>) -> Seq<u64>
    decreases s.len(),
{
    if s.len() == 0 {
        Seq::empty()
    } else {
        let c = col(m, v, s.drop_last());
        let w = m[v as int][s.last() as int];
        if w != 0 {
            c.push(w)
        } else {
            c
        }
    }
}

/// The nonzero weights of the pairs of `t`, each listed under its first vertex.
pub open spec fn hrows(m: Seq<Seq<u64>>, t: Seq<usize>) -> Seq<u64>
    decreases t.len(),
{
    if t.len() == 0 {
        Seq::empty()
    } else {
        col(m, t[0], t.skip(1)) + hrows(m, t.skip(1))
    }
}

/// The nonzero weights of the edges whose lower end is at least `u`.
pub open spec fn suffix_weights(m: Seq<Seq<u64>>, u: int, n: int) -> Multiset<u64>
    decreases n - u,
{
    if u >= n {
        Multiset::empty()
    } else {
        col(m, u as usize, span(u + 1, n)).to_multiset().add(suffix_weights(m, u + 1, n))
    }
}

/// The cross weight to `p` of each vertex `lo, ..., hi - 1`.
pub open spec fn cross_row(m: Seq<Seq<u64>>, p: Seq<usize>, lo: int, hi: int) -> Seq<u64> {
    Seq::new(if lo <= hi { (hi - lo) as nat } else { 0 }, |j: int| cross(m, (lo + j) as usize, p) as u64)
}

pub proof fn lemma_span_push(lo: int, hi: int)
    requires
        0 <= lo <= hi,
        hi + 1 <= usize::MAX + 1,
    ensures
        span(lo, hi + 1) =~= span(lo, hi).push(hi as usize),
{
}

pub proof fn lemma_span_props(lo: int, hi: int)
    requires
        0 <= lo,
        hi <= usize::MAX + 1,
    ensures
        increasing(span(lo, hi)),
        within(span(lo, hi), lo, hi),
{
}

pub proof fn lemma_cross_nonneg(m: Seq<Seq<u64>>, v: usize, s: Seq<usize>)
    ensures
        cross(m, v, s) >= 0,
    decreases s.len(),
{
    if s.len() > 0 {
        lemma_cross_nonneg(m, v, s.drop_last());
    }
}

pub proof fn lemma_weight_nonneg(m: Seq<Seq<u64>>, s: Seq<usize>)
    ensures
        weight(m, s) >= 0,
    decreases s.len(),
{
    if s.len() > 0 {
        lemma_weight_nonneg(m, s.drop_last());
        lemma_cross_nonneg(m, s.last(), s.drop_last());
    }
}

pub proof fn lemma_cross_concat(m: Seq<Seq<u64>>, v: usize, s: Seq<usize>, t: Seq<usize>)
    ensures
        cross(m, v, s + t) == cross(m, v, s) + cross(m, v, t),
    decreases t.len(),
{
    if t.len() == 0 {
        assert(s + t =~= s);
    } else {
        lemma_cross_concat(m, v, s, t.drop_last());
        assert((s + t).drop_last() =~= s + t.drop_last());
    }
}

pub proof fn lemma_cross_push(m: Seq<Seq<u64>>, v: usize, s: Seq<usize>, x: usize)
    ensures
        cross(m, v, s.push(x)) == cross(m, v, s) + m[v as int][x as int],
{
    assert(s.push(x).drop_last() =~= s);
}

pub proof fn lemma_weight_push(m: Seq<Seq<u64>>, s: Seq<usize>, x: usize)
    ensures
        weight(m, s.push(x)) == weight(m, s) + cross(m, x, s),
{
    assert(s.push(x).drop_last() =~= s);
}

/// The weight of `p + t` splits into the weight inside `p`, the weight
/// between `p` and `t`, and the weight inside `t`.
pub proof fn lemma_weight_concat(m: Seq<Seq<u64>>, p: Seq<usize>, t: Seq<usize>)
    ensures
        weight(m, p + t) == weight(m, p) + cross_sum(m, t, p) + weight(m, t),
    decreases t.len(),
{
    if t.len() == 0 {
        assert(p + t =~= p);
    } else {
        let t1 = t.drop_last();
        lemma_weight_concat(m, p, t1);
        assert((p + t).drop_last() =~= p + t1);
        lemma_cross_concat(m, t.last(), p, t1);
    }
}

/// The weight of a subset with first vertex `v` is the cross weight of `v`
/// to the rest plus the weight of the rest.
pub proof fn lemma_weight_head(m: Seq<Seq<u64>>, n: nat, v: usize, t: Seq<usize>)
    requires
        symmetric_matrix(m, n),
        v < n,
        within(t, 0, n as int),
    ensures
        weight(m, seq![v] + t) == cross(m, v, t) + weight(m, t),
    decreases t.len(),
{
    if t.len() == 0 {
        assert(seq![v] + t =~= Seq::<usize>::empty().push(v));
        lemma_weight_push(m, Seq::<usize>::empty(), v);
        assert(weight(m, Seq::<usize>::empty()) == 0);
        assert(cross(m, v, Seq::<usize>::empty()) == 0);
    } else {
        let t1 = t.drop_last();
        let x = t.last();
        assert(within(t1, 0, n as int));
        lemma_weight_head(m, n, v, t1);
        assert(seq![v] + t =~= (seq![v] + t1).push(x));
        assert(t =~= t1.push(x));
        lemma_weight_push(m, seq![v] + t1, x);
        lemma_weight_push(m, t1, x);
        lemma_cross_push(m, v, t1, x);
        lemma_cross_concat(m, x, seq![v], t1);
        assert(seq![v] =~= Seq::<usize>::empty().push(v));
        lemma_cross_push(m, x, Seq::<usize>::empty(), v);
        assert(0 <= t[t.len() - 1] < n);
        assert(m[x as int][v as int] == m[v as int][x as int]);
    }
}

pub proof fn lemma_increasing_len(s: Seq<usize>, lo: int, hi: int)
    requires
        increasing(s),
        within(s, lo, hi),
    ensures
        s.len() <= if lo <= hi { hi - lo } else { 0 },
    decreases s.len(),
{
    if s.len() > 0 {
        let s1 = s.drop_last();
        assert(within(s1, lo, s.last() as int)) by {
            assert forall|i: int| 0 <= i < s1.len() implies lo <= #[trigger] s1[i] < s.last() by {
                assert(s[i] < s[s.len() - 1]);
            }
        }
        lemma_increasing_len(s1, lo, s.last() as int);
        assert(lo <= s[s.len() - 1] < hi);
    }
}

/// Cross weight to a subset of `0..hi` is at most the cross weight to all of it.
pub proof fn lemma_cross_le_span(m: Seq<Seq<u64>>, v: usize, s: Seq<usize>, hi: int)
    requires
        increasing(s),
        within(s, 0, hi),
        hi <= usize::MAX + 1,
    ensures
        cross(m, v, s) <= cross(m, v, span(0, hi)),
    decreases hi,
{
    if hi <= 0 {
        if s.len() > 0 {
            assert(0 <= s[0] < hi);
        }
    } else {
        lemma_span_push(0, hi - 1);
        lemma_cross_push(m, v, span(0, hi - 1), (hi - 1) as usize);
        if s.len() > 0 && s.last() == hi - 1 {
            assert(s =~= s.drop_last().push(s.last()));
            lemma_cross_push(m, v, s.drop_last(), s.last());
            let s1 = s.drop_last();
            assert(within(s1, 0, hi - 1)) by {
                assert forall|i: int| 0 <= i < s1.len() implies 0 <= #[trigger] s1[i] < hi - 1 by {
                    assert(s[i] < s[s.len() - 1]);
                }
            }
            lemma_cross_le_span(m, v, s1, hi - 1);
        } else {
            assert(within(s, 0, hi - 1)) by {
                assert forall|i: int| 0 <= i < s.len() implies 0 <= #[trigger] s[i] < hi - 1 by {
                    assert(s[i] <= s[s.len() - 1]);
                }
            }
            lemma_cross_le_span(m, v, s, hi - 1);
            assert(m[v as int][hi - 1] >= 0);
        }
    }
}

/// A subset of `0..hi` weighs at most as much as all of it.
pub proof fn lemma_weight_le_span(m: Seq<Seq<u64>>, s: Seq<usize>, hi: int)
    requires
        increasing(s),
        within(s, 0, hi),
        hi <= usize::MAX + 1,
    ensures
        weight(m, s) <= weight(m, span(0, hi)),
    decreases hi,
{
    if hi <= 0 {
        if s.len() > 0 {
            assert(0 <= s[0] < hi);
        }
    } else {
        lemma_span_push(0, hi - 1);
        let sp = span(0, hi - 1);
        lemma_weight_push(m, sp, (hi - 1) as usize);
        lemma_span_props(0, hi - 1);
        if s.len() > 0 && s.last() == hi - 1 {
            let s1 = s.drop_last();
            assert(within(s1, 0, hi - 1)) by {
                assert forall|i: int| 0 <= i < s1.len() implies 0 <= #[trigger] s1[i] < hi - 1 by {
                    assert(s[i] < s[s.len() - 1]);
                }
            }
            lemma_weight_le_span(m, s1, hi - 1);
            lemma_cross_le_span(m, (hi - 1) as usize, s1, hi - 1);
            assert(s =~= s1.push(s.last()));
            lemma_weight_push(m, s1, s.last());
        } else {
            assert(within(s, 0, hi - 1)) by {
                assert forall|i: int| 0 <= i < s.len() implies 0 <= #[trigger] s[i] < hi - 1 by {
                    assert(s[i] <= s[s.len() - 1]);
                }
            }
            lemma_weight_le_span(m, s, hi - 1);
            lemma_cross_nonneg(m, (hi - 1) as usize, sp);
        }
    }
}

pub proof fn lemma_pairs_monotone(a: nat, b: nat)
    requires
        a <= b,
    ensures
        pairs(a) <= pairs(b),
    decreases b,
{
    if a < b {
        lemma_pairs_monotone(a, (b - 1) as nat);
    }
}

pub proof fn lemma_col_sum(m: Seq<Seq<u64>>, v: usize, s: Seq<usize>)
    ensures
        seq_sum(col(m, v, s)) == cross(m, v, s),
        col(m, v, s).len() <= s.len(),
    decreases s.len(),
{
    if s.len() > 0 {
        lemma_col_sum(m, v, s.drop_last());
        lemma_sum_push(col(m, v, s.drop_last()), m[v as int][s.last() as int]);
    }
}

/// The nonzero weights from `v` to an increasing subset of `lo..hi` are among
/// those from `v` to all of `lo..hi`.
pub proof fn lemma_col_sub(m: Seq<Seq<u64>>, v: usize, s: Seq<usize>, lo: int, hi: int)
    requires
        increasing(s),
        within(s, lo, hi),
        0 <= lo <= hi <= usize::MAX + 1,
    ensures
        col(m, v, s).to_multiset().subset_of(col(m, v, span(lo, hi)).to_multiset()),
    decreases hi - lo,
{
    if hi == lo {
        if s.len() > 0 {
            assert(lo <= s[0] < hi);
        }
        assert(col(m, v, s).to_multiset() =~= Multiset::empty());
    } else {
        lemma_span_push(lo, hi - 1);
        let sp = span(lo, hi - 1);
        let w = m[v as int][hi - 1];
        assert(span(lo, hi).drop_last() =~= sp);
        if s.len() > 0 && s.last() == hi - 1 {
            let s1 = s.drop_last();
            assert(within(s1, lo, hi - 1)) by {
                assert forall|i: int| 0 <= i < s1.len() implies lo <= #[trigger] s1[i] < hi - 1 by {
                    assert(s[i] < s[s.len() - 1]);
                }
            }
            lemma_col_sub(m, v, s1, lo, hi - 1);
        } else {
            assert(within(s, lo, hi - 1)) by {
                assert forall|i: int| 0 <= i < s.len() implies lo <= #[trigger] s[i] < hi - 1 by {
                    assert(s[i] <= s[s.len() - 1]);
                }
            }
            lemma_col_sub(m, v, s, lo, hi - 1);
        }
    }
}

pub proof fn lemma_hrows(m: Seq<Seq<u64>>, n: nat, t: Seq<usize>)
    requires
        symmetric_matrix(m, n),
        within(t, 0, n as int),
    ensures
        seq_sum(hrows(m, t)) == weight(m, t),
        hrows(m, t).len() <= pairs(t.len()),
    decreases t.len(),
{
    if t.len() > 0 {
        let r = t.skip(1);
        assert(within(r, 0, n as int)) by {
            assert forall|i: int| 0 <= i < r.len() implies 0 <= #[trigger] r[i] < n by {
                assert(r[i] == t[i + 1]);
            }
        }
        lemma_hrows(m, n, r);
        lemma_col_sum(m, t[0], r);
        lemma_sum_concat(col(m, t[0], r), hrows(m, r));
        assert(t =~= seq![t[0]] + r);
        lemma_weight_head(m, n, t[0], r);
    }
}

pub proof fn lemma_suffix_monotone(m: Seq<Seq<u64>>, u: int, t: int, n: int)
    requires
        u <= t,
    ensures
        suffix_weights(m, t, n).subset_of(suffix_weights(m, u, n)),
    decreases t - u,
{
    if u < t {
        lemma_suffix_monotone(m, u + 1, t, n);
        if u < n {
            assert(suffix_weights(m, u + 1, n).subset_of(suffix_weights(m, u, n)));
        }
    }
}

/// The nonzero pair weights of an increasing subset of `u..n` are among the
/// edge weights of the suffix starting at `u`.
pub proof fn lemma_hrows_sub(m: Seq<Seq<u64>>, t: Seq<usize>, u: int, n: int)
    requires
        increasing(t),
        within(t, u, n),
        0 <= u,
        n <= usize::MAX,
    ensures
        hrows(m, t).to_multiset().subset_of(suffix_weights(m, u, n)),
    decreases t.len(),
{
    if t.len() == 0 {
        assert(hrows(m, t).to_multiset() =~= Multiset::empty());
    } else {
        let t0 = t[0];
        let r = t.skip(1);
        assert(increasing(r) && within(r, t0 + 1, n)) by {
            assert forall|i: int| 0 <= i < r.len() implies t0 + 1 <= #[trigger] r[i] < n by {
                assert(r[i] == t[i + 1]);
                assert(t[0] < t[i + 1]);
            }
        }
        lemma_hrows_sub(m, r, t0 + 1, n);
        lemma_col_sub(m, t0, r, t0 + 1, n);
        lemma_suffix_monotone(m, u, t0 as int, n);
        let c = col(m, t0, r);
        assert(hrows(m, t).to_multiset() =~= c.to_multiset().add(hrows(m, r).to_multiset()));
    }
}

/// The search's bound on what the vertices `u..n` can add is admissible:
/// no increasing subset of them weighs more than the sum of the
/// `pairs(k)` largest edge weights of that suffix.
pub proof fn lemma_suffix_bound(m: Seq<Seq<u64>>, n: nat, t: Seq<usize>, u: int, acc: Seq<u64>, k: nat)
    requires
        symmetric_matrix(m, n),
        n <= usize::MAX,
        increasing(t),
        within(t, u, n as int),
        0 <= u,
        t.len() <= k,
        sorted_asc(acc),
        acc.to_multiset() == suffix_weights(m, u, n as int),
    ensures
        weight(m, t) <= top_sum(acc, pairs(k)),
{
    assert(within(t, 0, n as int));
    lemma_hrows(m, n, t);
    lemma_hrows_sub(m, t, u, n as int);
    lemma_pairs_monotone(t.len(), k);
    lemma_top_sum_bounds(acc, hrows(m, t), pairs(k));
}

/// The search's bound on the cross weight is admissible: the vertices of `t`,
/// an increasing subset of `lo..hi` with at most `r` vertices, have cross
/// weight to `p` at most the `r` largest cross weights of `lo..hi`.
pub proof fn lemma_cross_bound(
    m: Seq<Seq<u64>>,
    p: Seq<usize>,
    t: Seq<usize>,
    lo: int,
    hi: int,
    sorted: Seq<u64>,
    r: nat,
)
    requires
        increasing(t),
        within(t, lo, hi),
        0 <= lo <= hi,
        t.len() <= r,
        forall|v: int| lo <= v < hi ==> 0 <= #[trigger] cross(m, v as usize, p) <= u64::MAX,
        hi <= usize::MAX,
        sorted_asc(sorted),
        sorted.to_multiset() == cross_row(m, p, lo, hi).to_multiset(),
    ensures
        cross_sum(m, t, p) <= top_sum(sorted, r),
{
    let row = cross_row(m, p, lo, hi);
    let idx = Seq::new(t.len(), |i: int| t[i] - lo);
    assert(index_chain(idx, row.len() as int));
    lemma_pick_sub(row, idx);
    lemma_cross_sum_pick(m, p, t, lo, hi);
    lemma_top_sum_bounds(sorted, pick(row, idx), r);
}

proof fn lemma_cross_sum_pick(m: Seq<Seq<u64>>, p: Seq<usize>, t: Seq<usize>, lo: int, hi: int)
    requires
        within(t, lo, hi),
        0 <= lo <= hi,
        forall|v: int| lo <= v < hi ==> 0 <= #[trigger] cross(m, v as usize, p) <= u64::MAX,
        hi <= usize::MAX,
    ensures
        cross_sum(m, t, p) == seq_sum(pick(cross_row(m, p, lo, hi), Seq::new(t.len(), |i: int| t[i] - lo))),
    decreases t.len(),
{
    let row = cross_row(m, p, lo, hi);
    let idx = Seq::new(t.len(), |i: int| t[i] - lo);
    if t.len() > 0 {
        let t1 = t.drop_last();
        lemma_cross_sum_pick(m, p, t1, lo, hi);
        let idx1 = Seq::new(t1.len(), |i: int| t1[i] - lo);
        assert(pick(row, idx).drop_last() =~= pick(row, idx1));
        let v = t.last();
        assert(lo <= t[t.len() - 1] < hi);
        assert(cross(m, (lo + (v - lo)) as usize, p) == cross(m, v, p));
    }
}

} // verus!
