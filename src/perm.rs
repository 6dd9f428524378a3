//! The weight of a vertex subset does not depend on the order in which its
//! vertices are listed, nor on how the vertices are numbered.
use crate::model::{
    cross, increasing, lemma_cross_push, lemma_weight_push, symmetric_matrix, weight, within,
};
use vstd::multiset::Multiset;
use vstd::prelude::*;

verus! {

broadcast use vstd::seq_lib::group_to_multiset_ensures;

/// `s` with `x` put in its place, for an increasing `s`.
pub open spec fn insert_sorted(s: Seq<usize>, x: usize) -> Seq<usize>
    decreases s.len(),
{
    if s.len() == 0 {
        seq![x]
    } else if s.last() < x {
        s.push(x)
    } else {
        insert_sorted(s.drop_last(), x).push(s.last())
    }
}

/// The elements of `s` in increasing order.
pub open spec fn sort_seq(s: Seq<usize>) -> Seq<usize>
    decreases s.len(),
{
    if s.len() == 0 {
        Seq::empty()
    } else {
        insert_sorted(sort_seq(s.drop_last()), s.last())
    }
}

pub proof fn lemma_cross_remove(m: Seq<Seq<u64>>, v: usize, s: Seq<usize>, i: int)
    requires
        0 <= i < s.len(),
    ensures
        cross(m, v, s) == cross(m, v, s.remove(i)) + m[v as int][s[i] as int],
    decreases s.len(),
{
    if i == s.len() - 1 {
        assert(s.remove(i) =~= s.drop_last());
    } else {
        lemma_cross_remove(m, v, s.drop_last(), i);
        assert(s.remove(i) =~= s.drop_last().remove(i).push(s.last()));
        lemma_cross_push(m, v, s.drop_last().remove(i), s.last());
    }
}

pub proof fn lemma_weight_remove(m: Seq<Seq<u64>>, n: nat, s: Seq<usize>, i: int)
    requires
        symmetric_matrix(m, n),
        within(s, 0, n as int),
        0 <= i < s.len(),
    ensures
        weight(m, s) == weight(m, s.remove(i)) + cross(m, s[i], s.remove(i)),
    decreases s.len(),
{
    if i == s.len() - 1 {
        assert(s.remove(i) =~= s.drop_last());
    } else {
        let s1 = s.drop_last();
        let y = s.last();
        assert(within(s1, 0, n as int));
        lemma_weight_remove(m, n, s1, i);
        let r1 = s1.remove(i);
        assert(s.remove(i) =~= r1.push(y));
        lemma_weight_push(m, r1, y);
        lemma_cross_push(m, s[i], r1, y);
        lemma_cross_remove(m, y, s1, i);
        assert(0 <= s[s.len() - 1] < n && 0 <= s[i] < n);
        assert(m[y as int][s[i] as int] == m[s[i] as int][y as int]);
    }
}

proof fn lemma_pick_last(s: Seq<usize>, t: Seq<usize>) -> (i: int)
    requires
        s.to_multiset() == t.to_multiset(),
        t.len() > 0,
    ensures
        0 <= i < s.len(),
        s[i] == t.last(),
        s.remove(i).to_multiset() == t.drop_last().to_multiset(),
{
    let x = t.last();
    assert(t =~= t.drop_last().push(x));
    assert(t.to_multiset().count(x) > 0);
    assert(s.contains(x));
    let i = choose|i: int| 0 <= i < s.len() && s[i] == x;
    assert(s.remove(i).to_multiset() =~= t.drop_last().to_multiset());
    i
}

pub proof fn lemma_cross_perm(m: Seq<Seq<u64>>, v: usize, s: Seq<usize>, t: Seq<usize>)
    requires
        s.to_multiset() == t.to_multiset(),
    ensures
        cross(m, v, s) == cross(m, v, t),
    decreases t.len(),
{
    if t.len() > 0 {
        let i = lemma_pick_last(s, t);
        lemma_cross_remove(m, v, s, i);
        lemma_cross_perm(m, v, s.remove(i), t.drop_last());
    } else {
        assert(s.to_multiset().len() == 0);
    }
}

pub proof fn lemma_within_perm(s: Seq<usize>, t: Seq<usize>, lo: int, hi: int)
    requires
        s.to_multiset() == t.to_multiset(),
        within(s, lo, hi),
    ensures
        within(t, lo, hi),
{
    assert forall|i: int| 0 <= i < t.len() implies lo <= #[trigger] t[i] < hi by {
        assert(t.to_multiset().count(t[i]) > 0);
        assert(s.contains(t[i]));
        let j = choose|j: int| 0 <= j < s.len() && s[j] == t[i];
        assert(lo <= s[j] < hi);
    }
}

/// Listing the same vertices in another order keeps the weight.
pub proof fn lemma_weight_perm(m: Seq<Seq<u64>>, n: nat, s: Seq<usize>, t: Seq<usize>)
    requires
        symmetric_matrix(m, n),
        within(s, 0, n as int),
        s.to_multiset() == t.to_multiset(),
    ensures
        weight(m, s) == weight(m, t),
    decreases t.len(),
{
    if t.len() > 0 {
        let i = lemma_pick_last(s, t);
        lemma_weight_remove(m, n, s, i);
        assert(within(s.remove(i), 0, n as int)) by {
            assert forall|j: int| 0 <= j < s.remove(i).len() implies 0 <= #[trigger] s.remove(i)[j] < n by {
                if j < i {
                    assert(s.remove(i)[j] == s[j]);
                } else {
                    assert(s.remove(i)[j] == s[j + 1]);
                }
            }
        }
        lemma_weight_perm(m, n, s.remove(i), t.drop_last());
        lemma_cross_perm(m, t.last(), s.remove(i), t.drop_last());
    } else {
        assert(s.to_multiset().len() == 0);
    }
}

proof fn lemma_insert_sorted(s: Seq<usize>, x: usize)
    requires
        increasing(s),
        !s.contains(x),
    ensures
        increasing(insert_sorted(s, x)),
        insert_sorted(s, x).to_multiset() == s.to_multiset().insert(x),
    decreases s.len(),
{
    let r = insert_sorted(s, x);
    if s.len() == 0 {
        assert(seq![x] =~= Seq::<usize>::empty().push(x));
        assert(Seq::<usize>::empty().to_multiset() =~= Multiset::empty());
    } else if s.last() < x {
        assert forall|i: int, j: int| 0 <= i < j < r.len() implies r[i] < r[j] by {
            if j == r.len() - 1 && i < s.len() - 1 {
                assert(s[i] < s[s.len() - 1]);
            }
        }
    } else {
        let s1 = s.drop_last();
        let y = s.last();
        assert(y != x) by {
            assert(s[s.len() - 1] == y);
        }
        assert(!s1.contains(x)) by {
            if s1.contains(x) {
                let k = choose|k: int| 0 <= k < s1.len() && s1[k] == x;
                assert(s[k] == x);
            }
        }
        lemma_insert_sorted(s1, x);
        let r1 = insert_sorted(s1, x);
        assert(s =~= s1.push(y));
        assert forall|i: int| 0 <= i < r1.len() implies #[trigger] r1[i] < y by {
            assert(r1.to_multiset().count(r1[i]) > 0);
            if r1[i] != x {
                assert(s1.to_multiset().count(r1[i]) > 0);
                assert(s1.contains(r1[i]));
                let k = choose|k: int| 0 <= k < s1.len() && s1[k] == r1[i];
                assert(s[k] < s[s.len() - 1]);
            }
        }
        assert forall|i: int, j: int| 0 <= i < j < r.len() implies r[i] < r[j] by {
            if j == r.len() - 1 {
                assert(r1[i] < y);
            } else {
                assert(r[i] == r1[i] && r[j] == r1[j]);
            }
        }
        assert(r.to_multiset() =~= s.to_multiset().insert(x));
    }
}

/// A list of distinct vertices has an increasing rearrangement.
pub proof fn lemma_sort_seq(s: Seq<usize>)
    requires
        s.no_duplicates(),
    ensures
        increasing(sort_seq(s)),
        sort_seq(s).to_multiset() == s.to_multiset(),
    decreases s.len(),
{
    if s.len() == 0 {
        assert(sort_seq(s) =~= s);
    } else {
        let s1 = s.drop_last();
        let x = s.last();
        assert(s1.no_duplicates());
        lemma_sort_seq(s1);
        let r1 = sort_seq(s1);
        assert(!r1.contains(x)) by {
            if r1.contains(x) {
                assert(r1.to_multiset().count(x) > 0);
                assert(s1.contains(x));
                let k = choose|k: int| 0 <= k < s1.len() && s1[k] == x;
                assert(s[k] == s[s.len() - 1]);
            }
        }
        lemma_insert_sorted(r1, x);
        assert(s =~= s1.push(x));
    }
}


/// `m2` is `m` with vertex `o[x]` renumbered `x`.
pub open spec fn renumbered(m2: Seq<Seq<u64>>, m: Seq<Seq<u64>>, o: Seq<usize>, n: nat) -> bool {
    forall|x: int, y: int| 0 <= x < n && 0 <= y < n ==> #[trigger] m2[x][y] == m[o[x] as int][o[y] as int]
}

/// The vertices of `s` under their numbers in `m`.
pub open spec fn rename(s: Seq<usize>, o: Seq<usize>) -> Seq<usize> {
    s.map_values(|x: usize| o[x as int])
}

proof fn lemma_cross_renumbered(m2: Seq<Seq<u64>>, m: Seq<Seq<u64>>, o: Seq<usize>, n: nat, v: usize, s: Seq<usize>)
    requires
        renumbered(m2, m, o, n),
        v < n,
        within(s, 0, n as int),
    ensures
        cross(m2, v, s) == cross(m, o[v as int], rename(s, o)),
    decreases s.len(),
{
    if s.len() > 0 {
        assert(within(s.drop_last(), 0, n as int));
        lemma_cross_renumbered(m2, m, o, n, v, s.drop_last());
        assert(rename(s, o).drop_last() =~= rename(s.drop_last(), o));
        assert(0 <= s[s.len() - 1] < n);
    }
}

/// Renumbering the vertices keeps the weight of a subset.
pub proof fn lemma_weight_renumbered(m2: Seq<Seq<u64>>, m: Seq<Seq<u64>>, o: Seq<usize>, n: nat, s: Seq<usize>)
    requires
        renumbered(m2, m, o, n),
        within(s, 0, n as int),
    ensures
        weight(m2, s) == weight(m, rename(s, o)),
    decreases s.len(),
{
    if s.len() > 0 {
        assert(within(s.drop_last(), 0, n as int));
        lemma_weight_renumbered(m2, m, o, n, s.drop_last());
        assert(rename(s, o).drop_last() =~= rename(s.drop_last(), o));
        assert(0 <= s[s.len() - 1] < n);
        lemma_cross_renumbered(m2, m, o, n, s.last(), s.drop_last());
    }
}

} // verus!
