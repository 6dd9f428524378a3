use vstd::multiset::Multiset;
use vstd::prelude::*;

verus! {

broadcast use vstd::seq_lib::group_to_multiset_ensures;

/// Sum of a sequence of weights.
pub open spec fn seq_sum(s: Seq<u64>) -> int
    decreases s.len(),
{
    if s.len() == 0 {
        0
    } else {
        seq_sum(s.drop_last()) + s.last()
    }
}

/// Sum of the last `m` elements of `s` (all of them if it is shorter); for
/// an ascending `s`, the sum of its `m` largest elements.
pub open spec fn top_sum(s: Seq<u64>, m: nat) -> int
    decreases s.len(),
{
    if m == 0 || s.len() == 0 {
        0
    } else {
        s.last() + top_sum(s.drop_last(), (m - 1) as nat)
    }
}

pub open spec fn sorted_asc(s: Seq<u64>) -> bool {
    forall|i: int, j: int| 0 <= i <= j < s.len() ==> s[i] <= s[j]
}

/// Strictly increasing indices into a sequence of length `len`.
pub open spec fn index_chain(idx: Seq<int>, len: int) -> bool {
    &&& forall|i: int, j: int| 0 <= i < j < idx.len() ==> idx[i] < idx[j]
    &&& forall|i: int| 0 <= i < idx.len() ==> 0 <= #[trigger] idx[i] < len
}

/// The elements of `s` at the positions `idx`.
pub open spec fn pick(s: Seq<u64>, idx: Seq<int>) -> Seq<u64> {
    Seq::new(idx.len(), |i: int| s[idx[i]])
}

pub proof fn lemma_sum_nonneg(s: Seq<u64>)
    ensures
        seq_sum(s) >= 0,
    decreases s.len(),
{
    if s.len() > 0 {
        lemma_sum_nonneg(s.drop_last());
    }
}

pub proof fn lemma_sum_remove(x: Seq<u64>, i: int)
    requires
        0 <= i < x.len(),
    ensures
        seq_sum(x) == x[i] + seq_sum(x.remove(i)),
    decreases x.len(),
{
    if i == x.len() - 1 {
        assert(x.remove(i) =~= x.drop_last());
    } else {
        lemma_sum_remove(x.drop_last(), i);
        assert(x.remove(i).drop_last() =~= x.drop_last().remove(i));
    }
}

pub proof fn lemma_sum_push(s: Seq<u64>, v: u64)
    ensures
        seq_sum(s.push(v)) == seq_sum(s) + v,
{
    assert(s.push(v).drop_last() =~= s);
}

pub proof fn lemma_sum_concat(s: Seq<u64>, t: Seq<u64>)
    ensures
        seq_sum(s + t) == seq_sum(s) + seq_sum(t),
    decreases t.len(),
{
    if t.len() == 0 {
        assert(s + t =~= s);
    } else {
        lemma_sum_concat(s, t.drop_last());
        assert((s + t).drop_last() =~= s + t.drop_last());
    }
}

/// Taking one more element from an ascending sequence whose elements are at
/// most `c` adds at most `c`.
proof fn lemma_top_step(s: Seq<u64>, m: nat, c: u64)
    requires
        m >= 1,
        forall|i: int| 0 <= i < s.len() ==> s[i] <= c,
    ensures
        top_sum(s, m) <= c + top_sum(s, (m - 1) as nat),
    decreases s.len(),
{
    if s.len() > 0 {
        assert(s[s.len() - 1] <= c);
        if m == 1 {
            assert(top_sum(s.drop_last(), 0) == 0);
            assert(top_sum(s, 0) == 0);
        } else {
            assert forall|i: int| 0 <= i < s.drop_last().len() implies s.drop_last()[i] <= c by {
                assert(s[i] <= c);
            }
            lemma_top_step(s.drop_last(), (m - 1) as nat, c);
            assert(top_sum(s, (m - 1) as nat) == s.last() + top_sum(s.drop_last(), (m - 2) as nat));
        }
    }
}

/// The sum of the last `j + 1` elements adds the element `j` places from the
/// end to the sum of the last `j`.
pub proof fn lemma_top_next(s: Seq<u64>, j: nat)
    requires
        j < s.len(),
    ensures
        top_sum(s, j + 1) == top_sum(s, j) + s[s.len() - 1 - j],
    decreases s.len(),
{
    let s1 = s.drop_last();
    if j > 0 {
        lemma_top_next(s1, (j - 1) as nat);
        assert(s1[s1.len() - 1 - (j - 1)] == s[s.len() - 1 - j]);
    } else {
        assert(top_sum(s1, 0) == 0);
    }
}

pub proof fn lemma_top_all(s: Seq<u64>, m: nat)
    requires
        m >= s.len(),
    ensures
        top_sum(s, m) == top_sum(s, s.len()),
    decreases s.len(),
{
    if s.len() > 0 {
        lemma_top_all(s.drop_last(), (m - 1) as nat);
    }
}

/// Any `m` elements drawn from an ascending sequence sum to at most the sum
/// of its `m` largest.
pub proof fn lemma_top_sum_bounds(s: Seq<u64>, x: Seq<u64>, m: nat)
    requires
        sorted_asc(s),
        x.to_multiset().subset_of(s.to_multiset()),
        x.len() <= m,
    ensures
        seq_sum(x) <= top_sum(s, m),
    decreases s.len(),
{
    if s.len() == 0 {
        if x.len() > 0 {
            assert(x.to_multiset().count(x[0]) > 0);
        }
    } else {
        let c = s.last();
        let s1 = s.drop_last();
        assert(s =~= s1.push(c));
        assert(s.to_multiset() =~= s1.to_multiset().insert(c));
        if x.to_multiset().count(c) > 0 {
            assert(x.contains(c));
            let i = choose|i: int| 0 <= i < x.len() && x[i] == c;
            lemma_sum_remove(x, i);
            let x1 = x.remove(i);
            assert(x1.to_multiset() =~= x.to_multiset().remove(c));
            assert(x1.to_multiset().subset_of(s1.to_multiset()));
            lemma_top_sum_bounds(s1, x1, (m - 1) as nat);
        } else {
            assert(x.to_multiset().subset_of(s1.to_multiset()));
            lemma_top_sum_bounds(s1, x, m);
            if m >= 1 {
                lemma_top_step(s1, m, c);
            } else {
                lemma_sum_nonneg(x);
                assert(x.len() == 0);
            }
        }
    }
}

/// Elements picked at increasing positions form a sub-multiset.
pub proof fn lemma_pick_sub(s: Seq<u64>, idx: Seq<int>)
    requires
        index_chain(idx, s.len() as int),
    ensures
        pick(s, idx).to_multiset().subset_of(s.to_multiset()),
    decreases s.len(),
{
    if idx.len() == 0 {
        assert(pick(s, idx).to_multiset() =~= Multiset::empty());
    } else {
        assert(0 <= idx[0] < s.len());
        let s1 = s.drop_last();
        assert(s =~= s1.push(s.last()));
        assert(s.to_multiset() =~= s1.to_multiset().insert(s.last()));
        if idx.last() == s.len() - 1 {
            let idx1 = idx.drop_last();
            lemma_pick_sub(s1, idx1);
            assert(pick(s, idx) =~= pick(s1, idx1).push(s.last()));
        } else {
            assert forall|i: int| 0 <= i < idx.len() implies 0 <= #[trigger] idx[i] < s1.len() by {
                if i < idx.len() - 1 {
                    assert(idx[i] < idx.last());
                }
            }
            lemma_pick_sub(s1, idx);
            assert(pick(s, idx) =~= pick(s1, idx));
        }
    }
}


pub proof fn lemma_top_monotone(s: Seq<u64>, m1: nat, m2: nat)
    requires
        m1 <= m2,
    ensures
        top_sum(s, m1) <= top_sum(s, m2),
    decreases s.len(),
{
    if s.len() > 0 && m1 > 0 {
        lemma_top_monotone(s.drop_last(), (m1 - 1) as nat, (m2 - 1) as nat);
    } else if s.len() > 0 && m2 > 0 {
        lemma_top_monotone(s.drop_last(), 0, (m2 - 1) as nat);
        lemma_top_nonneg(s.drop_last(), (m2 - 1) as nat);
    }
}

pub proof fn lemma_top_nonneg(s: Seq<u64>, m: nat)
    ensures
        top_sum(s, m) >= 0,
    decreases s.len(),
{
    if s.len() > 0 && m > 0 {
        lemma_top_nonneg(s.drop_last(), (m - 1) as nat);
    }
}

/// `top_sum(s, m)` sums the last `j` elements of `s`, `j` the smaller of
/// `m` and its length.
proof fn lemma_top_suffix(s: Seq<u64>, m: nat, j: int)
    requires
        j == if m < s.len() { m as int } else { s.len() as int },
    ensures
        top_sum(s, m) == seq_sum(s.subrange(s.len() - j, s.len() as int)),
    decreases s.len(),
{
    if s.len() == 0 || m == 0 {
        assert(s.subrange(s.len() - j, s.len() as int) =~= Seq::<u64>::empty());
    } else {
        let s1 = s.drop_last();
        lemma_top_suffix(s1, (m - 1) as nat, j - 1);
        assert(s.subrange(s.len() - j, s.len() as int) =~= s1.subrange(s1.len() - (j - 1), s1.len() as int).push(
            s.last(),
        ));
        lemma_sum_push(s1.subrange(s1.len() - (j - 1), s1.len() as int), s.last());
    }
}

/// The `m` largest elements of a sub-multiset of an ascending `a` sum to at
/// most the `m` largest elements of `a`.
pub proof fn lemma_top_sum_sub(a: Seq<u64>, b: Seq<u64>, m: nat)
    requires
        sorted_asc(a),
        b.to_multiset().subset_of(a.to_multiset()),
    ensures
        top_sum(b, m) <= top_sum(a, m),
{
    let j: int = if m < b.len() { m as int } else { b.len() as int };
    let x = b.subrange(b.len() - j, b.len() as int);
    lemma_top_suffix(b, m, j);
    let idx = Seq::new(j as nat, |i: int| b.len() - j + i);
    assert(index_chain(idx, b.len() as int));
    lemma_pick_sub(b, idx);
    assert(pick(b, idx) =~= x);
    lemma_top_sum_bounds(a, x, m);
}

} // verus!
