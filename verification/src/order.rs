use vstd::prelude::*;
use vstd::seq_lib::group_to_multiset_ensures;
use vstd::multiset::group_multiset_axioms;

verus! {

/// A sortable record: two unsigned rank components compared
/// lexicographically, and a payload index that breaks the remaining ties,
/// so that the order is total and antisymmetric.
pub type Rank = (u128, u128, usize);

/// Lexicographic order on ranks, payload index last.
pub open spec fn rank_le(x: Rank, y: Rank) -> bool {
    ||| x.0 < y.0
    ||| (x.0 == y.0 && x.1 < y.1)
    ||| (x.0 == y.0 && x.1 == y.1 && x.2 <= y.2)
}

/// The sequence is ordered by `rank_le`.
pub open spec fn rank_sorted(s: Seq<Rank>) -> bool {
    forall|i: int, j: int| 0 <= i < j < s.len() ==> rank_le(s[i], s[j])
}

/// Strict comparison used by the selection loop.
fn rank_lt(x: &Rank, y: &Rank) -> (b: bool)
    ensures
        b == (rank_le(*x, *y) && *x != *y),
{
    if x.0 != y.0 {
        x.0 < y.0
    } else if x.1 != y.1 {
        x.1 < y.1
    } else {
        x.2 < y.2
    }
}

/// Sort records by `rank_le` (selection sort). The result is a permutation
/// of the input; with distinct payload indices the order pins it uniquely.
pub fn sort_ranks(src: Vec<Rank>) -> (out: Vec<Rank>)
    ensures
        out@.len() == src@.len(),
        rank_sorted(out@),
        out@.to_multiset() == src@.to_multiset(),
{
    broadcast use group_to_multiset_ensures, group_multiset_axioms;

    let mut rest = src;
    let ghost orig = rest@;
    let mut out: Vec<Rank> = Vec::new();
    proof {
        assert(out@.to_multiset().add(rest@.to_multiset()) =~= orig.to_multiset());
    }
    while rest.len() > 0
        invariant
            out@.len() + rest@.len() == orig.len(),
            rank_sorted(out@),
            out@.to_multiset().add(rest@.to_multiset()) == orig.to_multiset(),
            forall|i: int, j: int|
                0 <= i < out@.len() && 0 <= j < rest@.len() ==> rank_le(out@[i], rest@[j]),
        decreases rest.len(),
    {
        let mut m: usize = 0;
        let mut i: usize = 1;
        while i < rest.len()
            invariant
                m < i <= rest.len(),
                rest.len() > 0,
                forall|j: int| 0 <= j < i ==> rank_le(rest@[m as int], rest@[j]),
            decreases rest.len() - i,
        {
            if rank_lt(&rest[i], &rest[m]) {
                m = i;
            }
            i = i + 1;
        }
        let ghost rest0 = rest@;
        let x = rest.remove(m);
        let ghost out0 = out@;
        out.push(x);
        proof {
            rest0.to_multiset_ensures();
            out0.to_multiset_ensures();
            assert(rest@ == rest0.remove(m as int));
            assert(rest@.to_multiset() =~= rest0.to_multiset().remove(x));
            assert(out@ == out0.push(x));
            assert(out@.to_multiset() =~= out0.to_multiset().insert(x));
            assert(out@.to_multiset().add(rest@.to_multiset()) =~= orig.to_multiset());
            assert forall|i2: int, j2: int|
                0 <= i2 < out@.len() && 0 <= j2 < rest@.len() implies rank_le(
                out@[i2],
                rest@[j2],
            ) by {
                let jold: int = if j2 < m { j2 } else { j2 + 1 };
                assert(rest@[j2] == rest0[jold]);
                if i2 < out0.len() {
                    assert(rank_le(out@[i2], rest0[jold]));
                } else {
                    assert(out@[i2] == x);
                    assert(rank_le(x, rest0[jold]));
                }
            }
            assert forall|i2: int, j2: int| 0 <= i2 < j2 < out@.len() implies rank_le(
                out@[i2],
                out@[j2],
            ) by {
                if j2 == out@.len() - 1 && i2 < j2 {
                    assert(rank_le(out0[i2], rest0[m as int]));
                }
            }
        }
    }
    out
}

/// A sequence with two equal entries counts that value at least twice.
pub proof fn lemma_dup_count(s: Seq<Rank>, i: int, j: int)
    requires
        0 <= i < j < s.len(),
        s[i] == s[j],
    ensures
        s.to_multiset().count(s[i]) >= 2,
{
    broadcast use group_to_multiset_ensures;

    let s1 = s.remove(j);
    assert(s1.to_multiset() =~= s.to_multiset().remove(s[j]));
    assert(s1[i] == s[i]);
    assert(s1.contains(s[i]));
    assert(s1.to_multiset().count(s[i]) > 0);
    assert(s.to_multiset().count(s[i]) == s1.to_multiset().count(s[i]) + 1);
}

/// A sorted permutation of a rank list whose payload indices are their
/// positions holds exactly the original records, each locatable by its
/// payload.
pub proof fn lemma_sorted_entries(ranks0: Seq<Rank>, sorted: Seq<Rank>)
    requires
        ranks0.len() <= usize::MAX,
        forall|j: int| 0 <= j < ranks0.len() ==> (#[trigger] ranks0[j]).2 == j as usize,
        sorted.to_multiset() == ranks0.to_multiset(),
    ensures
        sorted.len() == ranks0.len(),
        forall|j: int|
            0 <= j < sorted.len() ==> (#[trigger] sorted[j]).2 < ranks0.len() && sorted[j]
                == ranks0[sorted[j].2 as int],
        forall|i: int, j: int| 0 <= i < j < sorted.len() ==> (#[trigger] sorted[i]).2 != (
        #[trigger] sorted[j]).2,
        forall|j: int| #![trigger ranks0[j]]
            0 <= j < ranks0.len() ==> sorted.contains(ranks0[j]),
{
    broadcast use group_to_multiset_ensures, group_multiset_axioms;

    assert(sorted.len() == ranks0.len()) by {
        assert(sorted.to_multiset().len() == sorted.len());
        assert(ranks0.to_multiset().len() == ranks0.len());
    }
    assert forall|j: int| 0 <= j < sorted.len() implies (#[trigger] sorted[j]).2 < ranks0.len()
        && sorted[j] == ranks0[sorted[j].2 as int] by {
        assert(sorted.contains(sorted[j]));
        assert(sorted.to_multiset().count(sorted[j]) > 0);
        assert(ranks0.contains(sorted[j]));
        let w = choose|w: int| 0 <= w < ranks0.len() && ranks0[w] == sorted[j];
        assert(ranks0[w].2 == w as usize);
    }
    assert forall|i: int, j: int| 0 <= i < j < ranks0.len() implies (#[trigger] ranks0[i]).2 != (
    #[trigger] ranks0[j]).2 by {
    }
    lemma_rank_perm_distinct(ranks0, sorted);
    assert forall|j: int| #![trigger ranks0[j]] 0 <= j < ranks0.len() implies sorted.contains(
        ranks0[j],
    ) by {
        assert(ranks0.contains(ranks0[j]));
        assert(sorted.to_multiset().count(ranks0[j]) > 0);
    }
}

/// A permutation keeps payload indices distinct.
pub proof fn lemma_rank_perm_distinct(s1: Seq<Rank>, s2: Seq<Rank>)
    requires
        s1.to_multiset() == s2.to_multiset(),
        forall|i: int, j: int| 0 <= i < j < s1.len() ==> (#[trigger] s1[i]).2 != (#[trigger] s1[j]).2,
    ensures
        forall|i: int, j: int| 0 <= i < j < s2.len() ==> (#[trigger] s2[i]).2 != (#[trigger] s2[j]).2,
{
    broadcast use group_to_multiset_ensures, group_multiset_axioms;

    assert forall|i: int, j: int| 0 <= i < j < s2.len() implies (#[trigger] s2[i]).2 != (
    #[trigger] s2[j]).2 by {
        if s2[i].2 == s2[j].2 {
            if s2[i] == s2[j] {
                lemma_dup_count(s2, i, j);
                assert(s1.to_multiset().count(s2[i]) >= 2);
                assert(s1.contains(s2[i]));
                let p = choose|p: int| 0 <= p < s1.len() && s1[p] == s2[i];
                let s1r = s1.remove(p);
                assert(s1r.to_multiset() =~= s1.to_multiset().remove(s1[p]));
                assert(s1r.to_multiset().count(s2[i]) >= 1);
                assert(s1r.contains(s2[i]));
                let q = choose|q: int| 0 <= q < s1r.len() && s1r[q] == s2[i];
                let qorig: int = if q < p {
                    q
                } else {
                    q + 1
                };
                assert(s1[qorig] == s2[i]);
                assert(s1[p].2 == s1[qorig].2 && p != qorig);
            } else {
                assert(s2.contains(s2[i]) && s2.contains(s2[j]));
                assert(s1.to_multiset().count(s2[i]) > 0);
                assert(s1.to_multiset().count(s2[j]) > 0);
                assert(s1.contains(s2[i]) && s1.contains(s2[j]));
                let p = choose|p: int| 0 <= p < s1.len() && s1[p] == s2[i];
                let q = choose|q: int| 0 <= q < s1.len() && s1[q] == s2[j];
                assert(p != q && s1[p].2 == s1[q].2);
            }
        }
    }
}

} // verus!
