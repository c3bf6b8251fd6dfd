use vstd::prelude::*;
use vstd::seq_lib::group_to_multiset_ensures;
use crate::order::{Rank, rank_le, sort_ranks, lemma_dup_count};

verus! {

/// Squared L2 distance over the first `n` components of two equal-length
/// vectors. The store only ever compares distances, and squaring is
/// monotone, so the usual square root is dropped.
pub open spec fn dist2_prefix(a: Seq<i32>, b: Seq<i32>, n: int) -> int
    decreases n,
{
    if n <= 0 {
        0
    } else {
        dist2_prefix(a, b, n - 1) + (a[n - 1] - b[n - 1]) * (a[n - 1] - b[n - 1])
    }
}

/// Squared L2 distance between two equal-length vectors.
pub open spec fn dist2(a: Seq<i32>, b: Seq<i32>) -> int {
    dist2_prefix(a, b, a.len() as int)
}

/// Each summand of `dist2` lies in `[0, (2^32 - 1)^2]`.
proof fn lemma_sq_diff_bound(x: i32, y: i32)
    ensures
        0 <= (x - y) * (x - y) <= 0xffff_ffff * 0xffff_ffff,
{
    let d = x - y;
    assert(-0xffff_ffff <= d <= 0xffff_ffff);
    assert(d * d <= 0xffff_ffff * 0xffff_ffff && d * d >= 0) by (nonlinear_arith)
        requires
            -0xffff_ffff <= d <= 0xffff_ffff,
    ;
}

/// A distance prefix is bounded by its length times the summand bound.
proof fn lemma_dist2_prefix_bound(a: Seq<i32>, b: Seq<i32>, n: int)
    requires
        0 <= n,
    ensures
        0 <= dist2_prefix(a, b, n) <= n * (0xffff_ffff * 0xffff_ffff),
    decreases n,
{
    if n > 0 {
        lemma_dist2_prefix_bound(a, b, n - 1);
        lemma_sq_diff_bound(a[n - 1], b[n - 1]);
        assert((n - 1) * (0xffff_ffff * 0xffff_ffff) + (0xffff_ffff * 0xffff_ffff) == n * (
        0xffff_ffff * 0xffff_ffff)) by (nonlinear_arith);
    }
}

/// Multiplying both sides of a bound by a nonnegative factor keeps it.
proof fn lemma_mul_le(a: int, b: int, c: int)
    requires
        a <= c,
        0 <= b,
    ensures
        a * b <= c * b,
{
    assert(a * b <= c * b) by (nonlinear_arith)
        requires
            a <= c,
            0 <= b,
    ;
}

/// For vectors of machine length the squared distance fits in `u128`.
proof fn lemma_dist2_in_u128(a: Seq<i32>, b: Seq<i32>)
    requires
        a.len() <= 0xffff_ffff_ffff_ffff,
    ensures
        0 <= dist2(a, b) <= u128::MAX,
{
    lemma_dist2_prefix_bound(a, b, a.len() as int);
    lemma_mul_le(a.len() as int, (0xffff_ffff * 0xffff_ffff) as int, 0xffff_ffff_ffff_ffff);
}

/// Squared difference of two components.
fn sq_diff(x: i32, y: i32) -> (r: u128)
    ensures
        r == (x - y) * (x - y),
{
    let d: i64 = x as i64 - y as i64;
    let ad: u64 = if d < 0 {
        (-d) as u64
    } else {
        d as u64
    };
    proof {
        lemma_sq_diff_bound(x, y);
        assert((ad as int) * (ad as int) == (x - y) * (x - y)) by (nonlinear_arith)
            requires
                ad == if d < 0 { -d as int } else { d as int } && d == x - y,
        ;
    }
    (ad as u128) * (ad as u128)
}

/// Squared L2 distance, free of overflow for any dimensionality.
pub fn l2_dist2(a: &Vec<i32>, b: &Vec<i32>) -> (d: u128)
    requires
        a@.len() == b@.len(),
    ensures
        d == dist2(a@, b@),
{
    let mut acc: u128 = 0;
    let mut i: usize = 0;
    let n = a.len();
    proof {
        lemma_dist2_in_u128(a@, b@);
    }
    while i < n
        invariant
            i <= n,
            n == a@.len(),
            a@.len() == b@.len(),
            acc == dist2_prefix(a@, b@, i as int),
            0 <= dist2(a@, b@) <= u128::MAX,
        decreases n - i,
    {
        let t = sq_diff(a[i], b[i]);
        proof {
            lemma_dist2_prefix_bound(a@, b@, i as int);
            lemma_sq_diff_bound(a@[i as int], b@[i as int]);
            lemma_dist2_prefix_mono(a@, b@, i + 1, a@.len() as int);
        }
        acc = acc + t;
        i = i + 1;
    }
    acc
}

/// `dist2_prefix` grows with the prefix length.
proof fn lemma_dist2_prefix_mono(a: Seq<i32>, b: Seq<i32>, n: int, m: int)
    requires
        0 <= n <= m,
    ensures
        dist2_prefix(a, b, n) <= dist2_prefix(a, b, m),
    decreases m,
{
    if n < m {
        lemma_dist2_prefix_mono(a, b, n, m - 1);
        lemma_sq_diff_bound(a[m - 1], b[m - 1]);
    }
}

/// Exact (brute-force) vector index: an append-only list of vectors with
/// dense keys `0..len`. O(n) per query; deterministic.
pub struct ExactIndex {
    vectors: Vec<Vec<i32>>,
}

impl View for ExactIndex {
    type V = Seq<Seq<i32>>;

    closed spec fn view(&self) -> Seq<Seq<i32>> {
        self.vectors.deep_view()
    }
}

/// A search hit: the vector's key paired with its squared distance to the
/// query, every hit correct, keys distinct, hits ordered by
/// (distance, key), and nothing closer left unreported.
pub open spec fn search_hits_ok(
    vectors: Seq<Seq<i32>>,
    query: Seq<i32>,
    k: nat,
    r: Seq<(usize, u128)>,
) -> bool {
    let n = vectors.len();
    &&& r.len() == if k < n {
        k as int
    } else {
        n as int
    }
    &&& forall|i: int|
        0 <= i < r.len() ==> (#[trigger] r[i]).0 < n && r[i].1 == dist2(query, vectors[r[i].0 as int])
    &&& forall|i: int, j: int| 0 <= i < j < r.len() ==> r[i].0 != r[j].0
    &&& forall|i: int, j: int|
        0 <= i < j < r.len() ==> hit_le(r[i], r[j])
    &&& forall|key: int, i: int|
        0 <= key < n && 0 <= i < r.len() && (forall|j: int| 0 <= j < r.len() ==> (#[trigger] r[j]).0 != key)
            ==> hit_le(r[i], (key as usize, dist2(query, vectors[key]) as u128))
    &&& k >= n ==> forall|key: int| #![trigger reports_key(r, key)]
        0 <= key < n ==> reports_key(r, key)
}

/// Some hit in `r` carries the key.
pub open spec fn reports_key(r: Seq<(usize, u128)>, key: int) -> bool {
    exists|i: int| 0 <= i < r.len() && (#[trigger] r[i]).0 == key
}

/// Order of search hits: distance ascending, then key ascending.
pub open spec fn hit_le(x: (usize, u128), y: (usize, u128)) -> bool {
    x.1 < y.1 || (x.1 == y.1 && x.0 <= y.0)
}

impl ExactIndex {
    /// An empty index.
    pub fn new() -> (idx: Self)
        ensures
            idx@ == Seq::<Seq<i32>>::empty(),
    {
        let idx = ExactIndex { vectors: Vec::new() };
        proof {
            assert(idx@ =~= Seq::<Seq<i32>>::empty());
        }
        idx
    }

    /// An index over pre-existing vectors (e.g. loaded from a snapshot);
    /// keys are the positions `0..vectors.len()`.
    pub fn from_vectors(vectors: Vec<Vec<i32>>) -> (idx: Self)
        ensures
            idx@ == vectors.deep_view(),
    {
        ExactIndex { vectors }
    }

    /// Number of vectors in the index.
    pub fn len(&self) -> (n: usize)
        ensures
            n == self@.len(),
    {
        self.vectors.len()
    }

    /// Insert a vector; the returned key is its position.
    pub fn insert(&mut self, v: Vec<i32>) -> (key: usize)
        ensures
            final(self)@ == old(self)@.push(v@),
            key == old(self)@.len(),
    {
        let key = self.vectors.len();
        self.vectors.push(v);
        proof {
            assert(self@ =~~= old(self)@.push(v@));
        }
        key
    }

    /// Top-k nearest vectors by squared L2 distance, ties broken by key.
    pub fn search(&self, query: &Vec<i32>, k: usize) -> (r: Vec<(usize, u128)>)
        requires
            forall|i: int| 0 <= i < self@.len() ==> (#[trigger] self@[i]).len() == query@.len(),
        ensures
            search_hits_ok(self@, query@, k as nat, r@),
    {
        broadcast use group_to_multiset_ensures;

        let n = self.vectors.len();
        let mut ranks: Vec<Rank> = Vec::new();
        let mut i: usize = 0;
        while i < n
            invariant
                i <= n,
                n == self@.len(),
                forall|j: int| 0 <= j < self@.len() ==> (#[trigger] self@[j]).len() == query@.len(),
                ranks@.len() == i,
                forall|j: int|
                    0 <= j < i ==> (#[trigger] ranks@[j]) == (
                    dist2(query@, self@[j]) as u128,
                    j as u128,
                    j as usize,
                ),
            decreases n - i,
        {
            proof {
                assert(query.len() == query@.len());
                assert(self@[i as int] =~= self.vectors@[i as int]@);
                lemma_dist2_in_u128(query@, self@[i as int]);
            }
            let d = l2_dist2(query, &self.vectors[i]);
            ranks.push((d, i as u128, i));
            i = i + 1;
        }
        let ghost built = ranks@;
        let ghost ranks0 = Seq::new(n as nat, |j: int| (
            dist2(query@, self@[j]) as u128,
            j as u128,
            j as usize,
        ));
        proof {
            assert(built =~= ranks0);
        }
        let sorted = sort_ranks(ranks);
        let take = if k < n {
            k
        } else {
            n
        };
        let mut r: Vec<(usize, u128)> = Vec::new();
        let mut i2: usize = 0;
        while i2 < take
            invariant
                i2 <= take,
                take == if (k as nat) < sorted@.len() {
                    k as int
                } else {
                    sorted@.len() as int
                },
                r@.len() == i2,
                forall|j: int| 0 <= j < i2 ==> (#[trigger] r@[j]) == (sorted@[j].2, sorted@[j].0),
            decreases take - i2,
        {
            let (d, _, key) = sorted[i2];
            r.push((key, d));
            i2 = i2 + 1;
        }
        proof {
            assert forall|j: int| 0 <= j < self@.len() implies 0 <= dist2(
                query@,
                (#[trigger] self@[j]),
            ) <= u128::MAX by {
                assert(query.len() == query@.len());
                lemma_dist2_in_u128(query@, self@[j]);
            }
            assert(self.vectors.len() == self@.len());
            lemma_search_hits(self@, query@, k as nat, ranks0, sorted@, r@);
        }
        r
    }
}

/// From a sorted permutation of the full rank list, the reported prefix is
/// a correct top-k answer.
proof fn lemma_search_hits(
    vectors: Seq<Seq<i32>>,
    query: Seq<i32>,
    k: nat,
    ranks0: Seq<Rank>,
    sorted: Seq<Rank>,
    r: Seq<(usize, u128)>,
)
    requires
        vectors.len() <= usize::MAX,
        ranks0.len() == vectors.len(),
        forall|j: int|
            0 <= j < ranks0.len() ==> (#[trigger] ranks0[j]) == (
            dist2(query, vectors[j]) as u128,
            j as u128,
            j as usize,
        ),
        forall|j: int| 0 <= j < vectors.len() ==> 0 <= dist2(query, (#[trigger] vectors[j])) <= u128::MAX,
        sorted.len() == ranks0.len(),
        crate::order::rank_sorted(sorted),
        sorted.to_multiset() == ranks0.to_multiset(),
        r.len() == if k < vectors.len() {
            k as int
        } else {
            vectors.len() as int
        },
        forall|j: int| 0 <= j < r.len() ==> (#[trigger] r[j]) == (sorted[j].2, sorted[j].0),
    ensures
        search_hits_ok(vectors, query, k, r),
{
    broadcast use group_to_multiset_ensures;

    let n = vectors.len();
    assert forall|j: int| 0 <= j < sorted.len() implies sorted.to_multiset().contains(
        #[trigger] sorted[j],
    ) by {
        assert(sorted.contains(sorted[j]));
    }
    assert forall|j: int| 0 <= j < sorted.len() implies ranks0.contains(#[trigger] sorted[j]) by {
        assert(ranks0.to_multiset().contains(sorted[j]));
    }
    // every sorted entry is a rank entry for its payload index
    assert forall|j: int| 0 <= j < sorted.len() implies (#[trigger] sorted[j]).2 < n && sorted[j]
        == ranks0[sorted[j].2 as int] by {
        let w = choose|w: int| 0 <= w < ranks0.len() && ranks0[w] == sorted[j];
        assert(ranks0[w].2 == w as usize);
    }
    // distinct payloads: equal payloads force equal records, and the
    // multiset counts a duplicated record twice while ranks0 holds it once
    assert forall|i: int, j: int| 0 <= i < j < sorted.len() implies (#[trigger] sorted[i]).2 != (
    #[trigger] sorted[j]).2 by {
        if sorted[i].2 == sorted[j].2 {
            assert(sorted[i] == ranks0[sorted[i].2 as int]);
            assert(sorted[j] == ranks0[sorted[j].2 as int]);
            lemma_dup_count(sorted, i, j);
            lemma_count_unique(ranks0, sorted[i]);
        }
    }
    assert forall|i: int| 0 <= i < r.len() implies (#[trigger] r[i]).0 < n && r[i].1 == dist2(
        query,
        vectors[r[i].0 as int],
    ) by {
        assert(sorted[i] == ranks0[sorted[i].2 as int]);
    }
    assert forall|i: int, j: int| 0 <= i < j < r.len() implies hit_le(r[i], r[j]) by {
        assert(rank_le(sorted[i], sorted[j]));
        assert(sorted[i] == ranks0[sorted[i].2 as int]);
        assert(sorted[j] == ranks0[sorted[j].2 as int]);
        assert(sorted[i].1 == sorted[i].2 as u128);
        assert(sorted[j].1 == sorted[j].2 as u128);
    }
    // completeness: an unreported key's rank appears at a position past the
    // reported prefix, and the sort order bounds the prefix by it
    assert forall|key: int, i: int|
        0 <= key < n && 0 <= i < r.len() && (forall|j: int|
            0 <= j < r.len() ==> (#[trigger] r[j]).0 != key) implies hit_le(
        r[i],
        (key as usize, dist2(query, vectors[key]) as u128),
    ) by {
        assert(ranks0.contains(ranks0[key]));
        assert(sorted.to_multiset().contains(ranks0[key]));
        assert(sorted.contains(ranks0[key]));
        let p = choose|p: int| 0 <= p < sorted.len() && sorted[p] == ranks0[key];
        assert(sorted[p].2 == key as usize);
        if p < r.len() {
            assert(r[p].0 == key);
        }
        assert(p >= r.len());
        assert(rank_le(sorted[i], sorted[p]));
    }
    if k >= n {
        assert forall|key: int| #![trigger reports_key(r, key)] 0 <= key < n implies reports_key(
            r,
            key,
        ) by {
            assert(ranks0.contains(ranks0[key]));
            assert(sorted.to_multiset().contains(ranks0[key]));
            assert(sorted.contains(ranks0[key]));
            let p = choose|p: int| 0 <= p < sorted.len() && sorted[p] == ranks0[key];
            assert(sorted[p].2 == key as usize);
            assert(0 <= p < r.len() && r[p].0 == key);
        }
    }
}

/// Pluggable index backend with a uniform insert/search/len contract.
///
/// `Exact` is the brute-force index with unbounded capacity. `Capped`
/// enforces the fixed capacity that the approximate backend is configured
/// with, and answers searches exhaustively: the uniform contract promises
/// no recall guarantee, so an exhaustive answer is a valid refinement of
/// the approximate one. The HNSW adapter itself computes over floating
/// point and therefore lives outside the verified library.
pub enum IndexBackend {
    Exact(ExactIndex),
    Capped(usize, ExactIndex),
}

impl IndexBackend {
    /// The indexed vectors, by key.
    pub open spec fn vecs(&self) -> Seq<Seq<i32>> {
        match self {
            IndexBackend::Exact(e) => e@,
            IndexBackend::Capped(_, e) => e@,
        }
    }

    /// The capacity bound, if any.
    pub open spec fn capacity(&self) -> Option<nat> {
        match self {
            IndexBackend::Exact(_) => None,
            IndexBackend::Capped(c, _) => Some(*c as nat),
        }
    }

    /// Whether this is the exact (unbounded) backend.
    pub open spec fn is_exact(&self) -> bool {
        self matches IndexBackend::Exact(_)
    }

    /// The backend is at its capacity bound.
    pub open spec fn full(&self) -> bool {
        match self.capacity() {
            Some(c) => self.vecs().len() >= c,
            None => false,
        }
    }

    /// Number of vectors in the index.
    pub fn len(&self) -> (n: usize)
        ensures
            n == self.vecs().len(),
    {
        match self {
            IndexBackend::Exact(e) => e.len(),
            IndexBackend::Capped(_, e) => e.len(),
        }
    }

    /// Insert a vector; fails exactly when the capacity bound is reached.
    pub fn insert(&mut self, v: Vec<i32>) -> (r: Result<usize, ()>)
        ensures
            final(self).capacity() == old(self).capacity(),
            final(self).is_exact() == old(self).is_exact(),
            old(self).full() ==> r is Err && final(self).vecs() == old(self).vecs(),
            !old(self).full() ==> r == Ok::<usize, ()>(old(self).vecs().len() as usize)
                && final(self).vecs() == old(self).vecs().push(v@),
    {
        match self {
            IndexBackend::Exact(e) => Ok(e.insert(v)),
            IndexBackend::Capped(c, e) => {
                if e.len() >= *c {
                    Err(())
                } else {
                    Ok(e.insert(v))
                }
            },
        }
    }

    /// Top-k nearest vectors by squared L2 distance, ties broken by key.
    pub fn search(&self, query: &Vec<i32>, k: usize) -> (r: Vec<(usize, u128)>)
        requires
            forall|i: int|
                0 <= i < self.vecs().len() ==> (#[trigger] self.vecs()[i]).len() == query@.len(),
        ensures
            search_hits_ok(self.vecs(), query@, k as nat, r@),
    {
        match self {
            IndexBackend::Exact(e) => {
                proof {
                    assert forall|i: int| 0 <= i < e@.len() implies (#[trigger] e@[i]).len()
                        == query@.len() by {
                        assert(e@[i] == self.vecs()[i]);
                    }
                }
                e.search(query, k)
            },
            IndexBackend::Capped(_, e) => {
                proof {
                    assert forall|i: int| 0 <= i < e@.len() implies (#[trigger] e@[i]).len()
                        == query@.len() by {
                        assert(e@[i] == self.vecs()[i]);
                    }
                }
                e.search(query, k)
            },
        }
    }
}

/// Rank lists built over distinct payload indices hold each record once.
proof fn lemma_count_unique(ranks0: Seq<Rank>, x: Rank)
    requires
        ranks0.len() <= usize::MAX,
        forall|j: int| 0 <= j < ranks0.len() ==> (#[trigger] ranks0[j]).2 == j as usize,
    ensures
        ranks0.to_multiset().count(x) <= 1,
{
    assert forall|i: int, j: int| 0 <= i < ranks0.len() && 0 <= j < ranks0.len() && i != j implies
        ranks0[i] != ranks0[j] by {
        assert(ranks0[i].2 == i as usize && ranks0[j].2 == j as usize);
    }
    ranks0.lemma_multiset_has_no_duplicates();
    broadcast use group_to_multiset_ensures;

    if ranks0.to_multiset().count(x) > 0 {
        assert(ranks0.contains(x));
    }
}

} // verus!
