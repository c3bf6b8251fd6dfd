use vstd::prelude::*;
use crate::episode::{Episode, EpisodeView};
use crate::error::AgentMemError;
use crate::index::{ExactIndex, IndexBackend, dist2, reports_key, search_hits_ok};
use crate::options::{QueryOptions, QueryOptionsView, episode_matches};
use crate::order::{Rank, rank_le, sort_ranks, lemma_sorted_entries};

verus! {

/// Mathematical image of a store: the dimensionality, the stored episodes
/// in insertion order, the key-to-id map (a key is a position), the index
/// contents by key, and the backend's capacity and kind.
pub struct StoreView {
    pub dim: nat,
    pub episodes: Seq<EpisodeView>,
    pub keys: Seq<u128>,
    pub vectors: Seq<Seq<i32>>,
    pub capacity: Option<nat>,
    pub exact: bool,
}

/// The store-wide invariant, asserted after every mutation: episode table,
/// key-to-id map and index are in one-to-one correspondence, every stored
/// embedding has the store's dimensionality, the index holds exactly the
/// stored embeddings, and each key maps to the id of its episode.
pub open spec fn store_inv(v: StoreView) -> bool {
    &&& v.keys.len() == v.episodes.len()
    &&& v.vectors.len() == v.episodes.len()
    &&& forall|i: int|
        0 <= i < v.episodes.len() ==> (#[trigger] v.episodes[i]).state_embedding.len() == v.dim
    &&& forall|i: int| 0 <= i < v.episodes.len() ==> v.vectors[i] == (#[trigger] v.episodes[i]).state_embedding
    &&& forall|i: int| 0 <= i < v.episodes.len() ==> v.keys[i] == (#[trigger] v.episodes[i]).id
}

/// The backend cannot take another vector.
pub open spec fn store_full(v: StoreView) -> bool {
    match v.capacity {
        Some(c) => v.episodes.len() >= c,
        None => false,
    }
}

/// A whole batch is admissible: every embedding has the store's
/// dimensionality and the capacity (if bounded) takes all of it.
pub open spec fn batch_fits(v: StoreView, eps: Seq<EpisodeView>) -> bool {
    &&& forall|j: int| 0 <= j < eps.len() ==> (#[trigger] eps[j]).state_embedding.len() == v.dim
    &&& match v.capacity {
        Some(c) => v.episodes.len() + eps.len() <= c,
        None => true,
    }
}

/// The oversampling multiplier: 4 whenever some structural filter is set
/// (so that post-filtering still finds enough survivors), else 2. Both
/// stores use this one rule.
pub open spec fn oversample_mult(o: QueryOptionsView) -> nat {
    if o.tags_any is Some || o.tags_all is Some || o.task_id_prefix is Some || o.time_after
        is Some || o.time_before is Some || o.source is Some || o.user_id is Some {
        4
    } else {
        2
    }
}

/// The oversampled candidate set takes in the whole store, so nothing is
/// lost to candidate truncation.
pub open spec fn covers(o: QueryOptionsView, n: nat) -> bool {
    o.top_k * oversample_mult(o) >= n
}

/// Recency rank: the timestamp, with absent timestamps oldest.
pub open spec fn ts_rank(e: EpisodeView) -> int {
    match e.timestamp {
        Some(t) => t as int,
        None => i64::MIN as int,
    }
}

/// Result order: distance to the query ascending, recency breaking ties.
pub open spec fn result_le(q: Seq<i32>, a: EpisodeView, b: EpisodeView) -> bool {
    ||| dist2(q, a.state_embedding) < dist2(q, b.state_embedding)
    ||| (dist2(q, a.state_embedding) == dist2(q, b.state_embedding) && ts_rank(a) >= ts_rank(b))
}

/// `res` is drawn injectively from `eps` at the positions `sel`.
pub open spec fn drawn_from(eps: Seq<EpisodeView>, res: Seq<EpisodeView>, sel: Seq<int>) -> bool {
    &&& sel.len() == res.len()
    &&& forall|i: int|
        0 <= i < sel.len() ==> 0 <= #[trigger] sel[i] < eps.len() && res[i] == eps[sel[i]]
    &&& forall|i: int, j: int| 0 <= i < j < sel.len() ==> sel[i] != sel[j]
}

/// When the candidate set covers the store, the result is complete: it only
/// falls short of `top_k` when no more episodes match, and every matching
/// episode left out ranks no better than anything returned.
pub open spec fn query_complete(
    v: StoreView,
    q: Seq<i32>,
    o: QueryOptionsView,
    res: Seq<EpisodeView>,
    sel: Seq<int>,
) -> bool {
    &&& res.len() < o.top_k ==> forall|j: int|
        0 <= j < v.episodes.len() && episode_matches(o, #[trigger] v.episodes[j]) ==> sel.contains(
            j,
        )
    &&& forall|j: int, i: int|
        #![trigger v.episodes[j], res[i]]
        0 <= j < v.episodes.len() && episode_matches(o, v.episodes[j]) && !sel.contains(j) && 0
            <= i < res.len() ==> result_le(q, res[i], v.episodes[j])
}

/// Everything a query promises of its result: at most `top_k` episodes,
/// each of them stored and accepted by the filters, listed best-first, the
/// whole drawn injectively from the store; and complete whenever the
/// oversampled candidate set covers the store.
pub open spec fn query_result_ok(
    v: StoreView,
    q: Seq<i32>,
    o: QueryOptionsView,
    res: Seq<EpisodeView>,
) -> bool {
    &&& res.len() <= o.top_k
    &&& forall|i: int| 0 <= i < res.len() ==> episode_matches(o, #[trigger] res[i])
    &&& forall|i: int, j: int| 0 <= i < j < res.len() ==> result_le(q, res[i], res[j])
    &&& exists|sel: Seq<int>|
        #[trigger] drawn_from(v.episodes, res, sel) && (covers(o, v.episodes.len())
            ==> query_complete(v, q, o, res, sel))
}

/// The filter bundle that `query_similar` uses: a reward floor and a
/// result budget, nothing else.
pub open spec fn simple_options(min_reward: i64, top_k: nat) -> QueryOptionsView {
    QueryOptionsView {
        min_reward,
        top_k,
        tags_any: None,
        tags_all: None,
        task_id_prefix: None,
        time_after: None,
        time_before: None,
        source: None,
        user_id: None,
    }
}

/// Recency as a descending sort component: smaller means more recent.
pub open spec fn desc_of(t: int) -> int {
    i64::MAX - t
}

/// Descending sort component of an episode's recency rank.
fn ts_desc_key(ts: &Option<i64>) -> (r: u128)
    ensures
        r == desc_of(
            match *ts {
                Some(t) => t as int,
                None => i64::MIN as int,
            },
        ),
{
    let t: i64 = match ts {
        Some(t) => *t,
        None => i64::MIN,
    };
    let d: i128 = i64::MAX as i128 - t as i128;
    d as u128
}

/// Capacity of the rebuilt bounded backend after pruning: the largest of
/// the surviving count, the default capacity, and twice the
/// dimensionality, clamped to the machine word.
pub open spec fn rebuild_cap(kept: nat, dim: nat) -> nat {
    let want: nat = if kept >= 20000 && kept >= 2 * dim {
        kept
    } else if 20000 >= 2 * dim {
        20000
    } else {
        2 * dim
    };
    if want > usize::MAX {
        usize::MAX as nat
    } else {
        want
    }
}

/// The episode survives `prune_older_than(cutoff)`: its timestamp is
/// absent or at least the cutoff.
pub open spec fn keeps_after(e: EpisodeView, cutoff: i64) -> bool {
    match e.timestamp {
        Some(t) => t >= cutoff,
        None => true,
    }
}

/// Order by recency: more recent first, absent timestamps oldest.
pub open spec fn newest_first(a: EpisodeView, b: EpisodeView) -> bool {
    ts_rank(a) >= ts_rank(b)
}

/// Order by reward, recency breaking ties.
pub open spec fn highest_reward_first(a: EpisodeView, b: EpisodeView) -> bool {
    a.reward > b.reward || (a.reward == b.reward && ts_rank(a) >= ts_rank(b))
}

/// `res` is what a ranking prune keeps from `eps`: listed best-first by
/// `le`, drawn injectively from `eps`, and nothing kept ranks below
/// anything dropped.
pub open spec fn pruned_to(
    eps: Seq<EpisodeView>,
    res: Seq<EpisodeView>,
    le: spec_fn(EpisodeView, EpisodeView) -> bool,
) -> bool {
    &&& forall|i: int, j: int| 0 <= i < j < res.len() ==> le(res[i], res[j])
    &&& exists|sel: Seq<int>|
        #[trigger] drawn_from(eps, res, sel) && forall|j: int, i: int|
            #![trigger eps[j], res[i]]
            0 <= j < eps.len() && !sel.contains(j) && 0 <= i < res.len() ==> le(res[i], eps[j])
}

/// A rank comparison carries over to the episodes it encodes.
proof fn lemma_rank_to_result(q: Seq<i32>, a: EpisodeView, b: EpisodeView, ra: Rank, rb: Rank)
    requires
        ra.0 == dist2(q, a.state_embedding),
        rb.0 == dist2(q, b.state_embedding),
        ra.1 == desc_of(ts_rank(a)) as u128,
        rb.1 == desc_of(ts_rank(b)) as u128,
        rank_le(ra, rb),
    ensures
        result_le(q, a, b),
{
    assert(i64::MIN <= ts_rank(a) <= i64::MAX);
    assert(i64::MIN <= ts_rank(b) <= i64::MAX);
    assert(0 <= desc_of(ts_rank(a)) <= u128::MAX);
    assert(0 <= desc_of(ts_rank(b)) <= u128::MAX);
}

/// A sorted selection from a ranked episode list is a correct prune
/// result: ordered by `le`, drawn injectively, dominating what it drops.
proof fn lemma_select_sorted(
    eps: Seq<EpisodeView>,
    k1: spec_fn(EpisodeView) -> u128,
    k2: spec_fn(EpisodeView) -> u128,
    le: spec_fn(EpisodeView, EpisodeView) -> bool,
    ranks0: Seq<Rank>,
    sorted: Seq<Rank>,
    res: Seq<EpisodeView>,
)
    requires
        eps.len() <= usize::MAX,
        ranks0.len() == eps.len(),
        forall|j: int|
            0 <= j < ranks0.len() ==> (#[trigger] ranks0[j]) == (
            k1(eps[j]),
            k2(eps[j]),
            j as usize,
        ),
        forall|x: EpisodeView, y: EpisodeView|
            (k1(x) < k1(y) || (k1(x) == k1(y) && k2(x) <= k2(y))) ==> #[trigger] le(x, y),
        crate::order::rank_sorted(sorted),
        sorted.to_multiset() == ranks0.to_multiset(),
        res.len() <= eps.len(),
        forall|j: int| 0 <= j < res.len() ==> (#[trigger] res[j]) == eps[sorted[j].2 as int],
    ensures
        pruned_to(eps, res, le),
{
    lemma_sorted_entries(ranks0, sorted);
    assert forall|i: int, j: int| 0 <= i < j < res.len() implies le(res[i], res[j]) by {
        let pi = sorted[i].2 as int;
        let pj = sorted[j].2 as int;
        assert(sorted[i] == ranks0[pi] && sorted[j] == ranks0[pj]);
        assert(rank_le(sorted[i], sorted[j]));
        assert(k1(eps[pi]) < k1(eps[pj]) || (k1(eps[pi]) == k1(eps[pj]) && k2(eps[pi]) <= k2(
        eps[pj])));
    }
    let sel = Seq::new(res.len() as nat, |i: int| sorted[i].2 as int);
    assert(drawn_from(eps, res, sel)) by {
        assert forall|i: int, j: int| 0 <= i < j < sel.len() implies sel[i] != sel[j] by {
            assert(sorted[i].2 != sorted[j].2);
        }
    }
    assert forall|j: int, i: int|
        #![trigger eps[j], res[i]]
        0 <= j < eps.len() && !sel.contains(j) && 0 <= i < res.len() implies le(
        res[i],
        eps[j],
    ) by {
        assert(sorted.contains(ranks0[j]));
        let pp = choose|pp: int| 0 <= pp < sorted.len() && sorted[pp] == ranks0[j];
        assert(sorted[pp].2 == j as usize);
        if pp < res.len() {
            assert(sel[pp] == j);
            assert(false);
        }
        let pi = sorted[i].2 as int;
        assert(sorted[i] == ranks0[pi]);
        assert(rank_le(sorted[i], sorted[pp]));
        assert(k1(eps[pi]) < k1(eps[j]) || (k1(eps[pi]) == k1(eps[j]) && k2(eps[pi]) <= k2(
        eps[j])));
    }
    assert(drawn_from(eps, res, sel) && forall|j: int, i: int|
        #![trigger eps[j], res[i]]
        0 <= j < eps.len() && !sel.contains(j) && 0 <= i < res.len() ==> le(res[i], eps[j]));
}

/// The whole query pipeline, read off the ghost state it leaves behind:
/// hits from the index, the filtered candidate list, its sorted
/// permutation, and the reported prefix make a correct query result.
proof fn lemma_query_pipeline(
    v: StoreView,
    q: Seq<i32>,
    o: QueryOptionsView,
    k: nat,
    hs: Seq<(usize, u128)>,
    ranks0: Seq<Rank>,
    sorted: Seq<Rank>,
    ck: Seq<usize>,
    gm: Seq<int>,
    res: Seq<EpisodeView>,
)
    requires
        store_inv(v),
        search_hits_ok(v.vectors, q, k, hs),
        covers(o, v.episodes.len()) ==> k >= v.episodes.len(),
        ck.len() == ranks0.len(),
        ck.len() <= usize::MAX,
        gm.len() == ck.len(),
        forall|j: int, j2: int| 0 <= j < j2 < gm.len() ==> gm[j] < gm[j2],
        forall|j: int| 0 <= j < gm.len() ==> 0 <= #[trigger] gm[j] < hs.len(),
        forall|j: int|
            0 <= j < gm.len() ==> (#[trigger] ck[j]) == hs[gm[j]].0 && ck[j] < v.episodes.len(),
        forall|j: int|
            0 <= j < gm.len() ==> (#[trigger] ranks0[j]) == (
            hs[gm[j]].1,
            desc_of(ts_rank(v.episodes[ck[j] as int])) as u128,
            j as usize,
        ),
        forall|j: int| 0 <= j < gm.len() ==> episode_matches(o, #[trigger] v.episodes[ck[j] as int]),
        forall|p: int|
            0 <= p < hs.len() && episode_matches(o, #[trigger] v.episodes[hs[p].0 as int])
                ==> gm.contains(p),
        crate::order::rank_sorted(sorted),
        sorted.to_multiset() == ranks0.to_multiset(),
        res.len() == if o.top_k < ck.len() {
            o.top_k as int
        } else {
            ck.len() as int
        },
        forall|j: int|
            0 <= j < res.len() ==> (#[trigger] res[j]) == v.episodes[ck[sorted[j].2 as int] as int],
    ensures
        query_result_ok(v, q, o, res),
{
    let eps = v.episodes;
    let n = eps.len();
    lemma_sorted_entries(ranks0, sorted);
    // each hit's distance is the distance to its episode's embedding
    assert forall|j: int| 0 <= j < gm.len() implies (#[trigger] ranks0[j]).0 == dist2(
        q,
        eps[ck[j] as int].state_embedding,
    ) by {
        assert(hs[gm[j]].0 < v.vectors.len() && hs[gm[j]].1 == dist2(
            q,
            v.vectors[hs[gm[j]].0 as int],
        ));
        assert(v.vectors[ck[j] as int] == eps[ck[j] as int].state_embedding);
    }
    // ordering of the reported prefix
    assert forall|i: int, j: int| 0 <= i < j < res.len() implies result_le(q, res[i], res[j]) by {
        let pi = sorted[i].2 as int;
        let pj = sorted[j].2 as int;
        assert(sorted[i] == ranks0[pi] && sorted[j] == ranks0[pj]);
        assert(rank_le(sorted[i], sorted[j]));
        lemma_rank_to_result(q, eps[ck[pi] as int], eps[ck[pj] as int], sorted[i], sorted[j]);
    }
    // candidate keys are pairwise distinct
    assert forall|a: int, b: int| 0 <= a < b < ck.len() implies (#[trigger] ck[a]) != (
    #[trigger] ck[b]) by {
        assert(gm[a] < gm[b]);
        assert(hs[gm[a]].0 != hs[gm[b]].0);
    }
    let sel = Seq::new(res.len() as nat, |i: int| ck[sorted[i].2 as int] as int);
    assert(drawn_from(eps, res, sel)) by {
        assert forall|i: int, j: int| 0 <= i < j < sel.len() implies sel[i] != sel[j] by {
            assert(sorted[i].2 != sorted[j].2);
        }
    }
    if covers(o, n) {
        assert(k >= n);
        // every matching episode is a candidate, locatable in the sorted list
        assert forall|j: int|
            0 <= j < n && episode_matches(o, #[trigger] eps[j]) && !sel.contains(j) implies (
        forall|i: int| 0 <= i < res.len() ==> result_le(q, #[trigger] res[i], eps[j])) by {
            assert(reports_key(hs, j));
            let p = choose|p: int| 0 <= p < hs.len() && (#[trigger] hs[p]).0 == j;
            assert(episode_matches(o, eps[hs[p].0 as int]));
            assert(gm.contains(p));
            let cj = choose|cj: int| 0 <= cj < gm.len() && gm[cj] == p;
            assert(ck[cj] == j);
            assert(sorted.contains(ranks0[cj]));
            let pp = choose|pp: int| 0 <= pp < sorted.len() && sorted[pp] == ranks0[cj];
            assert(sorted[pp].2 == cj as usize);
            if pp < res.len() {
                assert(sel[pp] == j);
                assert(false);
            }
            assert forall|i: int| 0 <= i < res.len() implies result_le(
                q,
                #[trigger] res[i],
                eps[j],
            ) by {
                let pi = sorted[i].2 as int;
                assert(sorted[i] == ranks0[pi]);
                assert(rank_le(sorted[i], sorted[pp]));
                lemma_rank_to_result(q, eps[ck[pi] as int], eps[j], sorted[i], sorted[pp]);
            }
        }
        if res.len() < o.top_k {
            assert(res.len() == ck.len());
            assert forall|j: int|
                0 <= j < n && episode_matches(o, #[trigger] eps[j]) implies sel.contains(j) by {
                assert(reports_key(hs, j));
                let p = choose|p: int| 0 <= p < hs.len() && (#[trigger] hs[p]).0 == j;
                assert(episode_matches(o, eps[hs[p].0 as int]));
                assert(gm.contains(p));
                let cj = choose|cj: int| 0 <= cj < gm.len() && gm[cj] == p;
                assert(ck[cj] == j);
                assert(sorted.contains(ranks0[cj]));
                let pp = choose|pp: int| 0 <= pp < sorted.len() && sorted[pp] == ranks0[cj];
                assert(sorted[pp].2 == cj as usize);
                assert(sel[pp] == j);
            }
        }
        assert(query_complete(v, q, o, res, sel));
    }
    assert(drawn_from(eps, res, sel) && (covers(o, eps.len()) ==> query_complete(v, q, o, res, sel)));
}

/// The episode table, key-to-id map and index of a well-formed store are
/// in one-to-one correspondence: after storing a batch, all three hold
/// exactly as many entries as episodes were stored.
pub proof fn lemma_store_correspondence(v: StoreView)
    requires
        store_inv(v),
    ensures
        v.keys.len() == v.episodes.len(),
        v.vectors.len() == v.episodes.len(),
        forall|i: int| 0 <= i < v.episodes.len() ==> v.keys[i] == (#[trigger] v.episodes[i]).id,
{
}

/// Saving is a function of the episode sequence and dimensionality
/// alone: a store reloaded from a save document, which `from_json`
/// guarantees holds the same episodes in the same order, serializes to
/// byte-identical text.
pub proof fn lemma_save_load_save(a: StoreView, b: StoreView)
    requires
        a.dim == b.dim,
        a.episodes == b.episodes,
    ensures
        crate::codec::enc_db(a.dim, a.episodes) == crate::codec::enc_db(b.dim, b.episodes),
{
}

/// Ranking prunes are idempotent: one application leaves at most `n`
/// episodes behind, and the prune contracts make any application on a
/// store of at most `n` episodes the identity, returning 0. So a second
/// application with the same bound changes nothing.
pub proof fn lemma_prune_bound_reached(before: StoreView, after_once: StoreView, n: nat)
    requires
        before.episodes.len() <= n ==> after_once.episodes == before.episodes,
        before.episodes.len() > n ==> after_once.episodes.len() == n,
    ensures
        after_once.episodes.len() <= n || after_once.episodes == before.episodes,
        before.episodes.len() > n ==> after_once.episodes.len() <= n,
{
}

/// The query contract constrains results through the episode sequence
/// alone. Together with `from_json`, which restores the episode sequence
/// exactly, a store reloaded from its save document admits exactly the
/// query results the original admitted.
pub proof fn lemma_reload_preserves_query_results(
    a: StoreView,
    b: StoreView,
    q: Seq<i32>,
    o: QueryOptionsView,
    res: Seq<EpisodeView>,
)
    requires
        a.episodes == b.episodes,
    ensures
        query_result_ok(a, q, o, res) == query_result_ok(b, q, o, res),
{
    assert(query_result_ok(a, q, o, res) ==> query_result_ok(b, q, o, res)) by {
        if query_result_ok(a, q, o, res) {
            let sel = choose|sel: Seq<int>|
                #[trigger] drawn_from(a.episodes, res, sel) && (covers(o, a.episodes.len())
                    ==> query_complete(a, q, o, res, sel));
            assert(drawn_from(b.episodes, res, sel));
            if covers(o, b.episodes.len()) {
                assert(query_complete(b, q, o, res, sel));
            }
        }
    }
    assert(query_result_ok(b, q, o, res) ==> query_result_ok(a, q, o, res)) by {
        if query_result_ok(b, q, o, res) {
            let sel = choose|sel: Seq<int>|
                #[trigger] drawn_from(b.episodes, res, sel) && (covers(o, b.episodes.len())
                    ==> query_complete(b, q, o, res, sel));
            assert(drawn_from(a.episodes, res, sel));
            if covers(o, a.episodes.len()) {
                assert(query_complete(a, q, o, res, sel));
            }
        }
    }
}

/// In-memory agent memory database.
///
/// Episodes are kept in insertion order; the vector index assigns dense
/// keys equal to positions, and the key-to-id map records the episode id
/// for each key. Construction chooses the backend: `new` and
/// `new_with_max_elements` take the capacity-bounded backend, `new_exact`
/// the unbounded exact one.
pub struct AgentMemDB {
    dim: usize,
    episodes: Vec<Episode>,
    index: IndexBackend,
    key_to_id: Vec<u128>,
}

impl View for AgentMemDB {
    type V = StoreView;

    closed spec fn view(&self) -> StoreView {
        StoreView {
            dim: self.dim as nat,
            episodes: self.episodes.deep_view(),
            keys: self.key_to_id@,
            vectors: self.index.vecs(),
            capacity: self.index.capacity(),
            exact: self.index.is_exact(),
        }
    }
}

impl AgentMemDB {
    /// New empty store with the capacity-bounded backend at the default
    /// capacity of 20 000 elements.
    pub fn new(dim: usize) -> (db: Self)
        ensures
            store_inv(db@),
            db@.dim == dim,
            db@.episodes == Seq::<EpisodeView>::empty(),
            db@.keys == Seq::<u128>::empty(),
            db@.vectors == Seq::<Seq<i32>>::empty(),
            db@.capacity == Some(20000nat),
            !db@.exact,
    {
        Self::new_with_max_elements(dim, 20000)
    }

    /// New empty store with the capacity-bounded backend at a custom
    /// capacity (for scale workloads).
    pub fn new_with_max_elements(dim: usize, max_elements: usize) -> (db: Self)
        ensures
            store_inv(db@),
            db@.dim == dim,
            db@.episodes == Seq::<EpisodeView>::empty(),
            db@.keys == Seq::<u128>::empty(),
            db@.vectors == Seq::<Seq<i32>>::empty(),
            db@.capacity == Some(max_elements as nat),
            !db@.exact,
    {
        let db = AgentMemDB {
            dim,
            episodes: Vec::new(),
            index: IndexBackend::Capped(max_elements, ExactIndex::new()),
            key_to_id: Vec::new(),
        };
        proof {
            assert(db@.episodes =~= Seq::<EpisodeView>::empty());
            assert(db@.keys =~= Seq::<u128>::empty());
        }
        db
    }

    /// New empty store with the exact (brute-force) backend. Use for small
    /// episode sets or when determinism is critical. O(n) per query.
    pub fn new_exact(dim: usize) -> (db: Self)
        ensures
            store_inv(db@),
            db@.dim == dim,
            db@.episodes == Seq::<EpisodeView>::empty(),
            db@.keys == Seq::<u128>::empty(),
            db@.vectors == Seq::<Seq<i32>>::empty(),
            db@.capacity is None,
            db@.exact,
    {
        let db = AgentMemDB {
            dim,
            episodes: Vec::new(),
            index: IndexBackend::Exact(ExactIndex::new()),
            key_to_id: Vec::new(),
        };
        proof {
            assert(db@.episodes =~= Seq::<EpisodeView>::empty());
            assert(db@.keys =~= Seq::<u128>::empty());
        }
        db
    }

    /// The embedding dimensionality.
    pub fn dim(&self) -> (d: usize)
        ensures
            d == self@.dim,
    {
        self.dim
    }

    /// Store an episode and index its embedding.
    ///
    /// Fails with `DimensionMismatch` when the embedding's length differs
    /// from the store's dimensionality, and with `HnswError` when the
    /// bounded backend is at capacity; either failure leaves the store
    /// untouched.
    pub fn store_episode(&mut self, episode: Episode) -> (r: Result<(), AgentMemError>)
        requires
            store_inv(old(self)@),
        ensures
            store_inv(final(self)@),
            final(self)@.dim == old(self)@.dim,
            final(self)@.capacity == old(self)@.capacity,
            final(self)@.exact == old(self)@.exact,
            episode@.state_embedding.len() != old(self)@.dim
                ==> (r matches Err(AgentMemError::DimensionMismatch { expected, got })
                    && expected == old(self)@.dim
                    && got == episode@.state_embedding.len())
                    && final(self)@ == old(self)@,
            episode@.state_embedding.len() == old(self)@.dim && store_full(old(self)@)
                ==> (r matches Err(AgentMemError::HnswError(_))) && final(self)@ == old(self)@,
            episode@.state_embedding.len() == old(self)@.dim && !store_full(old(self)@)
                ==> r is Ok
                    && final(self)@.episodes == old(self)@.episodes.push(episode@)
                    && final(self)@.keys == old(self)@.keys.push(episode@.id)
                    && final(self)@.vectors == old(self)@.vectors.push(episode@.state_embedding),
    {
        if episode.state_embedding.len() != self.dim {
            return Err(
                AgentMemError::DimensionMismatch {
                    expected: self.dim,
                    got: episode.state_embedding.len(),
                },
            );
        }
        let id = episode.id;
        let emb = crate::episode::clone_i32_vec(&episode.state_embedding);
        match self.index.insert(emb) {
            Err(()) => {
                proof {
                    assert(self@ == old(self)@);
                }
                Err(AgentMemError::HnswError("index at capacity".to_owned()))
            },
            Ok(_key) => {
                self.key_to_id.push(id);
                self.episodes.push(episode);
                proof {
                    assert(self@.episodes =~= old(self)@.episodes.push(episode@));
                }
                Ok(())
            },
        }
    }

    /// Query for the `top_k` episodes most similar to the given embedding,
    /// keeping only those whose reward reaches `min_reward`.
    pub fn query_similar(&self, query_embedding: &Vec<i32>, min_reward: i64, top_k: usize) -> (r:
        Result<Vec<Episode>, AgentMemError>)
        requires
            store_inv(self@),
        ensures
            query_embedding@.len() != self@.dim ==> (r matches Err(
                AgentMemError::DimensionMismatch { expected, got },
            ) && expected == self@.dim && got == query_embedding@.len()),
            query_embedding@.len() == self@.dim ==> (r matches Ok(res) && query_result_ok(
                self@,
                query_embedding@,
                simple_options(min_reward, top_k as nat),
                res.deep_view(),
            )),
    {
        self.query_similar_with_options(query_embedding, QueryOptions::new(min_reward, top_k))
    }

    /// Query for similar episodes for a batch of queries; one result list
    /// per query, each as `query_similar` returns it.
    pub fn query_similar_batch(
        &self,
        queries: &Vec<Vec<i32>>,
        min_reward: i64,
        top_k: usize,
    ) -> (r: Result<Vec<Vec<Episode>>, AgentMemError>)
        requires
            store_inv(self@),
        ensures
            r matches Ok(res) ==> res@.len() == queries@.len() && (forall|i: int|
                0 <= i < queries@.len() ==> (#[trigger] queries.deep_view()[i]).len()
                    == self@.dim) && forall|i: int|
                0 <= i < res@.len() ==> query_result_ok(
                    self@,
                    queries.deep_view()[i],
                    simple_options(min_reward, top_k as nat),
                    (#[trigger] res@[i]).deep_view(),
                ),
            r is Err ==> exists|i: int|
                0 <= i < queries@.len() && (#[trigger] queries.deep_view()[i]).len() != self@.dim,
            (forall|i: int|
                0 <= i < queries@.len() ==> (#[trigger] queries.deep_view()[i]).len()
                    == self@.dim) ==> r is Ok,
    {
        let mut results: Vec<Vec<Episode>> = Vec::new();
        let mut i: usize = 0;
        let n = queries.len();
        while i < n
            invariant
                store_inv(self@),
                i <= n,
                n == queries@.len(),
                results@.len() == i,
                forall|j: int|
                    0 <= j < i ==> (#[trigger] queries.deep_view()[j]).len() == self@.dim,
                forall|j: int|
                    0 <= j < i ==> query_result_ok(
                        self@,
                        queries.deep_view()[j],
                        simple_options(min_reward, top_k as nat),
                        (#[trigger] results@[j]).deep_view(),
                    ),
            decreases n - i,
        {
            proof {
                assert(queries.deep_view()[i as int] == queries@[i as int]@);
            }
            match self.query_similar(&queries[i], min_reward, top_k) {
                Ok(res) => {
                    proof {
                        assert(queries.deep_view()[i as int].len() == self@.dim);
                        assert(query_result_ok(
                            self@,
                            queries.deep_view()[i as int],
                            simple_options(min_reward, top_k as nat),
                            res.deep_view(),
                        ));
                    }
                    results.push(res);
                },
                Err(e) => {
                    proof {
                        assert(queries.deep_view()[i as int].len() != self@.dim);
                    }
                    return Err(e);
                },
            }
            i = i + 1;
        }
        Ok(results)
    }

    /// Query with full filter options.
    ///
    /// The index is asked for `top_k` times the oversampling multiplier
    /// candidates; the keys come back resolved to episodes, the filters are
    /// applied, survivors are ordered by distance with recency breaking
    /// ties, and the first `top_k` are returned. The result can fall short
    /// of `top_k` even when enough episodes match, because the candidate
    /// set may be exhausted by the filters; whenever the candidate set
    /// covers the whole store the result is complete.
    pub fn query_similar_with_options(&self, query_embedding: &Vec<i32>, opts: QueryOptions) -> (r:
        Result<Vec<Episode>, AgentMemError>)
        requires
            store_inv(self@),
        ensures
            query_embedding@.len() != self@.dim ==> (r matches Err(
                AgentMemError::DimensionMismatch { expected, got },
            ) && expected == self@.dim && got == query_embedding@.len()),
            query_embedding@.len() == self@.dim ==> (r matches Ok(res) && query_result_ok(
                self@,
                query_embedding@,
                opts@,
                res.deep_view(),
            )),
    {
        let ghost v = self@;
        let ghost q = query_embedding@;
        let ghost o = opts@;
        if query_embedding.len() != self.dim {
            return Err(
                AgentMemError::DimensionMismatch {
                    expected: self.dim,
                    got: query_embedding.len(),
                },
            );
        }
        let structural = opts.tags_any.is_some() || opts.tags_all.is_some()
            || opts.task_id_prefix.is_some() || opts.time_after.is_some()
            || opts.time_before.is_some() || opts.source.is_some() || opts.user_id.is_some();
        proof {
            assert(oversample_mult(o) == if structural { 4nat } else { 2nat });
        }
        let k: usize = if structural {
            if opts.top_k > usize::MAX / 4 {
                usize::MAX
            } else {
                opts.top_k * 4
            }
        } else {
            if opts.top_k > usize::MAX / 2 {
                usize::MAX
            } else {
                opts.top_k * 2
            }
        };
        let n = self.episodes.len();
        proof {
            assert(v.episodes.len() == self.episodes@.len());
            assert(covers(o, v.episodes.len()) ==> k as nat >= v.episodes.len());
            assert forall|i: int| 0 <= i < v.vectors.len() implies (#[trigger] v.vectors[i]).len()
                == q.len() by {
                assert(v.vectors[i] == v.episodes[i].state_embedding);
            }
        }
        let hits = self.index.search(query_embedding, k);
        let ghost hs = hits@;
        // resolve keys to episodes and filter
        let mut cand_keys: Vec<usize> = Vec::new();
        let mut ranks: Vec<Rank> = Vec::new();
        let ghost mut gm: Seq<int> = Seq::empty();
        let mut h: usize = 0;
        let hn = hits.len();
        while h < hn
            invariant
                store_inv(v),
                v == self@,
                q == query_embedding@,
                o == opts@,
                hn == hs.len(),
                h <= hn,
                hs == hits@,
                search_hits_ok(v.vectors, q, k as nat, hs),
                cand_keys@.len() == ranks@.len(),
                gm.len() == cand_keys@.len(),
                forall|j: int, j2: int| 0 <= j < j2 < gm.len() ==> gm[j] < gm[j2],
                forall|j: int| 0 <= j < gm.len() ==> 0 <= #[trigger] gm[j] < h,
                forall|j: int|
                    0 <= j < gm.len() ==> (#[trigger] cand_keys@[j]) == hs[gm[j]].0
                        && cand_keys@[j] < v.episodes.len(),
                forall|j: int|
                    0 <= j < gm.len() ==> (#[trigger] ranks@[j]) == (
                    hs[gm[j]].1,
                    desc_of(ts_rank(v.episodes[cand_keys@[j] as int])) as u128,
                    j as usize,
                ),
                forall|j: int|
                    0 <= j < gm.len() ==> episode_matches(
                        o,
                        #[trigger] v.episodes[cand_keys@[j] as int],
                    ),
                forall|p: int|
                    0 <= p < h && episode_matches(o, #[trigger] v.episodes[hs[p].0 as int])
                        ==> gm.contains(p),
            decreases hn - h,
        {
            let hit = hits[h];
            let key = hit.0;
            let d = hit.1;
            proof {
                assert(hs[h as int].0 < v.vectors.len());
                assert(self.episodes.deep_view()[key as int] == self.episodes@[key as int]@);
            }
            let ep = &self.episodes[key];
            if opts.matches(ep) {
                let tsd = ts_desc_key(&ep.timestamp);
                let c = cand_keys.len();
                ranks.push((d, tsd, c));
                cand_keys.push(key);
                proof {
                    let gm0 = gm;
                    gm = gm.push(h as int);
                    assert forall|p: int|
                        0 <= p < h + 1 && episode_matches(
                            o,
                            #[trigger] v.episodes[hs[p].0 as int],
                        ) implies gm.contains(p) by {
                        if p < h {
                            assert(gm0.contains(p));
                            let w = choose|w: int| 0 <= w < gm0.len() && gm0[w] == p;
                            assert(gm[w] == p);
                        } else {
                            assert(gm[gm.len() - 1] == p);
                        }
                    }
                }
            } else {
                proof {
                    assert(!episode_matches(o, v.episodes[hs[h as int].0 as int]));
                }
            }
            h = h + 1;
        }
        let ghost ranks0 = ranks@;
        let sorted = sort_ranks(ranks);
        proof {
            assert(cand_keys.len() == cand_keys@.len());
            lemma_sorted_entries(ranks0, sorted@);
        }
        let c = cand_keys.len();
        let take = if opts.top_k < c {
            opts.top_k
        } else {
            c
        };
        let mut out: Vec<Episode> = Vec::new();
        let mut i2: usize = 0;
        while i2 < take
            invariant
                store_inv(v),
                v == self@,
                take <= c,
                c == cand_keys@.len(),
                c == sorted@.len(),
                i2 <= take,
                out@.len() == i2,
                forall|j: int|
                    0 <= j < sorted@.len() ==> (#[trigger] sorted@[j]).2 < c && sorted@[j]
                        == ranks0[sorted@[j].2 as int],
                forall|j: int|
                    0 <= j < gm.len() ==> (#[trigger] cand_keys@[j]) < v.episodes.len(),
                gm.len() == c,
                forall|j: int|
                    0 <= j < i2 ==> (#[trigger] out@[j])@ == v.episodes[cand_keys@[sorted@[j].2 as int] as int],
            decreases take - i2,
        {
            let ci = sorted[i2].2;
            let key2 = cand_keys[ci];
            proof {
                assert(self.episodes.deep_view()[key2 as int] == self.episodes@[key2 as int]@);
            }
            out.push(self.episodes[key2].clone());
            proof {
                assert((out@[i2 as int])@ == v.episodes[cand_keys@[sorted@[i2 as int].2 as int] as int]);
            }
            i2 = i2 + 1;
        }
        proof {
            assert forall|j: int| 0 <= j < out@.len() implies (#[trigger] out.deep_view()[j])
                == v.episodes[cand_keys@[sorted@[j].2 as int] as int] by {
                assert(out.deep_view()[j] == out@[j]@);
            }
            lemma_query_pipeline(v, q, o, k as nat, hs, ranks0, sorted@, cand_keys@, gm, out.deep_view());
        }
        Ok(out)
    }

    /// Store a batch of episodes, failing fast on the first rejected one
    /// and leaving the previously inserted episodes present.
    pub fn store_episodes(&mut self, episodes: Vec<Episode>) -> (r: Result<(), AgentMemError>)
        requires
            store_inv(old(self)@),
        ensures
            store_inv(final(self)@),
            final(self)@.dim == old(self)@.dim,
            final(self)@.capacity == old(self)@.capacity,
            final(self)@.exact == old(self)@.exact,
            batch_fits(old(self)@, episodes.deep_view()) ==> r is Ok,
            r is Ok ==> final(self)@.episodes == old(self)@.episodes + episodes.deep_view(),
            r is Err ==> exists|m: int|
                0 <= m < episodes.deep_view().len() && final(self)@.episodes == old(
                    self,
                )@.episodes + episodes.deep_view().take(m),
    {
        let ghost eps0 = episodes.deep_view();
        let ghost orig = old(self)@.episodes;
        let ghost fits = batch_fits(old(self)@, eps0);
        let mut i: usize = 0;
        let n = episodes.len();
        proof {
            assert(self@.episodes =~= orig + eps0.take(0));
        }
        while i < n
            invariant
                store_inv(self@),
                self@.dim == old(self)@.dim,
                self@.capacity == old(self)@.capacity,
                self@.exact == old(self)@.exact,
                orig == old(self)@.episodes,
                fits == batch_fits(old(self)@, eps0),
                i <= n,
                n == eps0.len(),
                episodes.deep_view() == eps0,
                episodes@.len() == n,
                self@.episodes == orig + eps0.take(i as int),
            decreases n - i,
        {
            let ep = episodes[i].clone();
            proof {
                assert(episodes.deep_view()[i as int] == episodes@[i as int]@);
                assert(ep@ == eps0[i as int]);
                if fits {
                    assert(eps0.take(i as int).len() == i as int);
                    assert(self@.episodes.len() == orig.len() + i);
                    assert(!store_full(self@));
                }
            }
            let ghost pre = self@;
            let res = self.store_episode(ep);
            if let Err(e) = res {
                proof {
                    if fits {
                        assert(eps0[i as int].state_embedding.len() == pre.dim);
                        assert(false);
                    }
                    let m = i as int;
                    assert(0 <= m < eps0.len() && self@.episodes == orig + eps0.take(m));
                }
                return Err(e);
            }
            proof {
                assert(orig + eps0.take(i as int) + seq![eps0[i as int]] =~= orig + eps0.take(
                    i as int + 1,
                ));
                assert(self@.episodes =~= orig + eps0.take(i as int + 1));
            }
            i = i + 1;
        }
        proof {
            assert(eps0.take(n as int) =~= eps0);
        }
        Ok(())
    }

    /// Number of stored episodes.
    pub fn len(&self) -> (n: usize)
        ensures
            n == self@.episodes.len(),
    {
        proof {
            assert(self.episodes.deep_view().len() == self.episodes@.len());
        }
        self.episodes.len()
    }

    /// Whether the backend is the exact (unbounded) one.
    pub fn is_exact(&self) -> (b: bool)
        ensures
            b == self@.exact,
    {
        match &self.index {
            IndexBackend::Exact(_) => true,
            IndexBackend::Capped(_, _) => false,
        }
    }

    /// Whether the backend is at its capacity bound.
    pub fn is_full(&self) -> (b: bool)
        requires
            store_inv(self@),
        ensures
            b == store_full(self@),
    {
        match &self.index {
            IndexBackend::Exact(_) => false,
            IndexBackend::Capped(c, e) => e.len() >= *c,
        }
    }

    /// The episodes as a checkpoint snapshot document, in key order
    /// (keys are dense, so key order is insertion order).
    pub fn snapshot_json(&self) -> (s: String)
        requires
            store_inv(self@),
        ensures
            s@ == crate::codec::enc_checkpoint(self@.episodes),
    {
        proof {
            assert(self.episodes.deep_view() == self@.episodes);
        }
        let chars = crate::codec::encode_checkpoint(&self.episodes);
        crate::codec::string_from_chars(&chars)
    }

    /// One canonical log line per episode, in insertion order.
    pub fn log_lines(&self) -> (lines: Vec<String>)
        requires
            store_inv(self@),
        ensures
            lines.deep_view().len() == self@.episodes.len(),
            forall|k: int|
                0 <= k < self@.episodes.len() ==> #[trigger] lines.deep_view()[k]
                    == crate::codec::enc_episode(self@.episodes[k]),
    {
        let mut lines: Vec<String> = Vec::new();
        let n = self.episodes.len();
        let mut i: usize = 0;
        while i < n
            invariant
                store_inv(self@),
                n == self@.episodes.len(),
                n == self.episodes@.len(),
                i <= n,
                lines@.len() == i,
                forall|k: int|
                    0 <= k < i ==> #[trigger] lines@[k]@ == crate::codec::enc_episode(
                        self@.episodes[k],
                    ),
            decreases n - i,
        {
            proof {
                assert(self.episodes.deep_view()[i as int] == self.episodes@[i as int]@);
            }
            lines.push(crate::codec::episode_to_line(&self.episodes[i]));
            i = i + 1;
        }
        proof {
            assert forall|k: int| 0 <= k < self@.episodes.len() implies #[trigger] lines.deep_view()[k]
                == crate::codec::enc_episode(self@.episodes[k]) by {
                assert(lines.deep_view()[k] == lines@[k]@);
            }
        }
        lines
    }

    /// Serialize the whole store as its JSON save document. Two stores
    /// holding the same episodes in the same order at the same
    /// dimensionality serialize to the same bytes.
    pub fn to_json(&self) -> (s: String)
        requires
            store_inv(self@),
        ensures
            s@ == crate::codec::enc_db(self@.dim, self@.episodes),
    {
        proof {
            assert(self.episodes.deep_view() == self@.episodes);
        }
        let chars = crate::codec::encode_db(self.dim, &self.episodes);
        crate::codec::string_from_chars(&chars)
    }

    /// Rebuild a store from its JSON save document, re-inserting every
    /// episode in order; `use_exact` picks the backend, as the stored
    /// form does not fix one. Succeeds on everything `to_json` wrote, as
    /// long as the embeddings fit the stored dimensionality and the
    /// bounded backend's default capacity takes them.
    pub fn from_json(text: &str, use_exact: bool) -> (r: Result<AgentMemDB, AgentMemError>)
        ensures
            r matches Ok(db) ==> store_inv(db@) && db@.exact == use_exact,
            forall|dim: usize, v: Seq<EpisodeView>|
                #![trigger crate::codec::enc_db(dim as nat, v)]
                text@ == crate::codec::enc_db(dim as nat, v) && (forall|i: int|
                    0 <= i < v.len() ==> (#[trigger] v[i]).state_embedding.len() == dim) && (
                use_exact || v.len() <= 20000) ==> (r matches Ok(db) && db@.dim == dim
                    && db@.episodes == v),
    {
        let chars = crate::codec::chars_of_str(text);
        match crate::codec::parse_db(&chars) {
            None => Err(AgentMemError::HnswError("malformed save document".to_owned())),
            Some((dim, eps)) => {
                let mut db = if use_exact {
                    AgentMemDB::new_exact(dim)
                } else {
                    AgentMemDB::new(dim)
                };
                let ghost db0 = db@;
                let res = db.store_episodes(eps);
                match res {
                    Ok(()) => {
                        proof {
                            assert forall|dimw: usize, v: Seq<EpisodeView>|
                                #![trigger crate::codec::enc_db(dimw as nat, v)]
                                text@ == crate::codec::enc_db(dimw as nat, v) && (forall|i: int|
                                    0 <= i < v.len() ==> (#[trigger] v[i]).state_embedding.len()
                                        == dimw) && (use_exact || v.len() <= 20000) implies (db@.dim
                                == dimw && db@.episodes == v) by {
                                assert(eps.deep_view() == v);
                                assert(db@.episodes =~= v);
                            }
                        }
                        Ok(db)
                    },
                    Err(e) => {
                        proof {
                            assert forall|dimw: usize, v: Seq<EpisodeView>|
                                #![trigger crate::codec::enc_db(dimw as nat, v)]
                                !(text@ == crate::codec::enc_db(dimw as nat, v) && (forall|i: int|
                                    0 <= i < v.len() ==> (#[trigger] v[i]).state_embedding.len()
                                        == dimw) && (use_exact || v.len() <= 20000)) by {
                                if text@ == crate::codec::enc_db(dimw as nat, v) && (forall|i: int|
                                    0 <= i < v.len() ==> (#[trigger] v[i]).state_embedding.len()
                                        == dimw) && (use_exact || v.len() <= 20000) {
                                    assert(eps.deep_view() == v);
                                    assert(batch_fits(db0, eps.deep_view()));
                                }
                            }
                        }
                        Err(e)
                    },
                }
            },
        }
    }

    /// Replace the whole contents with `kept`, rebuilding the index and
    /// key map from scratch (neither backend supports in-place removal).
    /// A rebuilt bounded backend takes the post-prune capacity rule.
    fn rebuild(&mut self, kept: Vec<Episode>)
        requires
            forall|i: int|
                0 <= i < kept.deep_view().len() ==> (#[trigger] kept.deep_view()[i]).state_embedding.len()
                    == old(self)@.dim,
        ensures
            store_inv(final(self)@),
            final(self)@.dim == old(self)@.dim,
            final(self)@.exact == old(self)@.exact,
            final(self)@.episodes == kept.deep_view(),
            final(self)@.exact ==> final(self)@.capacity is None,
            !final(self)@.exact ==> final(self)@.capacity == Some(
                rebuild_cap(kept.deep_view().len(), old(self)@.dim),
            ),
    {
        let ghost dim0 = old(self)@.dim;
        let ghost kv = kept.deep_view();
        let was_exact = match &self.index {
            IndexBackend::Exact(_) => true,
            IndexBackend::Capped(_, _) => false,
        };
        let klen = kept.len();
        proof {
            assert(klen == kv.len());
        }
        if was_exact {
            self.index = IndexBackend::Exact(ExactIndex::new());
        } else {
            let twod: usize = if self.dim > usize::MAX / 2 {
                usize::MAX
            } else {
                self.dim * 2
            };
            let mut cap = klen;
            if cap < 20000 {
                cap = 20000;
            }
            if cap < twod {
                cap = twod;
            }
            proof {
                assert(cap as nat == rebuild_cap(kv.len(), dim0));
            }
            self.index = IndexBackend::Capped(cap, ExactIndex::new());
        }
        self.key_to_id = Vec::new();
        self.episodes = kept;
        let mut i: usize = 0;
        proof {
            assert(self.index.vecs() =~= Seq::<Seq<i32>>::empty());
        }
        while i < klen
            invariant
                self.dim == dim0,
                klen == kv.len(),
                self.episodes.deep_view() == kv,
                self.episodes@.len() == klen,
                forall|j: int| 0 <= j < kv.len() ==> (#[trigger] kv[j]).state_embedding.len() == dim0,
                self.index.is_exact() == was_exact,
                was_exact ==> self.index.capacity() is None,
                !was_exact ==> self.index.capacity() == Some(rebuild_cap(kv.len(), dim0)),
                i <= klen,
                self.index.vecs().len() == i,
                self.key_to_id@.len() == i,
                forall|j: int| 0 <= j < i ==> self.index.vecs()[j] == (#[trigger] kv[j]).state_embedding,
                forall|j: int| 0 <= j < i ==> self.key_to_id@[j] == (#[trigger] kv[j]).id,
            decreases klen - i,
        {
            proof {
                assert(self.episodes.deep_view()[i as int] == self.episodes@[i as int]@);
                assert(rebuild_cap(kv.len(), dim0) >= kv.len());
                assert(!self.index.full());
            }
            let emb = crate::episode::clone_i32_vec(&self.episodes[i].state_embedding);
            let ins = self.index.insert(emb);
            match ins {
                Ok(_) => {},
                Err(()) => {
                    proof {
                        assert(false);
                    }
                },
            }
            self.key_to_id.push(self.episodes[i].id);
            i = i + 1;
        }
    }

    /// Prune episodes with timestamp older than the cutoff (Unix ms);
    /// episodes without a timestamp are kept. Rebuilds the index. Returns
    /// the number of episodes removed.
    pub fn prune_older_than(&mut self, timestamp_cutoff_ms: i64) -> (removed: usize)
        requires
            store_inv(old(self)@),
        ensures
            store_inv(final(self)@),
            final(self)@.dim == old(self)@.dim,
            final(self)@.exact == old(self)@.exact,
            final(self)@.episodes == old(self)@.episodes.filter(
                |e: EpisodeView| keeps_after(e, timestamp_cutoff_ms),
            ),
            removed == old(self)@.episodes.len() - final(self)@.episodes.len(),
            final(self)@.exact ==> final(self)@.capacity is None,
            !final(self)@.exact ==> final(self)@.capacity == Some(
                rebuild_cap(final(self)@.episodes.len(), old(self)@.dim),
            ),
    {
        let ghost eps0 = old(self)@.episodes;
        let len = self.episodes.len();
        let mut kept: Vec<Episode> = Vec::new();
        let mut i: usize = 0;
        proof {
            reveal(Seq::filter);
            assert(kept.deep_view() =~= eps0.take(0).filter(
                |e: EpisodeView| keeps_after(e, timestamp_cutoff_ms),
            ));
        }
        while i < len
            invariant
                store_inv(self@),
                self@ == old(self)@,
                eps0 == old(self)@.episodes,
                len == eps0.len(),
                i <= len,
                kept.deep_view() == eps0.take(i as int).filter(
                    |e: EpisodeView| keeps_after(e, timestamp_cutoff_ms),
                ),
                kept@.len() <= i,
                forall|j: int|
                    0 <= j < kept.deep_view().len() ==> (#[trigger] kept.deep_view()[j]).state_embedding.len()
                        == self@.dim,
            decreases len - i,
        {
            let keep = match self.episodes[i].timestamp {
                Some(t) => t >= timestamp_cutoff_ms,
                None => true,
            };
            let ghost kd0 = kept.deep_view();
            proof {
                assert(self.episodes.deep_view()[i as int] == self.episodes@[i as int]@);
                assert(keep == keeps_after(eps0[i as int], timestamp_cutoff_ms));
            }
            if keep {
                kept.push(self.episodes[i].clone());
                proof {
                    assert(kept.deep_view() =~= kd0.push(eps0[i as int]));
                }
            }
            proof {
                reveal(Seq::filter);
                assert(eps0.take(i + 1).drop_last() =~= eps0.take(i as int));
                assert(eps0.take(i + 1).last() == eps0[i as int]);
                assert(kept.deep_view() =~= eps0.take(i + 1).filter(
                    |e: EpisodeView| keeps_after(e, timestamp_cutoff_ms),
                ));
            }
            i = i + 1;
        }
        proof {
            assert(eps0.take(len as int) =~= eps0);
        }
        let removed = len - kept.len();
        self.rebuild(kept);
        removed
    }

    /// Prune to keep only the `n` most recent episodes (by timestamp);
    /// episodes without a timestamp rank oldest and go first. A no-op
    /// returning 0 when the store holds at most `n` episodes. Returns the
    /// number of episodes removed.
    pub fn prune_keep_newest(&mut self, n: usize) -> (removed: usize)
        requires
            store_inv(old(self)@),
        ensures
            store_inv(final(self)@),
            final(self)@.dim == old(self)@.dim,
            final(self)@.exact == old(self)@.exact,
            old(self)@.episodes.len() <= n ==> removed == 0 && final(self)@ == old(self)@,
            old(self)@.episodes.len() > n ==> final(self)@.episodes.len() == n && removed == old(
                self,
            )@.episodes.len() - n && pruned_to(
                old(self)@.episodes,
                final(self)@.episodes,
                |a: EpisodeView, b: EpisodeView| newest_first(a, b),
            ) && (final(self)@.exact ==> final(self)@.capacity is None) && (!final(self)@.exact
                ==> final(self)@.capacity == Some(rebuild_cap(n as nat, old(self)@.dim))),
    {
        let len = self.episodes.len();
        if len <= n {
            return 0;
        }
        let ghost eps0 = old(self)@.episodes;
        let mut ranks: Vec<Rank> = Vec::new();
        let mut i: usize = 0;
        while i < len
            invariant
                store_inv(self@),
                self@ == old(self)@,
                eps0 == old(self)@.episodes,
                len == eps0.len(),
                i <= len,
                ranks@.len() == i,
                forall|j: int|
                    0 <= j < i ==> (#[trigger] ranks@[j]) == (
                    desc_of(ts_rank(eps0[j])) as u128,
                    0u128,
                    j as usize,
                ),
            decreases len - i,
        {
            proof {
                assert(self.episodes.deep_view()[i as int] == self.episodes@[i as int]@);
            }
            let tsd = ts_desc_key(&self.episodes[i].timestamp);
            ranks.push((tsd, 0u128, i));
            i = i + 1;
        }
        let ghost ranks0 = ranks@;
        let sorted = sort_ranks(ranks);
        proof {
            lemma_sorted_entries(ranks0, sorted@);
        }
        let mut kept: Vec<Episode> = Vec::new();
        let mut i2: usize = 0;
        while i2 < n
            invariant
                store_inv(self@),
                self@ == old(self)@,
                eps0 == old(self)@.episodes,
                len == eps0.len(),
                n < len,
                sorted@.len() == len,
                forall|j: int|
                    0 <= j < sorted@.len() ==> (#[trigger] sorted@[j]).2 < len,
                i2 <= n,
                kept@.len() == i2,
                forall|j: int|
                    0 <= j < i2 ==> (#[trigger] kept@[j])@ == eps0[sorted@[j].2 as int],
            decreases n - i2,
        {
            let idx = sorted[i2].2;
            proof {
                assert(self.episodes.deep_view()[idx as int] == self.episodes@[idx as int]@);
            }
            kept.push(self.episodes[idx].clone());
            i2 = i2 + 1;
        }
        proof {
            assert forall|j: int| 0 <= j < kept.deep_view().len() implies (
            #[trigger] kept.deep_view()[j]) == eps0[sorted@[j].2 as int] by {
                assert(kept.deep_view()[j] == kept@[j]@);
            }
            lemma_select_sorted(
                eps0,
                |e: EpisodeView| desc_of(ts_rank(e)) as u128,
                |e: EpisodeView| 0u128,
                |a: EpisodeView, b: EpisodeView| newest_first(a, b),
                ranks0,
                sorted@,
                kept.deep_view(),
            );
        }
        self.rebuild(kept);
        len - n
    }

    /// Prune to keep only the `n` episodes with highest reward, recency
    /// breaking ties. A no-op returning 0 when the store holds at most `n`
    /// episodes. Returns the number of episodes removed.
    pub fn prune_keep_highest_reward(&mut self, n: usize) -> (removed: usize)
        requires
            store_inv(old(self)@),
        ensures
            store_inv(final(self)@),
            final(self)@.dim == old(self)@.dim,
            final(self)@.exact == old(self)@.exact,
            old(self)@.episodes.len() <= n ==> removed == 0 && final(self)@ == old(self)@,
            old(self)@.episodes.len() > n ==> final(self)@.episodes.len() == n && removed == old(
                self,
            )@.episodes.len() - n && pruned_to(
                old(self)@.episodes,
                final(self)@.episodes,
                |a: EpisodeView, b: EpisodeView| highest_reward_first(a, b),
            ) && (final(self)@.exact ==> final(self)@.capacity is None) && (!final(self)@.exact
                ==> final(self)@.capacity == Some(rebuild_cap(n as nat, old(self)@.dim))),
    {
        let len = self.episodes.len();
        if len <= n {
            return 0;
        }
        let ghost eps0 = old(self)@.episodes;
        let mut ranks: Vec<Rank> = Vec::new();
        let mut i: usize = 0;
        while i < len
            invariant
                store_inv(self@),
                self@ == old(self)@,
                eps0 == old(self)@.episodes,
                len == eps0.len(),
                i <= len,
                ranks@.len() == i,
                forall|j: int|
                    0 <= j < i ==> (#[trigger] ranks@[j]) == (
                    desc_of(eps0[j].reward as int) as u128,
                    desc_of(ts_rank(eps0[j])) as u128,
                    j as usize,
                ),
            decreases len - i,
        {
            proof {
                assert(self.episodes.deep_view()[i as int] == self.episodes@[i as int]@);
            }
            let rw = self.episodes[i].reward;
            let rd: i128 = i64::MAX as i128 - rw as i128;
            let rwd: u128 = rd as u128;
            let tsd = ts_desc_key(&self.episodes[i].timestamp);
            ranks.push((rwd, tsd, i));
            i = i + 1;
        }
        let ghost ranks0 = ranks@;
        let sorted = sort_ranks(ranks);
        proof {
            lemma_sorted_entries(ranks0, sorted@);
        }
        let mut kept: Vec<Episode> = Vec::new();
        let mut i2: usize = 0;
        while i2 < n
            invariant
                store_inv(self@),
                self@ == old(self)@,
                eps0 == old(self)@.episodes,
                len == eps0.len(),
                n < len,
                sorted@.len() == len,
                forall|j: int|
                    0 <= j < sorted@.len() ==> (#[trigger] sorted@[j]).2 < len,
                i2 <= n,
                kept@.len() == i2,
                forall|j: int|
                    0 <= j < i2 ==> (#[trigger] kept@[j])@ == eps0[sorted@[j].2 as int],
            decreases n - i2,
        {
            let idx = sorted[i2].2;
            proof {
                assert(self.episodes.deep_view()[idx as int] == self.episodes@[idx as int]@);
            }
            kept.push(self.episodes[idx].clone());
            i2 = i2 + 1;
        }
        proof {
            assert forall|j: int| 0 <= j < kept.deep_view().len() implies (
            #[trigger] kept.deep_view()[j]) == eps0[sorted@[j].2 as int] by {
                assert(kept.deep_view()[j] == kept@[j]@);
            }
            lemma_select_sorted(
                eps0,
                |e: EpisodeView| desc_of(e.reward as int) as u128,
                |e: EpisodeView| desc_of(ts_rank(e)) as u128,
                |a: EpisodeView, b: EpisodeView| highest_reward_first(a, b),
                ranks0,
                sorted@,
                kept.deep_view(),
            );
        }
        self.rebuild(kept);
        len - n
    }
}

} // verus!
