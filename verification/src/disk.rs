use vstd::prelude::*;
use crate::episode::{Episode, EpisodeView};
use crate::error::AgentMemError;
use crate::options::QueryOptions;
use crate::store::{
    AgentMemDB, StoreView, store_inv, store_full, query_result_ok, pruned_to, keeps_after,
    newest_first, highest_reward_first, simple_options,
};
use crate::codec::{enc_episode, enc_checkpoint, enc_meta};

verus! {

/// Options for opening a disk-backed store.
pub struct DiskOptions {
    pub dim: usize,
    pub index_type: Option<String>,
    pub max_elements: usize,
    /// If true and the backend is exact, `checkpoint` persists a snapshot
    /// so the next open can skip log replay.
    pub use_checkpoint: bool,
}

impl DiskOptions {
    /// Capacity-bounded backend with the given capacity.
    pub fn hnsw(dim: usize, max_elements: usize) -> (o: Self)
        ensures
            o.dim == dim,
            o.index_type matches Some(s) && s@ == "hnsw"@,
            o.max_elements == max_elements,
            !o.use_checkpoint,
    {
        DiskOptions { dim, index_type: Some("hnsw".to_owned()), max_elements, use_checkpoint: false }
    }

    /// Exact backend (the capacity field is unused).
    pub fn exact(dim: usize) -> (o: Self)
        ensures
            o.dim == dim,
            o.index_type matches Some(s) && s@ == "exact"@,
            o.max_elements == 0,
            !o.use_checkpoint,
    {
        DiskOptions { dim, index_type: Some("exact".to_owned()), max_elements: 0, use_checkpoint: false }
    }

    /// Exact backend with the checkpoint enabled for fast restart.
    pub fn exact_with_checkpoint(dim: usize) -> (o: Self)
        ensures
            o.dim == dim,
            o.index_type matches Some(s) && s@ == "exact"@,
            o.max_elements == 0,
            o.use_checkpoint,
    {
        DiskOptions { dim, index_type: Some("exact".to_owned()), max_elements: 0, use_checkpoint: true }
    }
}

/// `a` and `b` hold the same characters.
fn str_is(a: &str, b: &str) -> (r: bool)
    ensures
        r == (a@ == b@),
{
    let na = a.unicode_len();
    let nb = b.unicode_len();
    if na != nb {
        return false;
    }
    let mut i: usize = 0;
    while i < na
        invariant
            na == a@.len(),
            na == b@.len(),
            i <= na,
            forall|q: int| 0 <= q < i ==> a@[q] == b@[q],
        decreases na - i,
    {
        if a.get_char(i) != b.get_char(i) {
            return false;
        }
        i = i + 1;
    }
    proof {
        assert(a@ =~= b@);
    }
    true
}

/// The in-memory half of a disk-backed store: the same entity table,
/// index and key map as the in-memory store, together with the opening
/// options that govern checkpointing. The caller performs the file work
/// around it: it appends the lines this type hands out, feeds the lines
/// read back in, and writes the documents the checkpoint plan produces.
pub struct AgentMemDBDisk {
    mem: AgentMemDB,
    use_checkpoint: bool,
    max_elements: usize,
}

/// Mathematical image of a disk-backed store.
pub struct DiskStoreView {
    pub store: StoreView,
    pub use_checkpoint: bool,
    pub max_elements: nat,
}

impl View for AgentMemDBDisk {
    type V = DiskStoreView;

    closed spec fn view(&self) -> DiskStoreView {
        DiskStoreView {
            store: self.mem@,
            use_checkpoint: self.use_checkpoint,
            max_elements: self.max_elements as nat,
        }
    }
}

/// The log lines encode the episode sequence, one canonical line each.
pub open spec fn lines_encode(lines: Seq<Seq<char>>, v: Seq<EpisodeView>) -> bool {
    lines.len() == v.len() && forall|k: int|
        0 <= k < lines.len() ==> #[trigger] lines[k] == enc_episode(v[k])
}

impl AgentMemDBDisk {
    /// A fresh store for a directory that held no metadata: empty, with
    /// the backend the options name ("exact" picks the exact one,
    /// anything else the bounded one), plus the metadata document to
    /// write.
    pub fn fresh(opts: &DiskOptions) -> (r: (AgentMemDBDisk, String))
        ensures
            store_inv(r.0@.store),
            r.0@.store.dim == opts.dim,
            r.0@.store.episodes == Seq::<EpisodeView>::empty(),
            r.0@.use_checkpoint == opts.use_checkpoint,
            r.0@.max_elements == opts.max_elements,
            r.0@.store.exact == (opts.index_type matches Some(s) && s@ == "exact"@),
            r.1@ == enc_meta(opts.dim as nat, r.0@.store.exact, opts.max_elements as nat, None),
    {
        let exact = match &opts.index_type {
            Some(s) => str_is(s.as_str(), "exact"),
            None => false,
        };
        let mem = if exact {
            AgentMemDB::new_exact(opts.dim)
        } else {
            AgentMemDB::new_with_max_elements(opts.dim, opts.max_elements)
        };
        let meta = crate::codec::encode_meta(opts.dim, exact, opts.max_elements, &None);
        let meta_s = crate::codec::string_from_chars(&meta);
        (
            AgentMemDBDisk {
                mem,
                use_checkpoint: opts.use_checkpoint,
                max_elements: opts.max_elements,
            },
            meta_s,
        )
    }

    /// Rebuild the store by replaying the non-empty log lines in order:
    /// each line is parsed as an episode, validated against the
    /// dimensionality, and inserted. Succeeds on any log this library
    /// wrote whose episodes fit the dimensionality and capacity.
    pub fn replay(
        dim: usize,
        exact: bool,
        max_elements: usize,
        use_checkpoint: bool,
        lines: &Vec<String>,
    ) -> (r: Result<AgentMemDBDisk, AgentMemError>)
        ensures
            r matches Ok(d) ==> store_inv(d@.store) && d@.store.dim == dim && d@.store.exact
                == exact && d@.use_checkpoint == use_checkpoint && d@.max_elements == max_elements,
            forall|v: Seq<EpisodeView>| #![trigger lines_encode(lines.deep_view(), v)]
                lines_encode(lines.deep_view(), v) && (forall|i: int|
                    0 <= i < v.len() ==> (#[trigger] v[i]).state_embedding.len() == dim) && (exact
                    || v.len() <= max_elements) ==> (r matches Ok(d) && d@.store.episodes == v),
    {
        let mut mem = if exact {
            AgentMemDB::new_exact(dim)
        } else {
            AgentMemDB::new_with_max_elements(dim, max_elements)
        };
        let ghost m0 = mem@;
        let n = lines.len();
        let mut i: usize = 0;
        while i < n
            invariant
                store_inv(mem@),
                mem@.dim == dim,
                mem@.exact == exact,
                exact ==> mem@.capacity is None,
                !exact ==> mem@.capacity == Some(max_elements as nat),
                i <= n,
                n == lines@.len(),
                forall|v: Seq<EpisodeView>| #![trigger lines_encode(lines.deep_view(), v)]
                    lines_encode(lines.deep_view(), v) && (forall|q: int|
                        0 <= q < v.len() ==> (#[trigger] v[q]).state_embedding.len() == dim) && (
                    exact || v.len() <= max_elements) ==> mem@.episodes == v.take(i as int),
            decreases n - i,
        {
            let parsed = crate::codec::episode_from_line(lines[i].as_str());
            proof {
                assert forall|v: Seq<EpisodeView>| #![trigger lines_encode(lines.deep_view(), v)]
                    lines_encode(lines.deep_view(), v) implies (parsed matches Some(p) && p@
                    == v[i as int]) by {
                    assert(lines.deep_view()[i as int] == lines@[i as int]@);
                    assert(lines@[i as int]@ == enc_episode(v[i as int]));
                }
            }
            let ep = match parsed {
                Some(p) => p,
                None => {
                    return Err(AgentMemError::HnswError("malformed log line".to_owned()));
                },
            };
            let ghost pre = mem@;
            let res = mem.store_episode(ep);
            proof {
                assert forall|v: Seq<EpisodeView>| #![trigger lines_encode(lines.deep_view(), v)]
                    lines_encode(lines.deep_view(), v) && (forall|q: int|
                        0 <= q < v.len() ==> (#[trigger] v[q]).state_embedding.len() == dim) && (
                    exact || v.len() <= max_elements) implies (res is Ok && mem@.episodes == v.take(
                    i + 1,
                )) by {
                    assert(pre.episodes == v.take(i as int));
                    assert(v.take(i as int).len() == i);
                    assert(ep@ == v[i as int]);
                    assert(ep@.state_embedding.len() == dim);
                    assert(!store_full(pre));
                    assert(v.take(i as int).push(v[i as int]) =~= v.take(i + 1));
                }
            }
            match res {
                Ok(()) => {},
                Err(e) => {
                    return Err(e);
                },
            }
            i = i + 1;
        }
        proof {
            assert forall|v: Seq<EpisodeView>| #![trigger lines_encode(lines.deep_view(), v)]
                lines_encode(lines.deep_view(), v) && (forall|q: int|
                    0 <= q < v.len() ==> (#[trigger] v[q]).state_embedding.len() == dim) && (exact
                || v.len() <= max_elements) implies mem@.episodes == v by {
                assert(lines.deep_view().len() == n);
                assert(v.take(n as int) =~= v);
            }
        }
        Ok(AgentMemDBDisk { mem, use_checkpoint, max_elements })
    }

    /// Rebuild the store from a checkpoint snapshot: the episodes in key
    /// order, re-indexed without replaying the log. The backend is exact,
    /// as only the exact backend checkpoints.
    pub fn from_checkpoint(
        dim: usize,
        max_elements: usize,
        use_checkpoint: bool,
        cp_text: &str,
    ) -> (r: Result<AgentMemDBDisk, AgentMemError>)
        ensures
            r matches Ok(d) ==> store_inv(d@.store) && d@.store.dim == dim && d@.store.exact
                && d@.use_checkpoint == use_checkpoint && d@.max_elements == max_elements,
            forall|v: Seq<EpisodeView>| #![trigger enc_checkpoint(v)]
                cp_text@ == enc_checkpoint(v) && (forall|i: int|
                    0 <= i < v.len() ==> (#[trigger] v[i]).state_embedding.len() == dim) ==> (
                r matches Ok(d) && d@.store.episodes == v),
    {
        let chars = crate::codec::chars_of_str(cp_text);
        match crate::codec::parse_checkpoint(&chars) {
            None => Err(AgentMemError::HnswError("malformed checkpoint".to_owned())),
            Some(eps) => {
                let mut mem = AgentMemDB::new_exact(dim);
                let ghost m0 = mem@;
                let res = mem.store_episodes(eps);
                match res {
                    Ok(()) => {
                        proof {
                            assert forall|v: Seq<EpisodeView>| #![trigger enc_checkpoint(v)]
                                cp_text@ == enc_checkpoint(v) && (forall|i: int|
                                    0 <= i < v.len() ==> (#[trigger] v[i]).state_embedding.len()
                                        == dim) implies mem@.episodes == v by {
                                assert(mem@.episodes =~= v);
                            }
                        }
                        Ok(AgentMemDBDisk { mem, use_checkpoint, max_elements })
                    },
                    Err(e) => {
                        proof {
                            assert forall|v: Seq<EpisodeView>| #![trigger enc_checkpoint(v)]
                                !(cp_text@ == enc_checkpoint(v) && (forall|i: int|
                                    0 <= i < v.len() ==> (#[trigger] v[i]).state_embedding.len()
                                        == dim)) by {
                                if cp_text@ == enc_checkpoint(v) && (forall|i: int|
                                    0 <= i < v.len() ==> (#[trigger] v[i]).state_embedding.len()
                                        == dim) {
                                    assert(crate::store::batch_fits(m0, v));
                                }
                            }
                        }
                        Err(e)
                    },
                }
            },
        }
    }

    /// The embedding dimensionality.
    pub fn dim(&self) -> (d: usize)
        ensures
            d == self@.store.dim,
    {
        self.mem.dim()
    }

    /// Check an episode against the store and produce the log line to
    /// append for it. Fails with `DimensionMismatch` on the wrong
    /// dimensionality and with `HnswError` at capacity; no state changes.
    /// The caller appends the line (and syncs) before calling
    /// `apply_store`, so a failed write leaves the in-memory state
    /// untouched.
    pub fn prepare_store(&self, episode: &Episode) -> (r: Result<String, AgentMemError>)
        requires
            store_inv(self@.store),
        ensures
            episode@.state_embedding.len() != self@.store.dim ==> (r matches Err(
                AgentMemError::DimensionMismatch { expected, got },
            ) && expected == self@.store.dim && got == episode@.state_embedding.len()),
            episode@.state_embedding.len() == self@.store.dim && store_full(self@.store)
                ==> r matches Err(AgentMemError::HnswError(_)),
            episode@.state_embedding.len() == self@.store.dim && !store_full(self@.store) ==> (
            r matches Ok(line) && line@ == enc_episode(episode@)),
    {
        if episode.state_embedding.len() != self.mem.dim() {
            return Err(
                AgentMemError::DimensionMismatch {
                    expected: self.mem.dim(),
                    got: episode.state_embedding.len(),
                },
            );
        }
        if self.full() {
            return Err(AgentMemError::HnswError("index at capacity".to_owned()));
        }
        Ok(crate::codec::episode_to_line(episode))
    }

    /// The backend is at its capacity bound.
    fn full(&self) -> (b: bool)
        requires
            store_inv(self@.store),
        ensures
            b == store_full(self@.store),
    {
        self.mem.is_full()
    }

    /// Take an episode into the table and index, after its log line was
    /// durably appended.
    pub fn apply_store(&mut self, episode: Episode)
        requires
            store_inv(old(self)@.store),
            episode@.state_embedding.len() == old(self)@.store.dim,
            !store_full(old(self)@.store),
        ensures
            store_inv(final(self)@.store),
            final(self)@.use_checkpoint == old(self)@.use_checkpoint,
            final(self)@.max_elements == old(self)@.max_elements,
            final(self)@.store.dim == old(self)@.store.dim,
            final(self)@.store.capacity == old(self)@.store.capacity,
            final(self)@.store.exact == old(self)@.store.exact,
            final(self)@.store.episodes == old(self)@.store.episodes.push(episode@),
    {
        let ghost e = episode@;
        let res = self.mem.store_episode(episode);
        proof {
            assert(res is Ok);
        }
    }

    /// Query for the `top_k` episodes most similar to the given
    /// embedding, keeping only those whose reward reaches `min_reward`.
    pub fn query_similar(&self, query_embedding: &Vec<i32>, min_reward: i64, top_k: usize) -> (r:
        Result<Vec<Episode>, AgentMemError>)
        requires
            store_inv(self@.store),
        ensures
            query_embedding@.len() != self@.store.dim ==> (r matches Err(
                AgentMemError::DimensionMismatch { expected, got },
            ) && expected == self@.store.dim && got == query_embedding@.len()),
            query_embedding@.len() == self@.store.dim ==> (r matches Ok(res) && query_result_ok(
                self@.store,
                query_embedding@,
                simple_options(min_reward, top_k as nat),
                res.deep_view(),
            )),
    {
        self.mem.query_similar(query_embedding, min_reward, top_k)
    }

    /// Query with full filter options; the same semantics as the
    /// in-memory store, oversampling with the one unified multiplier
    /// rule.
    pub fn query_similar_with_options(&self, query_embedding: &Vec<i32>, opts: QueryOptions) -> (r:
        Result<Vec<Episode>, AgentMemError>)
        requires
            store_inv(self@.store),
        ensures
            query_embedding@.len() != self@.store.dim ==> (r matches Err(
                AgentMemError::DimensionMismatch { expected, got },
            ) && expected == self@.store.dim && got == query_embedding@.len()),
            query_embedding@.len() == self@.store.dim ==> (r matches Ok(res) && query_result_ok(
                self@.store,
                query_embedding@,
                opts@,
                res.deep_view(),
            )),
    {
        self.mem.query_similar_with_options(query_embedding, opts)
    }

    /// The checkpoint plan: `None` when the checkpoint is disabled, the
    /// backend is not exact, or the store disagrees with the given log
    /// line count (a deferred checkpoint, not an error). Otherwise the
    /// snapshot document and the refreshed metadata document to write.
    pub fn checkpoint_plan(&self, log_line_count: usize) -> (r: Option<(String, String)>)
        requires
            store_inv(self@.store),
        ensures
            r is Some <==> self@.use_checkpoint && self@.store.exact && self@.store.episodes.len()
                == log_line_count,
            r matches Some(p) ==> p.0@ == enc_checkpoint(self@.store.episodes) && p.1@ == enc_meta(
                self@.store.dim,
                true,
                self@.max_elements,
                Some(log_line_count as nat),
            ),
    {
        if !self.use_checkpoint {
            return None;
        }
        if !self.mem.is_exact() {
            return None;
        }
        if self.mem.len() != log_line_count {
            return None;
        }
        let cp = self.mem.snapshot_json();
        let meta = crate::codec::encode_meta(
            self.mem.dim(),
            true,
            self.max_elements,
            &Some(log_line_count),
        );
        let meta_s = crate::codec::string_from_chars(&meta);
        Some((cp, meta_s))
    }

    /// Prune episodes with timestamp older than the cutoff; episodes
    /// without a timestamp are kept. The index is rebuilt either way, as
    /// in the in-memory store; only the log rewrite is skipped when
    /// nothing was removed. When anything was removed, the compacted log
    /// (one line per survivor, in order) comes back for the caller to
    /// rewrite; the caller also removes the now-stale checkpoint file.
    pub fn prune_older_than(&mut self, timestamp_cutoff_ms: i64) -> (r: (usize, Option<
        Vec<String>,
    >))
        requires
            store_inv(old(self)@.store),
        ensures
            store_inv(final(self)@.store),
            final(self)@.use_checkpoint == old(self)@.use_checkpoint,
            final(self)@.max_elements == old(self)@.max_elements,
            final(self)@.store.dim == old(self)@.store.dim,
            final(self)@.store.exact == old(self)@.store.exact,
            final(self)@.store.episodes == old(self)@.store.episodes.filter(
                |e: EpisodeView| keeps_after(e, timestamp_cutoff_ms),
            ),
            r.0 == old(self)@.store.episodes.len() - final(self)@.store.episodes.len(),
            r.0 == 0 <==> r.1 is None,
            r.1 matches Some(lines) ==> lines_encode(lines.deep_view(), final(self)@.store.episodes),
    {
        let removed = self.mem.prune_older_than(timestamp_cutoff_ms);
        if removed == 0 {
            (0, None)
        } else {
            (removed, Some(self.mem.log_lines()))
        }
    }

    /// Prune to keep only the `n` most recent episodes; a no-op returning
    /// 0 when the store holds at most `n`. When anything was removed, the
    /// compacted log comes back for the caller to rewrite.
    pub fn prune_keep_newest(&mut self, n: usize) -> (r: (usize, Option<Vec<String>>))
        requires
            store_inv(old(self)@.store),
        ensures
            store_inv(final(self)@.store),
            final(self)@.use_checkpoint == old(self)@.use_checkpoint,
            final(self)@.max_elements == old(self)@.max_elements,
            final(self)@.store.dim == old(self)@.store.dim,
            final(self)@.store.exact == old(self)@.store.exact,
            old(self)@.store.episodes.len() <= n ==> r.0 == 0 && final(self)@.store == old(
                self,
            )@.store,
            old(self)@.store.episodes.len() > n ==> final(self)@.store.episodes.len() == n && r.0
                == old(self)@.store.episodes.len() - n && pruned_to(
                old(self)@.store.episodes,
                final(self)@.store.episodes,
                |a: EpisodeView, b: EpisodeView| newest_first(a, b),
            ),
            r.0 == 0 <==> r.1 is None,
            r.1 matches Some(lines) ==> lines_encode(lines.deep_view(), final(self)@.store.episodes),
    {
        let removed = self.mem.prune_keep_newest(n);
        if removed == 0 {
            (0, None)
        } else {
            (removed, Some(self.mem.log_lines()))
        }
    }

    /// Prune to keep only the `n` episodes with highest reward, recency
    /// breaking ties; a no-op returning 0 when the store holds at most
    /// `n`. When anything was removed, the compacted log comes back for
    /// the caller to rewrite.
    pub fn prune_keep_highest_reward(&mut self, n: usize) -> (r: (usize, Option<Vec<String>>))
        requires
            store_inv(old(self)@.store),
        ensures
            store_inv(final(self)@.store),
            final(self)@.use_checkpoint == old(self)@.use_checkpoint,
            final(self)@.max_elements == old(self)@.max_elements,
            final(self)@.store.dim == old(self)@.store.dim,
            final(self)@.store.exact == old(self)@.store.exact,
            old(self)@.store.episodes.len() <= n ==> r.0 == 0 && final(self)@.store == old(
                self,
            )@.store,
            old(self)@.store.episodes.len() > n ==> final(self)@.store.episodes.len() == n && r.0
                == old(self)@.store.episodes.len() - n && pruned_to(
                old(self)@.store.episodes,
                final(self)@.store.episodes,
                |a: EpisodeView, b: EpisodeView| highest_reward_first(a, b),
            ),
            r.0 == 0 <==> r.1 is None,
            r.1 matches Some(lines) ==> lines_encode(lines.deep_view(), final(self)@.store.episodes),
    {
        let removed = self.mem.prune_keep_highest_reward(n);
        if removed == 0 {
            (0, None)
        } else {
            (removed, Some(self.mem.log_lines()))
        }
    }

    /// Whether an existing checkpoint may stand in for log replay on
    /// open: the option asks for it, the backend is exact, the file is
    /// there, and the recorded line count matches the log.
    pub fn should_use_checkpoint(
        use_checkpoint: bool,
        exact: bool,
        checkpoint_exists: bool,
        recorded: &Option<usize>,
        line_count: usize,
    ) -> (b: bool)
        ensures
            b == (use_checkpoint && exact && checkpoint_exists && *recorded == Some(line_count)),
    {
        use_checkpoint && exact && checkpoint_exists && match recorded {
            Some(c) => *c == line_count,
            None => false,
        }
    }
}

} // verus!
