use vstd::prelude::*;
use crate::episode::{Episode, EpisodeView};

verus! {

/// Query options for similarity search with optional filters. Absent
/// filters are vacuously true. `min_reward` and rewards share the store's
/// fixed-point integer scale; timestamps are Unix milliseconds.
pub struct QueryOptions {
    /// Minimum episode reward to include
    pub min_reward: i64,
    /// Maximum number of episodes to return
    pub top_k: usize,
    /// Include only episodes that have any of these tags
    pub tags_any: Option<Vec<String>>,
    /// Include only episodes that have all of these tags
    pub tags_all: Option<Vec<String>>,
    /// Include only episodes with task_id starting with this prefix
    pub task_id_prefix: Option<String>,
    /// Include only episodes with timestamp >= (Unix ms)
    pub time_after: Option<i64>,
    /// Include only episodes with timestamp <= (Unix ms)
    pub time_before: Option<i64>,
    /// Include only episodes with this source (exact match)
    pub source: Option<String>,
    /// Include only episodes with this user_id (exact match)
    pub user_id: Option<String>,
}

/// Mathematical image of `QueryOptions`.
pub struct QueryOptionsView {
    pub min_reward: i64,
    pub top_k: nat,
    pub tags_any: Option<Seq<Seq<char>>>,
    pub tags_all: Option<Seq<Seq<char>>>,
    pub task_id_prefix: Option<Seq<char>>,
    pub time_after: Option<i64>,
    pub time_before: Option<i64>,
    pub source: Option<Seq<char>>,
    pub user_id: Option<Seq<char>>,
}

impl View for QueryOptions {
    type V = QueryOptionsView;

    open spec fn view(&self) -> QueryOptionsView {
        QueryOptionsView {
            min_reward: self.min_reward,
            top_k: self.top_k as nat,
            tags_any: self.tags_any.deep_view(),
            tags_all: self.tags_all.deep_view(),
            task_id_prefix: self.task_id_prefix.deep_view(),
            time_after: self.time_after,
            time_before: self.time_before,
            source: self.source.deep_view(),
            user_id: self.user_id.deep_view(),
        }
    }
}

/// `p` is a prefix of `s`.
pub open spec fn is_prefix(p: Seq<char>, s: Seq<char>) -> bool {
    p.len() <= s.len() && s.take(p.len() as int) == p
}

/// The episode's tag sequence, with absent tags read as the empty sequence.
pub open spec fn tags_or_empty(t: Option<Seq<Seq<char>>>) -> Seq<Seq<char>> {
    match t {
        Some(ts) => ts,
        None => Seq::empty(),
    }
}

/// Some wanted tag occurs among the episode's tags.
pub open spec fn has_any_tag(want: Seq<Seq<char>>, ep_tags: Seq<Seq<char>>) -> bool {
    exists|i: int| 0 <= i < want.len() && ep_tags.contains(want[i])
}

/// Every wanted tag occurs among the episode's tags.
pub open spec fn has_all_tags(want: Seq<Seq<char>>, ep_tags: Seq<Seq<char>>) -> bool {
    forall|i: int| 0 <= i < want.len() ==> ep_tags.contains(want[i])
}

/// The filter bundle accepts the episode: reward at least `min_reward`, and
/// every present filter satisfied. Episodes without a timestamp fail either
/// temporal filter; an absent source or user field matches no required value.
pub open spec fn episode_matches(o: QueryOptionsView, e: EpisodeView) -> bool {
    &&& e.reward >= o.min_reward
    &&& (o.tags_any matches Some(want) ==> has_any_tag(want, tags_or_empty(e.tags)))
    &&& (o.tags_all matches Some(want) ==> has_all_tags(want, tags_or_empty(e.tags)))
    &&& (o.task_id_prefix matches Some(p) ==> is_prefix(p, e.task_id))
    &&& (o.time_after matches Some(ts) ==> e.timestamp matches Some(et) && et >= ts)
    &&& (o.time_before matches Some(ts) ==> e.timestamp matches Some(et) && et <= ts)
    &&& (o.source matches Some(s) ==> e.source == Some(s))
    &&& (o.user_id matches Some(u) ==> e.user_id == Some(u))
}

/// `p@` is a prefix of `s@`.
fn str_starts_with(s: &str, p: &str) -> (b: bool)
    ensures
        b == is_prefix(p@, s@),
{
    let np = p.unicode_len();
    let ns = s.unicode_len();
    if ns < np {
        assert(!is_prefix(p@, s@));
        return false;
    }
    let mut i: usize = 0;
    while i < np
        invariant
            i <= np,
            np == p@.len(),
            ns == s@.len(),
            np <= ns,
            forall|j: int| 0 <= j < i ==> s@[j] == p@[j],
        decreases np - i,
    {
        if s.get_char(i) != p.get_char(i) {
            assert(s@.take(np as int)[i as int] != p@[i as int]);
            return false;
        }
        i = i + 1;
    }
    assert(s@.take(np as int) =~= p@);
    true
}

/// The string `t` occurs in `v`.
fn vec_contains_str(v: &Vec<String>, t: &String) -> (b: bool)
    ensures
        b == v.deep_view().contains(t@),
{
    let mut i: usize = 0;
    while i < v.len()
        invariant
            i <= v.len(),
            forall|j: int| 0 <= j < i ==> v.deep_view()[j] != t@,
        decreases v.len() - i,
    {
        assert(v.deep_view()[i as int] == v@[i as int]@);
        if v[i].eq(t) {
            assert(v.deep_view()[i as int] == t@);
            return true;
        }
        i = i + 1;
    }
    assert forall|j: int| 0 <= j < v.deep_view().len() implies v.deep_view()[j] != t@ by {
    }
    false
}

/// Some wanted tag occurs among the episode's tags.
fn any_tag(want: &Vec<String>, ep_tags: &Vec<String>) -> (b: bool)
    ensures
        b == has_any_tag(want.deep_view(), ep_tags.deep_view()),
{
    let mut i: usize = 0;
    while i < want.len()
        invariant
            i <= want.len(),
            forall|j: int| 0 <= j < i ==> !ep_tags.deep_view().contains(want.deep_view()[j]),
        decreases want.len() - i,
    {
        if vec_contains_str(ep_tags, &want[i]) {
            assert(ep_tags.deep_view().contains(want.deep_view()[i as int]));
            return true;
        }
        i = i + 1;
    }
    false
}

/// Every wanted tag occurs among the episode's tags.
fn all_tags(want: &Vec<String>, ep_tags: &Vec<String>) -> (b: bool)
    ensures
        b == has_all_tags(want.deep_view(), ep_tags.deep_view()),
{
    let mut i: usize = 0;
    while i < want.len()
        invariant
            i <= want.len(),
            forall|j: int| 0 <= j < i ==> ep_tags.deep_view().contains(want.deep_view()[j]),
        decreases want.len() - i,
    {
        if !vec_contains_str(ep_tags, &want[i]) {
            assert(!ep_tags.deep_view().contains(want.deep_view()[i as int]));
            return false;
        }
        i = i + 1;
    }
    true
}

impl Default for QueryOptions {
    /// No reward floor (at the fixed-point scale's zero), no result budget,
    /// no filters.
    fn default() -> (d: Self)
        ensures
            d@.min_reward == 0,
            d@.top_k == 0,
            d@.tags_any is None,
            d@.tags_all is None,
            d@.task_id_prefix is None,
            d@.time_after is None,
            d@.time_before is None,
            d@.source is None,
            d@.user_id is None,
    {
        QueryOptions {
            min_reward: 0,
            top_k: 0,
            tags_any: None,
            tags_all: None,
            task_id_prefix: None,
            time_after: None,
            time_before: None,
            source: None,
            user_id: None,
        }
    }
}

impl QueryOptions {
    /// Simple options: min_reward and top_k only.
    pub fn new(min_reward: i64, top_k: usize) -> (o: Self)
        ensures
            o@.min_reward == min_reward,
            o@.top_k == top_k,
            o@.tags_any is None,
            o@.tags_all is None,
            o@.task_id_prefix is None,
            o@.time_after is None,
            o@.time_before is None,
            o@.source is None,
            o@.user_id is None,
    {
        QueryOptions {
            min_reward,
            top_k,
            tags_any: None,
            tags_all: None,
            task_id_prefix: None,
            time_after: None,
            time_before: None,
            source: None,
            user_id: None,
        }
    }

    /// Add tags_any filter.
    pub fn tags_any(self, tags: Vec<String>) -> (o: Self)
        ensures
            o@ == (QueryOptionsView { tags_any: Some(tags.deep_view()), ..self@ }),
    {
        QueryOptions { tags_any: Some(tags), ..self }
    }

    /// Add tags_all filter (episode must have all of these tags).
    pub fn tags_all(self, tags: Vec<String>) -> (o: Self)
        ensures
            o@ == (QueryOptionsView { tags_all: Some(tags.deep_view()), ..self@ }),
    {
        QueryOptions { tags_all: Some(tags), ..self }
    }

    /// Add task_id_prefix filter.
    pub fn task_id_prefix(self, prefix: &str) -> (o: Self)
        ensures
            o@ == (QueryOptionsView { task_id_prefix: Some(prefix@), ..self@ }),
    {
        QueryOptions { task_id_prefix: Some(prefix.to_owned()), ..self }
    }

    /// Add time_after filter (timestamp >=).
    pub fn time_after(self, ts: i64) -> (o: Self)
        ensures
            o@ == (QueryOptionsView { time_after: Some(ts), ..self@ }),
    {
        QueryOptions { time_after: Some(ts), ..self }
    }

    /// Add time_before filter (timestamp <=).
    pub fn time_before(self, ts: i64) -> (o: Self)
        ensures
            o@ == (QueryOptionsView { time_before: Some(ts), ..self@ }),
    {
        QueryOptions { time_before: Some(ts), ..self }
    }

    /// Add source filter (exact match).
    pub fn source(self, s: &str) -> (o: Self)
        ensures
            o@ == (QueryOptionsView { source: Some(s@), ..self@ }),
    {
        QueryOptions { source: Some(s.to_owned()), ..self }
    }

    /// Add user_id filter (exact match).
    pub fn user_id(self, u: &str) -> (o: Self)
        ensures
            o@ == (QueryOptionsView { user_id: Some(u@), ..self@ }),
    {
        QueryOptions { user_id: Some(u.to_owned()), ..self }
    }

    /// The filter bundle accepts the episode.
    pub fn matches(&self, ep: &Episode) -> (b: bool)
        ensures
            b == episode_matches(self@, ep@),
    {
        if ep.reward < self.min_reward {
            return false;
        }
        if let Some(want) = &self.tags_any {
            let ok = match &ep.tags {
                Some(et) => any_tag(want, et),
                None => false,
            };
            if !ok {
                return false;
            }
        }
        if let Some(want) = &self.tags_all {
            let ok = match &ep.tags {
                Some(et) => all_tags(want, et),
                None => {
                    assert(want.deep_view().len() == want@.len());
                    proof {
                        if want.deep_view().len() > 0 {
                            assert(!Seq::<Seq<char>>::empty().contains(want.deep_view()[0]));
                            assert(!has_all_tags(want.deep_view(), Seq::empty()));
                        }
                    }
                    want.len() == 0
                },
            };
            if !ok {
                return false;
            }
        }
        if let Some(prefix) = &self.task_id_prefix {
            if !str_starts_with(task_id_str(ep), prefix.as_str()) {
                return false;
            }
        }
        if let Some(ts) = self.time_after {
            match ep.timestamp {
                Some(et) => {
                    if et < ts {
                        return false;
                    }
                },
                None => {
                    return false;
                },
            }
        }
        if let Some(ts) = self.time_before {
            match ep.timestamp {
                Some(et) => {
                    if et > ts {
                        return false;
                    }
                },
                None => {
                    return false;
                },
            }
        }
        if let Some(s) = &self.source {
            let ok = match &ep.source {
                Some(es) => es.eq(s),
                None => false,
            };
            if !ok {
                return false;
            }
        }
        if let Some(u) = &self.user_id {
            let ok = match &ep.user_id {
                Some(eu) => eu.eq(u),
                None => false,
            };
            if !ok {
                return false;
            }
        }
        true
    }
}

/// The episode's task id as a string slice.
fn task_id_str(ep: &Episode) -> (s: &str)
    ensures
        s@ == ep@.task_id,
{
    ep.task_id.as_str()
}

} // verus!
