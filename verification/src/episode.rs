use vstd::prelude::*;

verus! {

/// A single step in an agent trajectory: optional per-step trace data
/// attached to an `Episode`. The scalar `step_reward` is carried in the
/// store's fixed-point integer scale, like every other real-valued quantity
/// of the library.
#[derive(Debug)]
pub struct EpisodeStep {
    /// Step index (0-based)
    pub index: u32,
    /// Action taken by the agent
    pub action: String,
    /// Observation received
    pub observation: String,
    /// Reward for this step (fixed-point scale)
    pub step_reward: i64,
}

/// Mathematical image of an `EpisodeStep`.
pub struct EpisodeStepView {
    pub index: u32,
    pub action: Seq<char>,
    pub observation: Seq<char>,
    pub step_reward: i64,
}

impl View for EpisodeStep {
    type V = EpisodeStepView;

    open spec fn view(&self) -> EpisodeStepView {
        EpisodeStepView {
            index: self.index,
            action: self.action@,
            observation: self.observation@,
            step_reward: self.step_reward,
        }
    }
}

impl DeepView for EpisodeStep {
    type V = EpisodeStepView;

    open spec fn deep_view(&self) -> EpisodeStepView {
        self.view()
    }
}

impl Clone for EpisodeStep {
    fn clone(&self) -> (res: Self)
        ensures
            res@ == self@,
    {
        EpisodeStep {
            index: self.index,
            action: self.action.clone(),
            observation: self.observation.clone(),
            step_reward: self.step_reward,
        }
    }
}

/// A recorded agent experience.
///
/// An `Episode` holds a unique 128-bit `id`, a caller-chosen `task_id`, the
/// `state_embedding` used for similarity search, a scalar `reward`, opaque
/// `metadata` text, and optional trajectory, timestamp and categorical
/// fields. Embedding components and rewards are plain integers in a
/// fixed-point scale chosen by the caller; the store only ever compares
/// rewards and squared distances, so any order-preserving scale works.
#[derive(Debug)]
pub struct Episode {
    /// Unique episode id (the 128 bits of a version-4 UUID)
    pub id: u128,
    /// Task identifier (user-defined)
    pub task_id: String,
    /// State embedding vector (fixed-point components)
    pub state_embedding: Vec<i32>,
    /// Reward for this episode (fixed-point scale)
    pub reward: i64,
    /// Opaque metadata text, carried verbatim (`None` persists as null)
    pub metadata: Option<String>,
    /// Optional sequence of steps (trajectory)
    pub steps: Option<Vec<EpisodeStep>>,
    /// Optional Unix timestamp (milliseconds) for time-based filtering
    pub timestamp: Option<i64>,
    /// Optional tags for categorical filtering
    pub tags: Option<Vec<String>>,
    /// Optional source (e.g., "api", "cli")
    pub source: Option<String>,
    /// Optional user id for multi-tenant isolation
    pub user_id: Option<String>,
}

/// Mathematical image of an `Episode`; all contracts speak of it.
pub struct EpisodeView {
    pub id: u128,
    pub task_id: Seq<char>,
    pub state_embedding: Seq<i32>,
    pub reward: i64,
    pub metadata: Option<Seq<char>>,
    pub steps: Option<Seq<EpisodeStepView>>,
    pub timestamp: Option<i64>,
    pub tags: Option<Seq<Seq<char>>>,
    pub source: Option<Seq<char>>,
    pub user_id: Option<Seq<char>>,
}

impl View for Episode {
    type V = EpisodeView;

    open spec fn view(&self) -> EpisodeView {
        EpisodeView {
            id: self.id,
            task_id: self.task_id@,
            state_embedding: self.state_embedding@,
            reward: self.reward,
            metadata: self.metadata.deep_view(),
            steps: self.steps.deep_view(),
            timestamp: self.timestamp,
            tags: self.tags.deep_view(),
            source: self.source.deep_view(),
            user_id: self.user_id.deep_view(),
        }
    }
}

impl DeepView for Episode {
    type V = EpisodeView;

    open spec fn deep_view(&self) -> EpisodeView {
        self.view()
    }
}

/// Copy a vector of embedding components.
pub(crate) fn clone_i32_vec(v: &Vec<i32>) -> (r: Vec<i32>)
    ensures
        r@ == v@,
{
    let mut r: Vec<i32> = Vec::new();
    let mut i: usize = 0;
    while i < v.len()
        invariant
            i <= v.len(),
            r@ == v@.take(i as int),
        decreases v.len() - i,
    {
        r.push(v[i]);
        i = i + 1;
    }
    assert(r@ == v@.take(v.len() as int));
    assert(v@.take(v.len() as int) =~= v@);
    r
}

/// Copy a vector of strings.
fn clone_string_vec(v: &Vec<String>) -> (r: Vec<String>)
    ensures
        r@ == v@,
        r.deep_view() == v.deep_view(),
{
    let mut r: Vec<String> = Vec::new();
    let mut i: usize = 0;
    while i < v.len()
        invariant
            i <= v.len(),
            r@ == v@.take(i as int),
        decreases v.len() - i,
    {
        r.push(v[i].clone());
        i = i + 1;
    }
    assert(r@ == v@.take(v.len() as int));
    assert(v@.take(v.len() as int) =~= v@);
    assert(r.deep_view() =~= v.deep_view());
    r
}

/// Copy a vector of steps.
fn clone_step_vec(v: &Vec<EpisodeStep>) -> (r: Vec<EpisodeStep>)
    ensures
        r.deep_view() == v.deep_view(),
{
    let mut r: Vec<EpisodeStep> = Vec::new();
    let mut i: usize = 0;
    while i < v.len()
        invariant
            i <= v.len(),
            r@.len() == i,
            forall|j: int| 0 <= j < i ==> r@[j]@ == v@[j]@,
        decreases v.len() - i,
    {
        r.push(v[i].clone());
        i = i + 1;
    }
    assert(r.deep_view() =~= v.deep_view());
    r
}

impl Clone for Episode {
    fn clone(&self) -> (res: Self)
        ensures
            res@ == self@,
    {
        let metadata = match &self.metadata {
            Some(m) => Some(m.clone()),
            None => None,
        };
        let steps = match &self.steps {
            Some(s) => Some(clone_step_vec(s)),
            None => None,
        };
        let tags = match &self.tags {
            Some(t) => Some(clone_string_vec(t)),
            None => None,
        };
        let source = match &self.source {
            Some(s) => Some(s.clone()),
            None => None,
        };
        let user_id = match &self.user_id {
            Some(u) => Some(u.clone()),
            None => None,
        };
        Episode {
            id: self.id,
            task_id: self.task_id.clone(),
            state_embedding: clone_i32_vec(&self.state_embedding),
            reward: self.reward,
            metadata,
            steps,
            timestamp: self.timestamp,
            tags,
            source,
            user_id,
        }
    }
}

/// Relies on `uuid::Uuid::new_v4` and `uuid::Uuid::as_u128`: a freshly drawn
/// version-4 random UUID, returned as its sixteen bytes read big-endian.
/// Of a random identifier only the version and variant bits that RFC 4122
/// fixes can be promised.
#[verifier::external_body]
fn fresh_episode_id() -> (id: u128)
    ensures
        (id >> 76) & 0xf == 4,
        (id >> 62) & 0x3 == 2,
{
    uuid::Uuid::new_v4().as_u128()
}

impl Episode {
    /// Create a new episode with a random id and empty optional fields.
    pub fn new(task_id: &str, state_embedding: Vec<i32>, reward: i64) -> (ep: Episode)
        ensures
            ep@.task_id == task_id@,
            ep@.state_embedding == state_embedding@,
            ep@.reward == reward,
            ep@.metadata is None,
            ep@.steps is None,
            ep@.timestamp is None,
            ep@.tags is None,
            ep@.source is None,
            ep@.user_id is None,
    {
        Episode {
            id: fresh_episode_id(),
            task_id: task_id.to_owned(),
            state_embedding,
            reward,
            metadata: None,
            steps: None,
            timestamp: None,
            tags: None,
            source: None,
            user_id: None,
        }
    }

    /// Create an episode with a timestamp (Unix ms).
    pub fn with_timestamp(task_id: &str, state_embedding: Vec<i32>, reward: i64, timestamp: i64) -> (ep: Episode)
        ensures
            ep@.task_id == task_id@,
            ep@.state_embedding == state_embedding@,
            ep@.reward == reward,
            ep@.metadata is None,
            ep@.steps is None,
            ep@.timestamp == Some(timestamp),
            ep@.tags is None,
            ep@.source is None,
            ep@.user_id is None,
    {
        let mut ep = Self::new(task_id, state_embedding, reward);
        ep.timestamp = Some(timestamp);
        ep
    }

    /// Create an episode with tags.
    pub fn with_tags(task_id: &str, state_embedding: Vec<i32>, reward: i64, tags: Vec<String>) -> (ep: Episode)
        ensures
            ep@.task_id == task_id@,
            ep@.state_embedding == state_embedding@,
            ep@.reward == reward,
            ep@.metadata is None,
            ep@.steps is None,
            ep@.timestamp is None,
            ep@.tags == Some(tags.deep_view()),
            ep@.source is None,
            ep@.user_id is None,
    {
        let mut ep = Self::new(task_id, state_embedding, reward);
        ep.tags = Some(tags);
        ep
    }

    /// Create an episode with a source.
    pub fn with_source(task_id: &str, state_embedding: Vec<i32>, reward: i64, source: &str) -> (ep: Episode)
        ensures
            ep@.task_id == task_id@,
            ep@.state_embedding == state_embedding@,
            ep@.reward == reward,
            ep@.metadata is None,
            ep@.steps is None,
            ep@.timestamp is None,
            ep@.tags is None,
            ep@.source == Some(source@),
            ep@.user_id is None,
    {
        let mut ep = Self::new(task_id, state_embedding, reward);
        ep.source = Some(source.to_owned());
        ep
    }

    /// Create an episode with a user id.
    pub fn with_user_id(task_id: &str, state_embedding: Vec<i32>, reward: i64, user_id: &str) -> (ep: Episode)
        ensures
            ep@.task_id == task_id@,
            ep@.state_embedding == state_embedding@,
            ep@.reward == reward,
            ep@.metadata is None,
            ep@.steps is None,
            ep@.timestamp is None,
            ep@.tags is None,
            ep@.source is None,
            ep@.user_id == Some(user_id@),
    {
        let mut ep = Self::new(task_id, state_embedding, reward);
        ep.user_id = Some(user_id.to_owned());
        ep
    }
}

} // verus!
