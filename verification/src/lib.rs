//! An embeddable memory store for learning agents.
//!
//! The library persists episodes (an embedding plus a scalar reward and
//! categorical metadata) and answers nearest-neighbour queries filtered by
//! reward, tags, source, user, time window and task-id prefix. Real-valued
//! quantities (embedding components, rewards) are carried as plain integers
//! in a fixed-point scale chosen by the caller, so every comparison the
//! store makes is exact and verified.

mod episode;
mod error;
mod options;
mod order;
mod index;
mod store;
mod codec;
mod disk;

pub use episode::{Episode, EpisodeStep, EpisodeStepView, EpisodeView};
pub use error::AgentMemError;
pub use options::{QueryOptions, QueryOptionsView};
pub use store::{AgentMemDB, StoreView};
pub use disk::{AgentMemDBDisk, DiskOptions, DiskStoreView};
pub use codec::{episode_to_line, episode_from_line, meta_from_text};
