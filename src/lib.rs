//! Groups messages that are close in time, one per key, out of an
//! interleaved stream of timestamped messages.
//!
//! Timestamps and durations are `u64` nanoseconds since a fixed epoch.
//! Keys are `u64` numbers drawn from a set fixed at construction.
//!
//! - `buffer`: one key's queue, whose timestamps strictly increase.
//! - `state`: the buffers of all keys, the commit timestamp, pushing,
//!   the timestamp reductions, matching, forced drops and feedback.
//! - `matching`: what a matching attempt takes from each buffer, stated
//!   over timestamps.
//! - `driver`: the step function that a caller runs against its input.
//! - `keys`, `feedback`: the key set and the feedback channel.

pub mod buffer;
pub mod config;
pub mod driver;
pub mod feedback;
pub mod keys;
pub mod matching;
pub mod message;
pub mod state;
pub mod types;

pub use buffer::{Buffer, FrontEntry};
pub use config::{Config, ConfigError};
pub use driver::{sync, Phase, Step, Synchronizer};
pub use feedback::Feedback;
pub use message::{DataFrame, DevicePath, InputMessage, MatcherFeedback};
pub use state::State;
pub use types::Timestamped;
