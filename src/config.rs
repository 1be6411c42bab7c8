use vstd::prelude::*;

verus! {

/// Settings of a synchronizer. Durations are in nanoseconds.
#[derive(Debug, Clone, PartialEq, Eq)]
pub struct Config {
    /// Half the span that a group of messages must fit within: each
    /// message of a group lies within this distance of the group's anchor.
    pub window_size: u64,
    /// Messages at or before this timestamp are refused from the start.
    pub start_time: Option<u64>,
    /// How many messages each key's buffer holds before it counts as
    /// saturated.
    pub buf_size: usize,
}

/// Why a synchronizer could not be built.
#[derive(Debug, Clone, Copy, PartialEq, Eq)]
pub enum ConfigError {
    /// `buf_size` is below 2.
    BufSizeTooSmall,
    /// `window_size` is zero.
    ZeroWindow,
    /// No key was given.
    NoKeys,
}

impl Config {
    /// The settings that a synchronizer accepts.
    pub open spec fn valid(&self) -> bool {
        &&& self.buf_size >= 2
        &&& self.window_size > 0
    }
}

} // verus!
