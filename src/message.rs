use crate::types::Timestamped;
use vstd::prelude::*;

verus! {

/// Identifies a capture device; its number is the key of its stream.
#[derive(Debug, Clone, Copy, PartialEq, Eq, Hash, Structural)]
pub struct DevicePath(pub usize);

/// Feedback from the matcher to the point cloud and video sources.
#[derive(Debug, Clone)]
pub struct MatcherFeedback {
    pub accepted_max_timestamp: Option<u64>,
    pub commit_timestamp: Option<u64>,
    pub inclusive: Option<bool>,
    pub accepted_devices: Vec<DevicePath>,
}

/// A group of messages as handed downstream.
#[derive(Debug, Clone, PartialEq, Eq, Structural)]
pub struct DataFrame {
    /// The position of the group in the output.
    pub frame_id: u64,
    /// The smallest timestamp in the group.
    pub timestamp: Option<u64>,
}

/// An input message that carries nothing but its timestamp.
#[derive(Debug, Clone, Copy, PartialEq, Eq, Structural)]
pub struct InputMessage {
    pub timestamp: u64,
}

impl Timestamped for InputMessage {
    fn timestamp(&self) -> u64 {
        self.timestamp
    }
}

} // verus!
