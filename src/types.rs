use vstd::prelude::*;

verus! {

/// A message that carries a timestamp, in nanoseconds since a fixed epoch.
///
/// The library reads the timestamp of a message once, when the message
/// enters a buffer, and keeps that value beside the message.
pub trait Timestamped {
    fn timestamp(&self) -> u64;
}

} // verus!
