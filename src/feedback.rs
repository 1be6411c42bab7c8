use tokio::sync::watch;
use vstd::prelude::*;

verus! {

#[verifier::external_type_specification]
#[verifier::external_body]
#[verifier::reject_recursive_types(T)]
pub struct ExSender<T>(watch::Sender<T>);

#[verifier::external_type_specification]
#[verifier::external_body]
#[verifier::reject_recursive_types(T)]
pub struct ExReceiver<T>(watch::Receiver<T>);

/// A notice to the upstream sources on how far the synchronizer has come.
#[derive(Debug, Clone)]
pub struct Feedback {
    /// Not filled in: always `None`.
    pub accepted_max_timestamp: Option<u64>,
    /// The commit timestamp: messages at or before it are refused.
    pub commit_timestamp: Option<u64>,
    /// The keys whose buffers are below capacity, in key order.
    pub accepted_keys: Vec<u64>,
}

/// Relies on `tokio::sync::watch::channel`: a single-slot channel that
/// starts out holding `init`.
#[verifier::external_body]
pub(crate) fn feedback_channel(init: Feedback) -> (r: (watch::Sender<Feedback>, watch::Receiver<Feedback>)) {
    watch::channel(init)
}

/// Relies on `tokio::sync::watch::Sender::send`: replaces the value in the
/// slot. It fails, returning false, when every receiver is gone; that
/// depends on the receivers alone, so nothing is stated of the result.
#[verifier::external_body]
pub(crate) fn send_feedback(tx: &watch::Sender<Feedback>, fb: Feedback) -> (r: bool) {
    tx.send(fb).is_ok()
}

} // verus!
