//! The bounded channel that carries the tasks of a database to its compactor.
//! The channel is the one piece of the engine that is not verified here: what
//! is stated of it below is taken on trust from the `flume` crate.

use vstd::prelude::*;
use crate::compaction::CompactTask;

verus! {

#[verifier::external_type_specification]
#[verifier::external_body]
#[verifier::reject_recursive_types(T)]
pub struct ExSender<T>(flume::Sender<T>);

#[verifier::external_type_specification]
#[verifier::external_body]
#[verifier::reject_recursive_types(T)]
pub struct ExReceiver<T>(flume::Receiver<T>);

/// The capacity that the channel of a sender was made with; `None` for a channel
/// without bound. It stands for what `flume::Sender::capacity` returns, which
/// never changes over the life of a channel.
pub uninterp spec fn task_capacity(tx: flume::Sender<CompactTask>) -> Option<usize>;

/// Calls `flume::bounded`: makes a channel that holds at most `cap` tasks and
/// returns its two ends. Trusted: the sender reports the capacity it was made
/// with.
#[verifier::external_body]
pub(crate) fn bounded_tasks(cap: usize) -> (ends: (
    flume::Sender<CompactTask>,
    flume::Receiver<CompactTask>,
))
    ensures
        task_capacity(ends.0) == Some(cap),
{
    flume::bounded(cap)
}

/// Calls `flume::Sender::try_send`: offers a task to the channel without
/// waiting, and tells whether the channel took it. The channel refuses a task
/// when it is full or when no receiver is left; nothing is claimed of which
/// happens.
#[verifier::external_body]
pub(crate) fn try_send_task(tx: &flume::Sender<CompactTask>, task: CompactTask) -> (sent: bool) {
    tx.try_send(task).is_ok()
}

} // verus!
