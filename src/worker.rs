//! Decisions of the worker that classifies gestures away from the
//! interactive thread, and of the consumer of its replies.

use crate::ranking::{is_ranking, rank, Score};
use crate::table::SymbolTable;
use vstd::prelude::*;

verus! {

/// What the worker learns next.
pub enum Event {
    /// A gesture with this many strokes was submitted.
    Request(usize),
    /// The request queue was closed: no more gestures will come.
    Hangup,
    /// The classifier finished the current gesture, with its scores, or
    /// with none when it gave no result.
    Scored(Option<Vec<Score>>),
}

/// What the worker does next.
pub enum Action {
    /// Hand the gesture to the classifier.
    Classify,
    /// Drop the gesture without a reply.
    Ignore,
    /// Send this reply: ranked symbol identifiers, or no result.
    Reply(Option<Vec<String>>),
    /// Leave the loop.
    Stop,
}

/// The worker's response to `event`. An empty gesture is never classified
/// and gets no result; a closed queue ends the loop; scores are ranked
/// against `table`.
pub fn step(table: &SymbolTable, event: Event) -> (r: Action)
    requires
        table.wf(),
    ensures
        event matches Event::Request(n) ==> (if n == 0 { r is Ignore } else { r is Classify }),
        event is Hangup ==> r is Stop,
        event matches Event::Scored(None) ==> r matches Action::Reply(None),
        event matches Event::Scored(Some(scores)) ==> (r matches Action::Reply(Some(ids)) && is_ranking(
            table,
            scores@,
            ids@,
        )),
{
    match event {
        Event::Request(n) => if n == 0 {
            Action::Ignore
        } else {
            Action::Classify
        },
        Event::Hangup => Action::Stop,
        Event::Scored(None) => Action::Reply(None),
        Event::Scored(Some(scores)) => Action::Reply(Some(rank(table, &scores))),
    }
}

/// The reply that the consumer shows out of those waiting: the newest, so
/// that a newer result supersedes older ones not yet consumed.
pub fn newest<T>(replies: Vec<T>) -> (r: Option<T>)
    ensures
        replies@.len() == 0 ==> r is None,
        replies@.len() > 0 ==> r == Some(replies@.last()),
{
    let mut replies = replies;
    replies.pop()
}

} // verus!
