//! The scheduler's decision core.
//!
//! The cooperative loop waits on three sources — native resize
//! notifications, queued user events, and the diff engine's render-ready
//! signal — and whichever becomes ready first wins. What to do with each
//! is decided here; the toolkit adapter performs the action and hands the
//! next ready source back.

use vstd::prelude::*;
use crate::events::UserEventRecord;

verus! {

/// One ready source, as the loop observes it.
pub enum LoopEvent {
    /// The native window's geometry changed.
    Resize,
    /// The diff engine has edits ready to pull.
    RenderReady,
    /// A native input occurrence was dequeued.
    User(UserEventRecord),
}

/// What the loop must do for one ready source.
pub enum LoopAction {
    /// Re-run the layout compute and re-apply geometry; no edits.
    RecomputeLayout,
    /// Pull and apply the ready edit batches, then recompute layout.
    ApplyThenRecompute,
    /// Forward the record to the diff engine's message channel.
    ForwardEvent(UserEventRecord),
}

/// The scheduler's dispatch: a resize recomputes layout only, a
/// render-ready signal applies edits and then recomputes, and a user
/// event is forwarded unchanged to the diff engine.
pub fn dispatch(e: LoopEvent) -> (a: LoopAction)
    ensures
        match e {
            LoopEvent::Resize => a == LoopAction::RecomputeLayout,
            LoopEvent::RenderReady => a == LoopAction::ApplyThenRecompute,
            LoopEvent::User(u) => a == LoopAction::ForwardEvent(u),
        },
{
    match e {
        LoopEvent::Resize => LoopAction::RecomputeLayout,
        LoopEvent::RenderReady => LoopAction::ApplyThenRecompute,
        LoopEvent::User(u) => LoopAction::ForwardEvent(u),
    }
}

} // verus!
