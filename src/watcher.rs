//! The decisions of the background watcher. The caller subscribes to the
//! watch directories, receives debounced batches of change events, and runs
//! a scan whenever `watch_step` says so.
use vstd::prelude::*;

verus! {

/// How long the watcher waits for a burst of events to settle, in milliseconds.
pub const DEBOUNCE_MS: u64 = 2000;

/// The kind of a debounced change event.
#[derive(Clone, Copy, Debug, PartialEq, Eq, Structural)]
pub enum ChangeKind {
    /// The path changed and has settled.
    Any,
    /// The path is still changing.
    AnyContinuous,
}

/// One debounced change event.
pub struct WatchEvent {
    /// The extension of the changed path, where it has one that is text.
    pub extension: Option<String>,
    pub kind: ChangeKind,
}

#[derive(Clone, Copy, Debug, PartialEq, Eq, Structural)]
pub enum WatchState {
    /// Subscribing to the watch directories.
    Initializing,
    /// Waiting for the next batch of events.
    Listening,
    /// Ended: setup failed or the watcher was cancelled.
    Stopped,
}

pub enum WatchInput {
    /// The subscriptions are in place (directories that failed were passed over).
    Subscribed,
    /// No watcher could be set up at all.
    SetupFailed,
    /// A debounced batch of events arrived.
    Batch(Vec<WatchEvent>),
    /// The event source reported an error instead of a batch.
    BatchFailed,
    /// The owner asked the watcher to end.
    Cancel,
}

#[derive(Clone, Copy, Debug, PartialEq, Eq, Structural)]
pub enum WatchAction {
    /// Nothing to do; wait for the next input.
    Wait,
    /// Run one scan, then announce the new clip count.
    Rescan,
    /// End the watch loop.
    Stop,
}

/// `e` is `mp4` in any mix of ASCII case.
pub open spec fn is_mp4_extension(e: Seq<char>) -> bool {
    &&& e.len() == 3
    &&& (e[0] == 'm' || e[0] == 'M')
    &&& (e[1] == 'p' || e[1] == 'P')
    &&& e[2] == '4'
}

/// A settled change to a file with an `.mp4` extension.
pub open spec fn triggers_scan(e: WatchEvent) -> bool {
    e.kind == ChangeKind::Any && (e.extension matches Some(x) && is_mp4_extension(x@))
}

pub open spec fn batch_triggers_scan(events: Seq<WatchEvent>) -> bool {
    exists|i: int| 0 <= i < events.len() && triggers_scan(#[trigger] events[i])
}

/// The watcher's next state and action.
pub open spec fn next_step(state: WatchState, input: WatchInput) -> (WatchState, WatchAction) {
    match (state, input) {
        (WatchState::Stopped, _) => (WatchState::Stopped, WatchAction::Stop),
        (_, WatchInput::Cancel) => (WatchState::Stopped, WatchAction::Stop),
        (WatchState::Initializing, WatchInput::Subscribed) => (WatchState::Listening, WatchAction::Wait),
        (WatchState::Initializing, WatchInput::SetupFailed) => (WatchState::Stopped, WatchAction::Stop),
        (WatchState::Listening, WatchInput::Batch(events)) => (
            WatchState::Listening,
            if batch_triggers_scan(events@) {
                WatchAction::Rescan
            } else {
                WatchAction::Wait
            },
        ),
        (s, _) => (s, WatchAction::Wait),
    }
}

/// Whether `e` is a settled change to an `.mp4` file.
pub fn event_triggers_scan(e: &WatchEvent) -> (r: bool)
    ensures
        r == triggers_scan(*e),
{
    if e.kind != ChangeKind::Any {
        return false;
    }
    match &e.extension {
        Some(x) => {
            let s = x.as_str();
            if s.unicode_len() != 3 {
                return false;
            }
            let a = s.get_char(0);
            let b = s.get_char(1);
            let c = s.get_char(2);
            (a == 'm' || a == 'M') && (b == 'p' || b == 'P') && c == '4'
        },
        None => false,
    }
}

/// Whether a batch holds at least one event that calls for a scan.
pub fn batch_qualifies(events: &Vec<WatchEvent>) -> (r: bool)
    ensures
        r == batch_triggers_scan(events@),
{
    let mut i: usize = 0;
    while i < events.len()
        invariant
            i <= events@.len(),
            forall|k: int| 0 <= k < i ==> !triggers_scan(#[trigger] events@[k]),
        decreases events.len() - i,
    {
        if event_triggers_scan(&events[i]) {
            return true;
        }
        i = i + 1;
    }
    false
}

/// One step of the watch loop: from the current state and what just
/// happened, the next state and what to do.
pub fn watch_step(state: WatchState, input: &WatchInput) -> (r: (WatchState, WatchAction))
    ensures
        r == next_step(state, *input),
{
    match state {
        WatchState::Stopped => (WatchState::Stopped, WatchAction::Stop),
        _ => match input {
            WatchInput::Cancel => (WatchState::Stopped, WatchAction::Stop),
            WatchInput::Subscribed => match state {
                WatchState::Initializing => (WatchState::Listening, WatchAction::Wait),
                _ => (state, WatchAction::Wait),
            },
            WatchInput::SetupFailed => match state {
                WatchState::Initializing => (WatchState::Stopped, WatchAction::Stop),
                _ => (state, WatchAction::Wait),
            },
            WatchInput::Batch(events) => match state {
                WatchState::Listening => {
                    if batch_qualifies(events) {
                        (WatchState::Listening, WatchAction::Rescan)
                    } else {
                        (WatchState::Listening, WatchAction::Wait)
                    }
                },
                _ => (state, WatchAction::Wait),
            },
            WatchInput::BatchFailed => (state, WatchAction::Wait),
        },
    }
}

} // verus!
