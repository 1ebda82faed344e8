//! The presence state machine: what was last announced to the presence
//! service, and the single action each tick emits.
//!
//! Re-announcing an unchanged identity every tick would reset its displayed
//! elapsed time and spam the service, so an update is emitted only when the
//! resolved identity differs from the announced one; a clear is emitted
//! only when nothing resolves while something is announced.

use vstd::prelude::*;
use crate::config::Target;
use crate::textfmt::{layout, layout_sp};

verus! {

/// Per-line character limit of the presence service's two-line display.
pub const LINE_LIMIT: usize = 35;

/// What the presence service currently shows.
#[derive(Debug, Clone, PartialEq, Eq)]
pub enum PresenceState {
    /// Nothing is announced.
    Idle,
    /// `process_name` is announced, since epoch second `start_time`.
    Announcing { process_name: String, start_time: i64 },
}

/// The one action a tick emits toward the presence service.
#[derive(Debug, Clone, PartialEq, Eq)]
pub enum Action {
    /// Leave the presence as it is.
    Noop,
    /// Clear the announced activity.
    Clear,
    /// Announce an activity: two display lines (the second omitted when
    /// empty), an image key and the start timestamp in epoch seconds.
    Update { details: String, state_line: Option<String>, image: String, start: i64 },
}

/// The process name a state announces, if any.
pub open spec fn announced_name(s: PresenceState) -> Option<Seq<char>> {
    match s {
        PresenceState::Idle => None,
        PresenceState::Announcing { process_name, .. } => Some(process_name@),
    }
}

/// One tick of the state machine: from the announced state and the resolved
/// target (highest-priority running target, if any), the successor state and
/// exactly one action. An update is emitted if and only if a target resolved
/// whose name differs from the announced one; a clear if and only if nothing
/// resolved while something was announced; the start time of an unchanged
/// identity is preserved, never refreshed.
pub fn tick(state: PresenceState, resolved: Option<&Target>, now: i64) -> (r: (
    PresenceState,
    Action,
))
    ensures
        (r.1 is Update) == (match resolved {
            Some(t) => announced_name(state) != Some(t.process_name@),
            None => false,
        }),
        (r.1 is Clear) == (resolved is None && state is Announcing),
        match resolved {
            None => r.0 is Idle,
            Some(t) => {
                if announced_name(state) == Some(t.process_name@) {
                    &&& r.0 == state
                    &&& r.1 is Noop
                } else {
                    &&& (r.0 matches PresenceState::Announcing { process_name, start_time }
                        && process_name@ == t.process_name@ && start_time == now)
                    &&& (r.1 matches Action::Update { details, state_line, image, start } && {
                        &&& details@ == layout_sp(t.display_name@, LINE_LIMIT as int).0
                        &&& match state_line {
                            None => layout_sp(t.display_name@, LINE_LIMIT as int).1.len() == 0,
                            Some(l2) => l2@ == layout_sp(t.display_name@, LINE_LIMIT as int).1
                                && l2@.len() > 0,
                        }
                        &&& image@ == t.image@
                        &&& start == now
                    })
                }
            },
        },
{
    match resolved {
        None => {
            match state {
                PresenceState::Idle => (PresenceState::Idle, Action::Noop),
                PresenceState::Announcing { .. } => (PresenceState::Idle, Action::Clear),
            }
        },
        Some(t) => {
            let same = match &state {
                PresenceState::Announcing { process_name, .. } => *process_name
                    == t.process_name,
                PresenceState::Idle => false,
            };
            if same {
                (state, Action::Noop)
            } else {
                let lines = layout(t.display_name.as_str(), LINE_LIMIT);
                let state_line = if lines.line2.as_str().is_empty() {
                    None
                } else {
                    Some(lines.line2)
                };
                (
                    PresenceState::Announcing {
                        process_name: t.process_name.clone(),
                        start_time: now,
                    },
                    Action::Update {
                        details: lines.line1,
                        state_line,
                        image: t.image.clone(),
                        start: now,
                    },
                )
            }
        },
    }
}

} // verus!
