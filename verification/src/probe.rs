//! What an inline rule reports when it probes a position.
use std::ops::Range;
use vstd::prelude::*;

verus! {

/// How a probed span is classified.
#[derive(Clone, Copy, Debug, PartialEq, Eq, Structural)]
pub enum InlineProbeKind {
    /// Original source bytes appended to pending text, with no independent node.
    Text,
    /// A separately recognized token; clears pending text for following probes.
    Token,
}

/// Semantic changes applied only after a probe match is validated.
#[derive(Debug, Clone, Copy, PartialEq, Eq, Structural)]
pub struct InlineProbeEffects {
    /// Signed change to this session's link nesting level.
    pub link_level_delta: i32,
}

impl Default for InlineProbeEffects {
    fn default() -> (r: InlineProbeEffects)
        ensures
            r.link_level_delta == 0,
    {
        InlineProbeEffects { link_level_delta: 0 }
    }
}

/// Result reported by one inline rule for the current probe position.
#[derive(Clone, Copy, Debug, PartialEq, Eq, Structural)]
pub enum InlineProbeResult {
    /// The rule does not claim the current position in probe mode; normal
    /// `run` may still match it.
    NoMatch,
    /// The rule claims the span starting at this position.
    Match { len: usize, kind: InlineProbeKind },
    /// The rule claims the span and reports semantic effects.
    MatchWithEffects { len: usize, kind: InlineProbeKind, effects: InlineProbeEffects },
}

/// One classified span relative to the start of a probe session.
#[derive(Debug, PartialEq, Eq)]
pub struct InlineProbeToken {
    /// UTF-8 byte range relative to the beginning of this probe session.
    pub range: Range<usize>,
    /// Classification of the span.
    pub kind: InlineProbeKind,
}

impl InlineProbeResult {
    /// The span's length and kind, and the effects to apply (none for a
    /// plain match); `None` where the rule does not claim the position.
    pub fn claimed(self) -> (r: Option<(usize, InlineProbeKind, InlineProbeEffects)>)
        ensures
            match self {
                InlineProbeResult::NoMatch => r is None,
                InlineProbeResult::Match { len, kind } => r == Some((len, kind, InlineProbeEffects { link_level_delta: 0 })),
                InlineProbeResult::MatchWithEffects { len, kind, effects } => r == Some((len, kind, effects)),
            },
    {
        match self {
            InlineProbeResult::NoMatch => None,
            InlineProbeResult::Match { len, kind } => Some((len, kind, InlineProbeEffects::default())),
            InlineProbeResult::MatchWithEffects { len, kind, effects } => Some((len, kind, effects)),
        }
    }
}

} // verus!
