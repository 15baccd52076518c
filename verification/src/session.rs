//! The per-game configuration session: `Unloaded -> Loaded -> Dirty -> Saved`.
//! The interactive shell runs the loop — it performs loads, edits and saves —
//! and feeds each event through [`step`], so at most one mutating operation is
//! in flight per game and a dirty configuration is never mistaken for a saved
//! one.

use vstd::prelude::*;

verus! {

/// Where a game's in-memory configuration stands relative to its file.
#[derive(Clone, Copy, Debug, PartialEq, Eq, Structural)]
pub enum SessionState {
    /// Nothing loaded yet.
    Unloaded,
    /// Loaded from disk (or fresh) and not edited since.
    Loaded,
    /// Edited since the last load or save.
    Dirty,
    /// Saved since the last edit.
    Saved,
}

/// What just happened to the configuration.
#[derive(Clone, Copy, Debug, PartialEq, Eq, Structural)]
pub enum SessionEvent {
    /// The configuration was (re)loaded from its file.
    Load,
    /// An external mutation: enable toggle, category edit, reorder.
    Mutate,
    /// The configuration was written to its file.
    Save,
}

/// The transition table: a load always yields `Loaded`; a mutation makes a
/// loaded or saved configuration `Dirty`; a save makes it `Saved`. Before the
/// first load, mutations and saves have nothing to act on.
pub open spec fn step_spec(s: SessionState, ev: SessionEvent) -> SessionState {
    match (s, ev) {
        (_, SessionEvent::Load) => SessionState::Loaded,
        (SessionState::Unloaded, _) => SessionState::Unloaded,
        (_, SessionEvent::Mutate) => SessionState::Dirty,
        (_, SessionEvent::Save) => SessionState::Saved,
    }
}

/// Advances the session state by one event.
pub fn step(s: SessionState, ev: SessionEvent) -> (r: SessionState)
    ensures
        r == step_spec(s, ev),
{
    match (s, ev) {
        (_, SessionEvent::Load) => SessionState::Loaded,
        (SessionState::Unloaded, _) => SessionState::Unloaded,
        (_, SessionEvent::Mutate) => SessionState::Dirty,
        (_, SessionEvent::Save) => SessionState::Saved,
    }
}

} // verus!
