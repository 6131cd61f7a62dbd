//! The records that open and close a turn.
use vstd::prelude::*;

verus! {

/// What the newest such record in a transcript was.
#[derive(Debug, Clone, Copy, PartialEq, Eq, Structural)]
pub enum Event {
    /// The user stopped the turn. No hook fires for one.
    Interrupt,
    /// The turn ended.
    Over,
    /// A prompt was typed.
    Prompt,
}

} // verus!
