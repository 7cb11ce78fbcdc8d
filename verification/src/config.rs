//! Run modes and the shape of the counting area.
use vstd::prelude::*;

verus! {

/// What a run does: count slime chunks around each chunk, or search for a
/// pattern.
#[derive(Debug, Clone, Copy, PartialEq, Eq)]
pub enum Mode {
    Check,
    Match,
}

/// How much the terminal shows.
#[derive(Debug, Clone, Copy, PartialEq, Eq)]
pub enum TerminalMode {
    /// Nothing is shown.
    Off,
    Basic,
    Full,
}

/// The area counted around a chunk: the full square, or the disc inside it.
#[derive(Debug, Clone, Copy, PartialEq, Eq)]
pub enum CountShape {
    Square,
    Circle,
}

/// The terminal shows anything at all.
pub fn is_enabled(mode: TerminalMode) -> (r: bool)
    ensures
        r == (mode != TerminalMode::Off),
{
    match mode {
        TerminalMode::Off => false,
        _ => true,
    }
}

/// The terminal shows progress in full.
pub fn is_full(mode: TerminalMode) -> (r: bool)
    ensures
        r == (mode == TerminalMode::Full),
{
    match mode {
        TerminalMode::Full => true,
        _ => false,
    }
}

} // verus!
