use vstd::prelude::*;

use crate::render::canvas::Ink;
use crate::sim::transistor::SignalState;

verus! {

/// The reading the signal panel shows for a wire state: a bar of glyphs and
/// a short word.
pub open spec fn reading_text(state: SignalState) -> Seq<char> {
    match state {
        SignalState::High => "━━━  HIGH"@,
        SignalState::Low => "╌╌╌  LOW"@,
        SignalState::Floating => "───  FLT"@,
        SignalState::Conflict => "▓▓▓  CON"@,
    }
}

/// The colour of that reading.
pub open spec fn reading_ink(state: SignalState) -> Ink {
    match state {
        SignalState::High => Ink::Cyan,
        SignalState::Low => Ink::DarkGray,
        SignalState::Floating => Ink::Gray,
        SignalState::Conflict => Ink::Red,
    }
}

/// The reading of a wire state and its colour:
///
/// ```text
/// High     -> "━━━  HIGH"   cyan
/// Low      -> "╌╌╌  LOW"    dark gray
/// Floating -> "───  FLT"    gray
/// Conflict -> "▓▓▓  CON"    red
/// ```
pub fn signal_span(signal: SignalState) -> (span: (&'static str, Ink))
    ensures
        span.0@ == reading_text(signal),
        span.1 == reading_ink(signal),
{
    match signal {
        SignalState::High => ("━━━  HIGH", Ink::Cyan),
        SignalState::Low => ("╌╌╌  LOW", Ink::DarkGray),
        SignalState::Floating => ("───  FLT", Ink::Gray),
        SignalState::Conflict => ("▓▓▓  CON", Ink::Red),
    }
}

} // verus!
