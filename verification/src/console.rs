use vstd::prelude::*;

use crate::sim::transistor::SignalState;

verus! {

/// How the simulation clock advances.
#[derive(Clone, Copy, PartialEq, Eq, Structural, Debug)]
pub enum TickMode {
    /// one tick per key press
    Manual,
    /// one tick every so many milliseconds
    Auto(u64),
    /// no ticks
    Paused,
}

/// What the front end does in answer to a key.
#[derive(Clone, Copy, PartialEq, Eq, Structural, Debug)]
pub enum Command {
    Quit,
    /// flip the drive of input A and propagate
    ToggleA,
    /// flip the drive of input B and propagate
    ToggleB,
    /// advance the clock one tick
    Step,
    Nothing,
}

/// The answer to a key: the next tick mode, the command, and whether the
/// tick timer restarts.
pub open spec fn key_outcome(mode: TickMode, key: char) -> (TickMode, Command, bool) {
    if key == 'q' {
        (mode, Command::Quit, false)
    } else if key == '1' {
        (mode, Command::ToggleA, false)
    } else if key == '2' {
        (mode, Command::ToggleB, false)
    } else if key == 't' {
        (mode, Command::Step, false)
    } else if key == 'a' {
        (TickMode::Auto(100), Command::Nothing, true)
    } else if key == 's' {
        (TickMode::Auto(500), Command::Nothing, true)
    } else if key == 'f' {
        (TickMode::Auto(16), Command::Nothing, true)
    } else if key == ' ' {
        (TickMode::Paused, Command::Nothing, false)
    } else {
        (mode, Command::Nothing, false)
    }
}

/// The answer to a key press: `q` quits, `1` and `2` flip the inputs, `t`
/// steps the clock, `a`, `s` and `f` run it every 100, 500 or 16 ms, and
/// the space bar pauses it.
pub fn on_key(mode: TickMode, key: char) -> (r: (TickMode, Command, bool))
    ensures
        r == key_outcome(mode, key),
{
    match key {
        'q' => (mode, Command::Quit, false),
        '1' => (mode, Command::ToggleA, false),
        '2' => (mode, Command::ToggleB, false),
        't' => (mode, Command::Step, false),
        'a' => (TickMode::Auto(100), Command::Nothing, true),
        's' => (TickMode::Auto(500), Command::Nothing, true),
        'f' => (TickMode::Auto(16), Command::Nothing, true),
        ' ' => (TickMode::Paused, Command::Nothing, false),
        _ => (mode, Command::Nothing, false),
    }
}

/// A tick is due when the clock runs on its own and its interval has passed.
pub fn tick_due(mode: TickMode, elapsed_ms: u64) -> (due: bool)
    ensures
        due == (match mode {
            TickMode::Auto(ms) => elapsed_ms >= ms,
            _ => false,
        }),
{
    match mode {
        TickMode::Auto(ms) => elapsed_ms >= ms,
        _ => false,
    }
}

pub open spec fn next_drive_spec(current: Option<SignalState>) -> SignalState {
    match current {
        Some(SignalState::High) => SignalState::Low,
        Some(SignalState::Low) => SignalState::High,
        _ => SignalState::Low,
    }
}

/// The drive an input flips to: High and Low swap; an input that is not
/// driven High or Low goes Low.
pub fn next_drive(current: Option<SignalState>) -> (next: SignalState)
    ensures
        next == next_drive_spec(current),
{
    match current {
        Some(SignalState::High) => SignalState::Low,
        Some(SignalState::Low) => SignalState::High,
        _ => SignalState::Low,
    }
}

pub open spec fn mode_label_spec(mode: TickMode) -> Seq<char> {
    match mode {
        TickMode::Paused => "PAUSED "@,
        TickMode::Manual => "MANUAL "@,
        TickMode::Auto(ms) => if ms == 100 {
            "AUTO (slow) "@
        } else if ms == 500 {
            "AUTO (slower)"@
        } else if ms == 16 {
            "AUTO (fast) "@
        } else {
            "AUTO"@
        },
    }
}

/// The tick mode as the status bar names it.
pub fn mode_label(mode: TickMode) -> (label: &'static str)
    ensures
        label@ == mode_label_spec(mode),
{
    match mode {
        TickMode::Paused => "PAUSED ",
        TickMode::Manual => "MANUAL ",
        TickMode::Auto(ms) => if ms == 100 {
            "AUTO (slow) "
        } else if ms == 500 {
            "AUTO (slower)"
        } else if ms == 16 {
            "AUTO (fast) "
        } else {
            "AUTO"
        },
    }
}

/// The clock wire as the status bar shows it.
pub fn clock_label(state: SignalState) -> (label: &'static str)
    ensures
        label@ == (if state == SignalState::High { "CLK: HIGH"@ } else { "CLK: LOW "@ }),
{
    if state == SignalState::High {
        "CLK: HIGH"
    } else {
        "CLK: LOW "
    }
}

} // verus!
