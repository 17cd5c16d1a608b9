use vstd::prelude::*;

use crate::sim::transistor::SignalState;

verus! {

/// A rectangle of terminal cells.
#[derive(Clone, Copy, PartialEq, Eq, Structural, Debug)]
pub struct Area {
    pub x: u16,
    pub y: u16,
    pub width: u16,
    pub height: u16,
}

/// The colours a drawing uses; the front end maps each to a terminal colour.
#[derive(Clone, Copy, PartialEq, Eq, Structural, Debug)]
pub enum Ink {
    /// active gold: the border of a gate whose output is High
    AccentGold,
    /// a High wire
    GoldBright,
    /// a Low or floating wire, the cluster delimiters
    GoldDim,
    /// a wire in conflict
    ConflictRed,
    /// dense silicon texture in transistor regions
    SiliconActive,
    /// patchy silicon texture between clusters
    SiliconField,
    /// light silicon texture under metal traces
    SiliconTrace,
    /// signal names in the signal panel
    LabelGold,
    /// a High reading in the signal panel
    Cyan,
    /// a Low reading in the signal panel
    DarkGray,
    /// a floating reading in the signal panel
    Gray,
    /// a conflict reading in the signal panel
    Red,
    /// the etched prefix of a drawing's title
    SilkEtch,
    /// the border of the signal panel
    PanelBorder,
}

/// Text to write at a cell, in a colour, possibly bold.
pub struct Stroke {
    pub x: u16,
    pub y: u16,
    pub text: String,
    pub ink: Ink,
    pub bold: bool,
}

/// What a stroke writes, as plain values.
pub type StrokeView = (u16, u16, Seq<char>, Ink, bool);

impl View for Stroke {
    type V = StrokeView;

    open spec fn view(&self) -> StrokeView {
        (self.x, self.y, self.text@, self.ink, self.bold)
    }
}

pub open spec fn strokes_view(v: Seq<Stroke>) -> Seq<StrokeView> {
    v.map_values(|s: Stroke| s@)
}

/// A piece of a border title: text in a colour, possibly bold.
pub struct TitlePart {
    pub text: String,
    pub ink: Ink,
    pub bold: bool,
}

/// What a title piece shows, as plain values.
pub type TitlePartView = (Seq<char>, Ink, bool);

impl View for TitlePart {
    type V = TitlePartView;

    open spec fn view(&self) -> TitlePartView {
        (self.text@, self.ink, self.bold)
    }
}

pub open spec fn titles_view(v: Seq<TitlePart>) -> Seq<TitlePartView> {
    v.map_values(|t: TitlePart| t@)
}

pub open spec fn sat_add(a: u16, b: u16) -> u16 {
    if a + b > u16::MAX { u16::MAX } else { (a + b) as u16 }
}

pub open spec fn sat_sub(a: u16, b: u16) -> u16 {
    if a < b { 0 } else { (a - b) as u16 }
}

pub open spec fn min_u16(a: u16, b: u16) -> u16 {
    if a < b { a } else { b }
}

/// The inside of an area framed by a border on all four sides.
pub open spec fn bordered_inner_spec(a: Area) -> Area {
    Area {
        x: min_u16(sat_add(a.x, 1), sat_add(a.x, a.width)),
        y: min_u16(sat_add(a.y, 1), sat_add(a.y, a.height)),
        width: sat_sub(a.width, 2),
        height: sat_sub(a.height, 2),
    }
}

/// The area inside a ratatui block with borders on all sides
/// (`Block::bordered().inner`). The block moves the top-left corner one
/// cell in, without passing the right or bottom edge, and takes one cell
/// off each side, saturating at zero.
#[verifier::external_body]
pub(crate) fn bordered_inner(area: Area) -> (inner: Area)
    ensures
        inner == bordered_inner_spec(area),
{
    let r = ratatui::widgets::Block::bordered().inner(ratatui::layout::Rect {
        x: area.x,
        y: area.y,
        width: area.width,
        height: area.height,
    });
    Area { x: r.x, y: r.y, width: r.width, height: r.height }
}

/// The colour of a wire drawn in a circuit.
pub open spec fn wire_ink_spec(state: SignalState) -> Ink {
    match state {
        SignalState::High => Ink::GoldBright,
        SignalState::Low => Ink::GoldDim,
        SignalState::Floating => Ink::GoldDim,
        SignalState::Conflict => Ink::ConflictRed,
    }
}

pub fn wire_ink(state: SignalState) -> (ink: Ink)
    ensures
        ink == wire_ink_spec(state),
{
    match state {
        SignalState::High => Ink::GoldBright,
        SignalState::Low => Ink::GoldDim,
        SignalState::Floating => Ink::GoldDim,
        SignalState::Conflict => Ink::ConflictRed,
    }
}

} // verus!
