use vstd::prelude::*;

use crate::render::canvas::{
    bordered_inner, bordered_inner_spec, titles_view, Area, Ink, TitlePart, TitlePartView,
};
use crate::render::signal::{reading_ink, reading_text, signal_span};
use crate::sim::transistor::SignalGraph;

verus! {

/// The list of named signals and their current readings.
pub struct SignalPanel<'a> {
    pub graph: &'a SignalGraph,
}

/// One row of the panel: the signal's name, left-aligned in eight columns,
/// then its reading, clipped to `width` cells from `x`.
pub struct PanelLine {
    pub x: u16,
    pub y: u16,
    pub width: u16,
    pub label: String,
    pub reading: &'static str,
    pub ink: Ink,
}

/// What a panel row shows, as plain values.
pub type PanelLineView = (u16, u16, u16, Seq<char>, Seq<char>, Ink);

impl View for PanelLine {
    type V = PanelLineView;

    open spec fn view(&self) -> PanelLineView {
        (self.x, self.y, self.width, self.label@, self.reading@, self.ink)
    }
}

pub open spec fn lines_view(v: Seq<PanelLine>) -> Seq<PanelLineView> {
    v.map_values(|l: PanelLine| l@)
}

/// `name` padded with spaces to at least `w` characters.
pub open spec fn padded(name: Seq<char>, w: int) -> Seq<char> {
    if name.len() >= w {
        name
    } else {
        name + Seq::new((w - name.len()) as nat, |i: int| ' ')
    }
}

/// The rows for signals `i ..` of `g`: one for every named signal whose
/// row (`inner.y` plus its index, the index taken as u16) falls inside
/// the area.
pub open spec fn panel_rows(g: SignalGraph, inner: Area, i: int) -> Seq<PanelLineView>
    decreases g.signals@.len() - i,
{
    if i < 0 || i >= g.signals@.len() {
        Seq::empty()
    } else {
        let y = inner.y + (i as u16);
        let rest = panel_rows(g, inner, i + 1);
        match g.signal_names@[i] {
            Some(name) => if y >= inner.y + inner.height {
                rest
            } else {
                seq![
                    (
                        inner.x,
                        y as u16,
                        inner.width,
                        padded(name@, 8),
                        reading_text(g.signals@[i]),
                        reading_ink(g.signals@[i]),
                    ),
                ] + rest
            },
            None => rest,
        }
    }
}

/// Every row the panel computes fits in u16.
pub open spec fn panel_fits(g: SignalGraph, inner: Area) -> bool {
    forall|i: int|
        0 <= i < g.signals@.len() && (#[trigger] g.signal_names@[i]) is Some ==> inner.y + (i as u16) <= u16::MAX
            && inner.y + inner.height <= u16::MAX
}

/// `name`, left-aligned in `w` columns.
fn pad_to(name: &str, w: usize) -> (s: String)
    ensures
        s@ == padded(name@, w as int),
{
    let mut s = String::from_str(name);
    let len = name.unicode_len();
    let mut k = len;
    while k < w
        invariant
            len == name@.len(),
            len <= k <= w || (len >= w && k == len),
            s@ == name@ + Seq::new((k - len) as nat, |i: int| ' '),
        decreases w - k,
    {
        s.append(" ");
        k = k + 1;
        proof {
            reveal_strlit(" ");
        }
        assert(s@ =~= name@ + Seq::new((k - len) as nat, |i: int| ' '));
    }
    assert(name@ + Seq::new(0, |i: int| ' ') =~= name@);
    s
}

/// The panel's border title.
pub open spec fn panel_title_spec() -> Seq<TitlePartView> {
    seq![(" SIGNALS "@, Ink::LabelGold, false)]
}

/// The row signal `j` shows: its name padded to eight columns and the
/// reading and colour of the wire's current state, at `inner.y + j`.
pub open spec fn signal_row(g: SignalGraph, inner: Area, j: int) -> PanelLineView {
    (
        inner.x,
        (inner.y + (j as u16)) as u16,
        inner.width,
        padded(g.signal_names@[j]->Some_0@, 8),
        reading_text(g.signals@[j]),
        reading_ink(g.signals@[j]),
    )
}

/// Signal `j` is named and its row falls inside the area.
pub open spec fn row_shown(g: SignalGraph, inner: Area, j: int) -> bool {
    &&& 0 <= j < g.signals@.len()
    &&& g.signal_names@[j] is Some
    &&& inner.y + (j as u16) < inner.y + inner.height
}

/// `r` is the row of some named signal `j` from `lo` on whose row fits:
/// at `inner.y + j`, its name padded to eight columns, then the reading and
/// colour of the wire's current state.
pub open spec fn reads_wire(g: SignalGraph, inner: Area, r: PanelLineView, lo: int) -> bool {
    exists|j: int|
        lo <= j && #[trigger] row_shown(g, inner, j) && r == (
            inner.x,
            (inner.y + (j as u16)) as u16,
            inner.width,
            padded(g.signal_names@[j]->Some_0@, 8),
            reading_text(g.signals@[j]),
            reading_ink(g.signals@[j]),
        )
}

proof fn lemma_panel_rows_from(g: SignalGraph, inner: Area, i: int)
    requires
        0 <= i,
        g.signal_names@.len() == g.signals@.len(),
        panel_fits(g, inner),
    ensures
        forall|k: int|
            0 <= k < panel_rows(g, inner, i).len() ==> #[trigger] reads_wire(g, inner, panel_rows(g, inner, i)[k], i),
        forall|j: int| i <= j && #[trigger] row_shown(g, inner, j) ==> panel_rows(g, inner, i).contains(
            signal_row(g, inner, j),
        ),
    decreases g.signals@.len() - i,
{
    if i < g.signals@.len() {
        lemma_panel_rows_from(g, inner, i + 1);
        if row_shown(g, inner, i) {
            assert(inner.y + (i as u16) <= u16::MAX);
            assert(panel_rows(g, inner, i) == seq![signal_row(g, inner, i)] + panel_rows(g, inner, i + 1));
            assert forall|k: int|
                0 <= k < panel_rows(g, inner, i).len() implies #[trigger] reads_wire(g, inner, panel_rows(g, inner, i)[k], i) by {
                if k == 0 {
                    assert(row_shown(g, inner, i));
                } else {
                    assert(panel_rows(g, inner, i)[k] == panel_rows(g, inner, i + 1)[k - 1]);
                    assert(reads_wire(g, inner, panel_rows(g, inner, i + 1)[k - 1], i + 1));
                }
            }
            assert forall|j: int| i <= j && #[trigger] row_shown(g, inner, j) implies panel_rows(g, inner, i).contains(
                signal_row(g, inner, j),
            ) by {
                if j == i {
                    assert(panel_rows(g, inner, i)[0] == signal_row(g, inner, i));
                } else {
                    let k = choose|k: int|
                        0 <= k < panel_rows(g, inner, i + 1).len() && #[trigger] panel_rows(g, inner, i + 1)[k] == signal_row(
                            g,
                            inner,
                            j,
                        );
                    assert(panel_rows(g, inner, i)[k + 1] == panel_rows(g, inner, i + 1)[k]);
                }
            }
        } else {
            assert(panel_rows(g, inner, i) == panel_rows(g, inner, i + 1));
            assert forall|k: int|
                0 <= k < panel_rows(g, inner, i).len() implies #[trigger] reads_wire(g, inner, panel_rows(g, inner, i)[k], i) by {
                assert(panel_rows(g, inner, i)[k] == panel_rows(g, inner, i + 1)[k]);
                assert(reads_wire(g, inner, panel_rows(g, inner, i + 1)[k], i + 1));
            }
            assert forall|j: int| i <= j && #[trigger] row_shown(g, inner, j) implies panel_rows(g, inner, i).contains(
                signal_row(g, inner, j),
            ) by {
                assert(j != i);
            }
        }
    } else {
        assert(panel_rows(g, inner, i) =~= Seq::<PanelLineView>::empty());
    }
}

/// The panel shows the wires as they are: every row it lists is the row of
/// a named signal whose row fits in the area, reading that wire's current
/// state in its colour, and every such signal has its row.
pub proof fn lemma_panel_reads_wires(g: SignalGraph, inner: Area)
    requires
        g.signal_names@.len() == g.signals@.len(),
        panel_fits(g, inner),
    ensures
        forall|k: int|
            0 <= k < panel_rows(g, inner, 0).len() ==> #[trigger] reads_wire(g, inner, panel_rows(g, inner, 0)[k], 0),
        forall|j: int|
            #[trigger] row_shown(g, inner, j) ==> panel_rows(g, inner, 0).contains(
                (
                    inner.x,
                    (inner.y + (j as u16)) as u16,
                    inner.width,
                    padded(g.signal_names@[j]->Some_0@, 8),
                    reading_text(g.signals@[j]),
                    reading_ink(g.signals@[j]),
                ),
            ),
{
    lemma_panel_rows_from(g, inner, 0);
}

impl<'a> SignalPanel<'a> {
    /// The border title: " SIGNALS " in label gold.
    pub fn title(&self) -> (t: Vec<TitlePart>)
        ensures
            titles_view(t@) == panel_title_spec(),
    {
        let mut t: Vec<TitlePart> = Vec::new();
        t.push(TitlePart { text: String::from_str(" SIGNALS "), ink: Ink::LabelGold, bold: false });
        assert(titles_view(t@) =~= panel_title_spec());
        t
    }

    /// The colour of the panel's border.
    pub fn border_ink(&self) -> (ink: Ink)
        ensures
            ink == Ink::PanelBorder,
    {
        Ink::PanelBorder
    }

    /// The panel's rows inside a bordered `area`, top to bottom.
    pub fn lines(&self, area: Area) -> (r: Vec<PanelLine>)
        requires
            self.graph.signal_names@.len() == self.graph.signals@.len(),
            panel_fits(*self.graph, bordered_inner_spec(area)),
        ensures
            lines_view(r@) == panel_rows(*self.graph, bordered_inner_spec(area), 0),
    {
        let inner = bordered_inner(area);
        let ghost g = *self.graph;
        let mut out: Vec<PanelLine> = Vec::new();
        let n = self.graph.signals.len();
        let mut i: usize = 0;
        while i < n
            invariant
                g == *self.graph,
                g.signal_names@.len() == g.signals@.len(),
                n == g.signals@.len(),
                i <= n,
                inner == bordered_inner_spec(area),
                panel_fits(g, inner),
                lines_view(out@) + panel_rows(g, inner, i as int) == panel_rows(g, inner, 0),
            decreases n - i,
        {
            let ghost before = lines_view(out@);
            proof {
                reveal_with_fuel(panel_rows, 2);
            }
            match &self.graph.signal_names[i] {
                Some(name) => {
                    assert(g.signal_names@[i as int] is Some);
                    let y = inner.y + (i as u16);
                    if y < inner.y + inner.height {
                        let (reading, ink) = signal_span(self.graph.signals[i]);
                        out.push(PanelLine { x: inner.x, y, width: inner.width, label: pad_to(name.as_str(), 8), reading, ink });
                        assert(lines_view(out@) =~= before.push(lines_view(out@).last()));
                    }
                },
                None => {},
            }
            assert(lines_view(out@) + panel_rows(g, inner, i + 1) =~= before + panel_rows(g, inner, i as int));
            i = i + 1;
        }
        assert(lines_view(out@) + panel_rows(g, inner, n as int) =~= lines_view(out@));
        out
    }
}


impl<'a> SignalPanel<'a> {
    /// Whether every row of the panel fits in u16 inside a bordered `area`
    /// (see `lines`).
    pub fn can_list(&self, area: Area) -> (b: bool)
        requires
            self.graph.signal_names@.len() == self.graph.signals@.len(),
        ensures
            b == panel_fits(*self.graph, bordered_inner_spec(area)),
    {
        let inner = bordered_inner(area);
        let ghost g = *self.graph;
        let bottom_ok = (inner.y as u32) + (inner.height as u32) <= 65535;
        for i in 0..self.graph.signals.len()
            invariant
                g == *self.graph,
                g.signal_names@.len() == g.signals@.len(),
                inner == bordered_inner_spec(area),
                bottom_ok == (inner.y + inner.height <= u16::MAX),
                forall|j: int|
                    0 <= j < i && (#[trigger] g.signal_names@[j]) is Some ==> inner.y + (j as u16) <= u16::MAX
                        && inner.y + inner.height <= u16::MAX,
        {
            if self.graph.signal_names[i].is_some() {
                if !bottom_ok || (inner.y as u32) + ((i as u16) as u32) > 65535 {
                    assert(g.signal_names@[i as int] is Some);
                    return false;
                }
            }
        }
        true
    }
}

} // verus!
