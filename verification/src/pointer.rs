//! What clicks and drags on a plot do to markers, links, signals and the view.

use crate::camera::TimeBase;
use crate::colours::marker_colour;
use crate::markers::MarkerSet;
use crate::num::{number_below, number_is_nan};
use crate::panels::ScalarPanel;
use crate::store::ChannelId;
use vstd::prelude::*;

verus! {

use crate::colours::MARKER_PALETTE;
use crate::markers::{has_link, has_marker, is_link_at, is_marker_at, LinkView, MarkerView, MarkersView};
use crate::num::{below, is_nan};

broadcast use vstd::std_specs::btree::group_btree_axioms;

/// The marker or the link that the pointer holds.
#[derive(Clone, Copy, Debug, PartialEq, Eq)]
pub struct Dragging {
    pub marker: Option<u64>,
    pub link: Option<u64>,
}

impl Dragging {
    /// Nothing is held.
    pub fn new() -> (r: Self)
        ensures
            r.marker is None,
            r.link is None,
    {
        Dragging { marker: None, link: None }
    }

    /// Takes hold of what the pointer hit; a marker goes before a link.
    pub fn begin(&mut self, marker_hit: Option<u64>, link_hit: Option<u64>)
        ensures
            *final(self) == (if marker_hit is Some {
                Dragging { marker: marker_hit, ..*old(self) }
            } else if link_hit is Some {
                Dragging { link: link_hit, ..*old(self) }
            } else {
                *old(self)
            }),
    {
        if marker_hit.is_some() {
            self.marker = marker_hit;
        } else if link_hit.is_some() {
            self.link = link_hit;
        }
    }

    /// Moves what is held: a marker to a time, a link to a height.
    pub fn drag(&self, markers: &mut MarkerSet, t_ns: Option<u64>, y_frac: Option<u32>)
        requires
            old(markers)@.wf(),
        ensures
            final(markers)@.wf(),
            final(markers)@ == dragged(*self, old(markers)@, t_ns, y_frac),
    {
        let ghost start = markers@;
        match (self.marker, t_ns) {
            (Some(id), Some(t)) => {
                match markers.get_mut(id) {
                    Some(m) => {
                        m.t_ns = t;
                    },
                    None => {},
                }
                proof {
                    lemma_marker_moved(start, id, t);
                    assert(markers@ =~= start.with_marker_at(id, t));
                }
            },
            _ => {},
        }
        let ghost mid = markers@;
        match (self.link, y_frac) {
            (Some(id), Some(y)) => {
                match markers.get_link_mut(id) {
                    Some(l) => {
                        l.y_frac = y;
                    },
                    None => {},
                }
                proof {
                    lemma_link_moved(mid, id, y);
                    assert(markers@ =~= mid.with_link_at(id, y));
                }
            },
            _ => {},
        }
    }

    /// Lets go.
    pub fn end(&mut self)
        ensures
            final(self).marker is None,
            final(self).link is None,
    {
        self.marker = None;
        self.link = None;
    }

    /// Whether the primary button is free to move the view.
    pub fn primary_free(&self, marker_mode: bool) -> (r: bool)
        ensures
            r == (self.marker is None && !marker_mode),
    {
        self.marker.is_none() && !marker_mode
    }
}

impl MarkersView {
    /// The set with a marker moved to a time.
    pub open spec fn with_marker_at(self, id: u64, t: u64) -> MarkersView {
        MarkersView {
            markers: self.markers.map_values(
                |m: MarkerView|
                    if m.id == id {
                        MarkerView { t_ns: t, ..m }
                    } else {
                        m
                    },
            ),
            ..self
        }
    }

    /// The set with a link moved to a height.
    pub open spec fn with_link_at(self, id: u64, y_frac: u32) -> MarkersView {
        MarkersView {
            links: self.links.map_values(
                |l: LinkView|
                    if l.id == id {
                        LinkView { y_frac, ..l }
                    } else {
                        l
                    },
            ),
            ..self
        }
    }

    /// The set with one more marker, which is selected.
    pub open spec fn with_placed(self, t_ns: u64) -> MarkersView {
        MarkersView {
            selected: Some(self.next_id),
            ..self.with_marker(t_ns, MARKER_PALETTE@[self.markers.len() as int % 6])
        }
    }

    /// The set with one more marker, which is selected and linked to another.
    pub open spec fn with_linked(self, anchor: u64, t_ns: u64, signals: Seq<ChannelId>) -> MarkersView {
        MarkersView {
            selected: Some(self.next_id),
            ..self.with_marker(t_ns, MARKER_PALETTE@[self.markers.len() as int % 6]).with_link(
                anchor,
                self.next_id,
                signals,
            )
        }
    }
}

/// The markers after a drag.
pub open spec fn dragged(
    d: Dragging,
    m: MarkersView,
    t_ns: Option<u64>,
    y_frac: Option<u32>,
) -> MarkersView {
    let moved = if d.marker is Some && t_ns is Some {
        m.with_marker_at(d.marker->0, t_ns->0)
    } else {
        m
    };
    if d.link is Some && y_frac is Some {
        moved.with_link_at(d.link->0, y_frac->0)
    } else {
        moved
    }
}

proof fn lemma_marker_moved(m: MarkersView, id: u64, t: u64)
    requires
        m.wf(),
    ensures
        m.with_marker_at(id, t).wf(),
        forall|i: int| #[trigger]
            is_marker_at(m.markers, id, i) ==> m.with_marker_at(id, t).markers == m.markers.update(
                i,
                MarkerView { t_ns: t, ..m.markers[i] },
            ),
        !has_marker(m.markers, id) ==> m.with_marker_at(id, t) == m,
{
    let n = m.with_marker_at(id, t);
    assert(forall|i: int| 0 <= i < m.markers.len() ==> (#[trigger] n.markers[i]).id
        == m.markers[i].id);
    assert forall|i: int| #[trigger] is_marker_at(m.markers, id, i) implies n.markers
        == m.markers.update(i, MarkerView { t_ns: t, ..m.markers[i] }) by {
        assert(n.markers =~= m.markers.update(i, MarkerView { t_ns: t, ..m.markers[i] }));
    }
    if !has_marker(m.markers, id) {
        assert(n.markers =~= m.markers);
    }
}

proof fn lemma_link_moved(m: MarkersView, id: u64, y_frac: u32)
    requires
        m.wf(),
    ensures
        m.with_link_at(id, y_frac).wf(),
        forall|i: int| #[trigger]
            is_link_at(m.links, id, i) ==> m.with_link_at(id, y_frac).links == m.links.update(
                i,
                LinkView { y_frac, ..m.links[i] },
            ),
        !has_link(m.links, id) ==> m.with_link_at(id, y_frac) == m,
{
    let n = m.with_link_at(id, y_frac);
    assert(forall|i: int| 0 <= i < m.links.len() ==> (#[trigger] n.links[i]).id == m.links[i].id);
    assert forall|i: int| #[trigger] is_link_at(m.links, id, i) implies n.links == m.links.update(
        i,
        LinkView { y_frac, ..m.links[i] },
    ) by {
        assert(n.links =~= m.links.update(i, LinkView { y_frac, ..m.links[i] }));
    }
    if !has_link(m.links, id) {
        assert(n.links =~= m.links);
    }
}

/// A click with the primary button, as far as markers are concerned.
#[derive(Clone, Copy, Debug)]
pub struct MarkerClick {
    /// Whether clicks place markers.
    pub marker_mode: bool,
    pub shift: bool,
    /// The marker under the pointer.
    pub hit: Option<u64>,
    /// The time under the pointer.
    pub t_ns: Option<u64>,
}

/// What a click does to the markers. In marker mode a click beside the markers
/// places one; with shift it is linked to the selected marker, or to the last one,
/// where there is one. Otherwise a click selects the marker under the pointer or
/// none. With shift and a selection it places a linked marker, or links the marker
/// under the pointer.
pub open spec fn clicked(m: MarkersView, c: MarkerClick, signals: Seq<ChannelId>) -> MarkersView {
    if c.marker_mode && c.hit is None {
        match c.t_ns {
            None => m,
            Some(t) => {
                let anchor = if m.selected is Some {
                    m.selected
                } else if m.markers.len() > 0 {
                    Some(m.markers.last().id)
                } else {
                    None
                };
                if c.shift && anchor is Some && has_marker(m.markers, anchor->0) {
                    m.with_linked(anchor->0, t, signals)
                } else {
                    m.with_placed(t)
                }
            },
        }
    } else if c.shift {
        match (m.selected, c.hit, c.t_ns) {
            (Some(sel), None, Some(t)) => if has_marker(m.markers, sel) {
                m.with_linked(sel, t, signals)
            } else {
                m
            },
            (Some(sel), Some(id), _) => if id != sel && has_marker(m.markers, sel) && has_marker(
                m.markers,
                id,
            ) {
                m.with_link(sel, id, signals)
            } else {
                m
            },
            _ => m,
        }
    } else {
        MarkersView {
            selected: if c.hit is Some && has_marker(m.markers, c.hit->0) {
                c.hit
            } else {
                None
            },
            ..m
        }
    }
}

proof fn lemma_newest(m: MarkersView, t: u64, color: [u8; 3])
    ensures
        has_marker(m.with_marker(t, color).markers, m.next_id),
{
    let n = m.with_marker(t, color).markers;
    assert(n[m.markers.len() as int].id == m.next_id);
}

fn copy_channels(v: &Vec<ChannelId>) -> (r: Vec<ChannelId>)
    ensures
        r@ == v@,
{
    let mut out: Vec<ChannelId> = Vec::new();
    let mut i: usize = 0;
    while i < v.len()
        invariant
            i <= v@.len(),
            out@ == v@.take(i as int),
        decreases v@.len() - i,
    {
        out.push(v[i]);
        assert(out@ =~= v@.take(i + 1));
        i = i + 1;
    }
    assert(v@.take(v@.len() as int) =~= v@);
    out
}

/// Places a marker, linked to the anchor where there is such a marker; it is
/// selected.
fn place_marker(markers: &mut MarkerSet, anchor: Option<u64>, t: u64, signals: &Vec<ChannelId>)
    requires
        old(markers)@.wf(),
        old(markers)@.next_id < u64::MAX,
        old(markers)@.next_link_id < u64::MAX,
    ensures
        final(markers)@.wf(),
        final(markers)@ == (if anchor is Some && has_marker(old(markers)@.markers, anchor->0) {
            old(markers)@.with_linked(anchor->0, t, signals@)
        } else {
            old(markers)@.with_placed(t)
        }),
{
    let colour = marker_colour(markers.len());
    proof {
        lemma_newest(markers@, t, colour);
    }
    let linked = match anchor {
        Some(a) => markers.add_linked_to(a, t, colour, copy_channels(signals)),
        None => None,
    };
    let id: u64 = match linked {
        Some((id, _)) => id,
        None => markers.add(t, colour),
    };
    markers.select(Some(id));
}

/// Does to the markers what a click does.
pub fn click_markers(markers: &mut MarkerSet, c: MarkerClick, signals: &Vec<ChannelId>)
    requires
        old(markers)@.wf(),
        old(markers)@.next_id < u64::MAX,
        old(markers)@.next_link_id < u64::MAX,
    ensures
        final(markers)@.wf(),
        final(markers)@ == clicked(old(markers)@, c, signals@),
{
    let selected = markers.selected_id();
    if c.marker_mode && c.hit.is_none() {
        match c.t_ns {
            None => {},
            Some(t) => {
                let anchor = if !c.shift {
                    None
                } else if selected.is_some() {
                    selected
                } else {
                    markers.last_id()
                };
                place_marker(markers, anchor, t, signals);
            },
        }
        return;
    }
    if c.shift {
        match selected {
            None => {},
            Some(sel) => match c.hit {
                None => match c.t_ns {
                    None => {},
                    Some(t) => {
                        if markers.get(sel).is_some() {
                            place_marker(markers, selected, t, signals);
                        }
                    },
                },
                Some(id) => {
                    if id != sel && markers.get(sel).is_some() && markers.get(id).is_some() {
                        markers.link(sel, id, copy_channels(signals));
                    }
                },
            },
        }
    } else {
        markers.select(c.hit);
    }
}

/// A marker that a shift-click places beside the others is linked to the marker that
/// was selected, and becomes the selected one.
pub proof fn law_shift_click_links(m: MarkersView, sel: u64, t: u64, mode: bool, signals: Seq<ChannelId>)
    requires
        m.wf(),
        m.next_id < u64::MAX,
        m.next_link_id < u64::MAX,
        m.selected == Some(sel),
        has_marker(m.markers, sel),
    ensures
        ({
            let c = MarkerClick { marker_mode: mode, shift: true, hit: None, t_ns: Some(t) };
            let n = clicked(m, c, signals);
            &&& n.wf()
            &&& n.selected == Some(m.next_id)
            &&& n.links.last().a == sel
            &&& n.links.last().b == m.next_id
            &&& n.links.last().signals == signals
            &&& n.markers.last().t_ns == t
        }),
{
}

/// What a click does to the selected signals of a plot. In marker mode nothing.
/// With control or shift, the nearest signal is selected, or, with control, no
/// longer selected if it was; otherwise a click beside the markers clears the
/// selection.
pub open spec fn signals_clicked(
    selected: Set<ChannelId>,
    ctrl: bool,
    shift: bool,
    nearest: Option<ChannelId>,
    on_marker: bool,
    marker_mode: bool,
) -> Set<ChannelId> {
    if marker_mode {
        selected
    } else if ctrl || shift {
        match nearest {
            Some(ch) => if ctrl && selected.contains(ch) {
                selected.remove(ch)
            } else {
                selected.insert(ch)
            },
            None => selected,
        }
    } else if on_marker {
        selected
    } else {
        Set::empty()
    }
}

/// Does to the selected signals of a plot what a click does.
pub fn click_signals(
    panel: &mut ScalarPanel,
    ctrl: bool,
    shift: bool,
    nearest: Option<ChannelId>,
    on_marker: bool,
    marker_mode: bool,
)
    ensures
        final(panel).selected_signals@ == signals_clicked(
            old(panel).selected_signals@,
            ctrl,
            shift,
            nearest,
            on_marker,
            marker_mode,
        ),
        *final(panel) == (ScalarPanel {
            selected_signals: final(panel).selected_signals,
            ..*old(panel)
        }),
{
    if marker_mode {
        return;
    }
    if ctrl || shift {
        match nearest {
            Some(ch) => {
                if ctrl && panel.selected_signals.contains(&ch) {
                    panel.selected_signals.remove(&ch);
                } else {
                    panel.selected_signals.insert(ch);
                }
            },
            None => {},
        }
    } else if !on_marker {
        panel.selected_signals.clear();
    }
}

/// Whether a drag on a plot moves the view: with the middle button whenever the view
/// can be moved, with the primary one only in pan mode and while it is free.
pub fn plot_drag_pans(
    mode: TimeBase,
    interactive: bool,
    middle: bool,
    primary: bool,
    primary_free: bool,
) -> (r: bool)
    ensures
        r == (interactive && (middle || (primary && primary_free && mode == TimeBase::Pan))),
{
    interactive && (middle || (primary && primary_free && mode == TimeBase::Pan))
}

/// Whether a drag on a lane moves the view.
pub fn lane_drag_pans(mode: TimeBase, middle: bool, primary: bool, primary_free: bool) -> (r: bool)
    ensures
        r == (mode == TimeBase::Pan && (middle || (primary && primary_free))),
{
    mode == TimeBase::Pan && (middle || (primary && primary_free))
}

/// Whether a distance is within the limit.
pub open spec fn in_reach(d: u64, limit: Option<u64>) -> bool {
    limit matches Some(l) ==> !is_nan(d) && !is_nan(l) && !below(l, d)
}

/// The nearest of the things, each with its distance, that are within the limit; of
/// several at the same distance the first.
pub open spec fn nearest_of(items: Seq<(u64, u64)>, limit: Option<u64>) -> Option<(u64, u64)>
    decreases items.len(),
{
    if items.len() == 0 {
        None
    } else {
        let best = nearest_of(items.drop_last(), limit);
        let x = items.last();
        if in_reach(x.1, limit) && (best matches Some(b) ==> below(x.1, b.1)) {
            Some(x)
        } else {
            best
        }
    }
}

/// Finds the nearest of the things within the limit. Distances are doubles.
pub fn nearest(items: &Vec<(u64, u64)>, limit: Option<u64>) -> (r: Option<u64>)
    ensures
        r == (match nearest_of(items@, limit) {
            Some(x) => Some(x.0),
            None => None,
        }),
{
    let mut best: Option<(u64, u64)> = None;
    let mut i: usize = 0;
    while i < items.len()
        invariant
            i <= items@.len(),
            best == nearest_of(items@.take(i as int), limit),
        decreases items@.len() - i,
    {
        let (id, d) = items[i];
        assert(items@.take(i + 1).drop_last() =~= items@.take(i as int));
        let reached = match limit {
            Some(l) => !number_is_nan(d) && !number_is_nan(l) && !number_below(l, d),
            None => true,
        };
        let closer = match best {
            Some((_, b)) => number_below(d, b),
            None => true,
        };
        if reached && closer {
            best = Some((id, d));
        }
        i = i + 1;
    }
    assert(items@.take(items@.len() as int) =~= items@);
    match best {
        Some((id, _)) => Some(id),
        None => None,
    }
}

/// The nearest thing is one of them and within the limit, and none that is within
/// the limit is nearer.
pub proof fn law_nearest_is_nearest(items: Seq<(u64, u64)>, limit: Option<u64>, i: int)
    requires
        0 <= i < items.len(),
        in_reach(items[i].1, limit),
    ensures
        nearest_of(items, limit) matches Some(x) && items.contains(x) && in_reach(x.1, limit)
            && !below(items[i].1, x.1),
    decreases items.len(),
{
    let head = items.drop_last();
    let best = nearest_of(head, limit);
    assert(items[items.len() - 1] == items.last());
    if i < head.len() {
        assert(head[i] == items[i]);
        law_nearest_is_nearest(head, limit, i);
    }
    lemma_nearest_within(head, limit);
    if best is Some {
        let k = choose|k: int| 0 <= k < head.len() && head[k] == best->0;
        assert(items[k] == best->0);
    }
}

proof fn lemma_nearest_within(items: Seq<(u64, u64)>, limit: Option<u64>)
    ensures
        nearest_of(items, limit) matches Some(x) ==> items.contains(x) && in_reach(x.1, limit),
    decreases items.len(),
{
    if items.len() > 0 {
        let head = items.drop_last();
        lemma_nearest_within(head, limit);
        let best = nearest_of(head, limit);
        assert(items[items.len() - 1] == items.last());
        if best is Some {
            let k = choose|k: int| 0 <= k < head.len() && head[k] == best->0;
            assert(items[k] == best->0);
        }
    }
}

} // verus!
