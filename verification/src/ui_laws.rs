//! What clicks, keys and the camera do to the state of the view.

use vstd::prelude::*;

verus! {

use crate::camera::{view_of, window_for, window_limit, Camera, TimeBase};
use crate::colours::{palette_colour, state_color, state_mix, MARKER_PALETTE};
use crate::keys::{
    after_keys, camera_after, command_of, markers_after, KeyPresses, KeyState, ViewCommand,
};
use crate::markers::{has_marker, MarkersView};
use crate::num::{below, double_of_nat, is_nan};
use crate::num_laws::{law_doubles_keep_the_order, law_whole_doubles_cut_back};
use crate::pointer::{
    clicked, dragged, in_reach, nearest_of, signals_clicked, Dragging, MarkerClick,
};
use crate::rate::{rate_of, recent};
use crate::selection::{between, clicked_selection, place_from};
use crate::store::{ChannelId, ChannelInfo, StoreView};
use crate::tree::{found, samples_of, selected_rows};

/// A drag moves the dragged marker to its time and the dragged link to its height, and
/// changes nothing else.
pub proof fn law_drag_moves_only_what_is_dragged(
    d: Dragging,
    m: MarkersView,
    t: Option<u64>,
    y: Option<u32>,
    i: int,
)
    ensures
        ({
            let r = dragged(d, m, t, y);
            &&& r.markers.len() == m.markers.len()
            &&& r.links.len() == m.links.len()
            &&& r.selected == m.selected
            &&& r.next_id == m.next_id
            &&& r.next_link_id == m.next_link_id
            &&& 0 <= i < m.markers.len() ==> ({
                let moved = d.marker == Some(m.markers[i].id) && t is Some;
                &&& r.markers[i].id == m.markers[i].id
                &&& r.markers[i].label == m.markers[i].label
                &&& r.markers[i].color == m.markers[i].color
                &&& moved ==> Some(r.markers[i].t_ns) == t
                &&& !moved ==> r.markers[i].t_ns == m.markers[i].t_ns
            })
            &&& 0 <= i < m.links.len() ==> ({
                let moved = d.link == Some(m.links[i].id) && y is Some;
                &&& r.links[i].id == m.links[i].id
                &&& r.links[i].a == m.links[i].a
                &&& r.links[i].b == m.links[i].b
                &&& r.links[i].signals == m.links[i].signals
                &&& moved ==> Some(r.links[i].y_frac) == y
                &&& !moved ==> r.links[i].y_frac == m.links[i].y_frac
            })
        }),
{
}

/// A plain click outside marker mode, or on a marker, selects the marker that it hits,
/// and nothing where it hits none; it changes no marker and no link.
pub proof fn law_plain_click_selects(m: MarkersView, c: MarkerClick, signals: Seq<ChannelId>)
    requires
        !c.shift,
        !c.marker_mode || c.hit is Some,
    ensures
        clicked(m, c, signals).markers == m.markers,
        clicked(m, c, signals).links == m.links,
        forall|id: u64|
            clicked(m, c, signals).selected == Some(id) <==> c.hit == Some(id) && #[trigger]
            has_marker(m.markers, id),
{
}

/// A click in marker mode that hits no marker places one at its time, which is selected.
/// With shift it is linked from the selected marker, or from the last one where none is
/// selected; without shift, or where there is no such marker, there is no link.
pub proof fn law_click_in_marker_mode_places(m: MarkersView, t: u64, shift: bool, signals: Seq<ChannelId>)
    requires
        m.wf(),
        m.next_id < u64::MAX,
        m.next_link_id < u64::MAX,
    ensures
        ({
            let c = MarkerClick { marker_mode: true, shift, hit: None, t_ns: Some(t) };
            let r = clicked(m, c, signals);
            let new = r.markers.last();
            &&& r.markers.len() == m.markers.len() + 1
            &&& r.markers.drop_last() == m.markers
            &&& new.t_ns == t
            &&& new.color == MARKER_PALETTE@[m.markers.len() as int % 6]
            &&& !has_marker(m.markers, new.id)
            &&& r.selected == Some(new.id)
            &&& !shift ==> r.links == m.links
            &&& shift && m.selected is None && m.markers.len() == 0 ==> r.links == m.links
            &&& shift && m.selected is None && m.markers.len() > 0 ==> {
                &&& r.links.drop_last() == m.links
                &&& r.links.len() == m.links.len() + 1
                &&& r.links.last().a == m.markers.last().id
                &&& r.links.last().b == new.id
                &&& r.links.last().signals == signals
            }
            &&& shift && m.selected is Some && has_marker(m.markers, m.selected->0) ==> {
                &&& r.links.drop_last() == m.links
                &&& r.links.len() == m.links.len() + 1
                &&& r.links.last().a == m.selected->0
                &&& r.links.last().b == new.id
                &&& r.links.last().signals == signals
            }
        }),
{
    let c = MarkerClick { marker_mode: true, shift, hit: None, t_ns: Some(t) };
    let r = clicked(m, c, signals);
    if m.markers.len() > 0 {
        assert(m.markers[m.markers.len() - 1].id == m.markers.last().id);
    }
    assert(r.markers.drop_last() =~= m.markers);
    if r.links.len() > m.links.len() {
        assert(r.links.drop_last() =~= m.links);
    }
}

/// A click with shift on another marker links the selected one to it and changes nothing
/// else; one on the selected marker itself changes nothing.
pub proof fn law_shift_click_on_marker_links(
    m: MarkersView,
    sel: u64,
    id: u64,
    mode: bool,
    t: Option<u64>,
    signals: Seq<ChannelId>,
)
    requires
        m.wf(),
        m.selected == Some(sel),
        has_marker(m.markers, sel),
        has_marker(m.markers, id),
        m.next_link_id < u64::MAX,
    ensures
        ({
            let c = MarkerClick { marker_mode: mode, shift: true, hit: Some(id), t_ns: t };
            let r = clicked(m, c, signals);
            &&& r.markers == m.markers
            &&& r.selected == m.selected
            &&& id == sel ==> r == m
            &&& id != sel ==> {
                &&& r.links.len() == m.links.len() + 1
                &&& r.links.drop_last() == m.links
                &&& r.links.last().a == sel
                &&& r.links.last().b == id
                &&& r.links.last().signals == signals
            }
        }),
{
    let c = MarkerClick { marker_mode: mode, shift: true, hit: Some(id), t_ns: t };
    let r = clicked(m, c, signals);
    if id != sel {
        assert(r.links.drop_last() =~= m.links);
    }
}

/// What a click does to one signal of a plot. In marker mode nothing happens to any.
/// With control the nearest is toggled, with shift alone it is selected; the others stay.
/// A plain click selects nothing, and takes the selection away unless it hits a marker.
pub proof fn law_signal_click(
    selected: Set<ChannelId>,
    ctrl: bool,
    shift: bool,
    nearest: Option<ChannelId>,
    on_marker: bool,
    mode: bool,
    ch: ChannelId,
)
    ensures
        ({
            let now = signals_clicked(selected, ctrl, shift, nearest, on_marker, mode).contains(ch);
            let was = selected.contains(ch);
            &&& mode ==> now == was
            &&& !mode && (ctrl || shift) && nearest != Some(ch) ==> now == was
            &&& !mode && ctrl && nearest == Some(ch) ==> now == !was
            &&& !mode && shift && !ctrl && nearest == Some(ch) ==> now
            &&& !mode && !ctrl && !shift && on_marker ==> now == was
            &&& !mode && !ctrl && !shift && !on_marker ==> !now
        }),
{
}

/// Of several things at the least distance the first is the nearest; nothing is nearest
/// only where nothing is in reach.
pub proof fn law_first_of_the_nearest(items: Seq<(u64, u64)>, limit: Option<u64>) -> (k: int)
    requires
        forall|i: int| 0 <= i < items.len() ==> !is_nan((#[trigger] items[i]).1),
    ensures
        nearest_of(items, limit) is None ==> forall|i: int|
            0 <= i < items.len() ==> !in_reach((#[trigger] items[i]).1, limit),
        nearest_of(items, limit) matches Some(x) ==> 0 <= k < items.len() && items[k] == x
            && in_reach(x.1, limit) && (forall|i: int|
            0 <= i < k && in_reach((#[trigger] items[i]).1, limit) ==> below(x.1, items[i].1)) && (
        forall|i: int|
            k <= i < items.len() && in_reach((#[trigger] items[i]).1, limit) ==> !below(
                items[i].1,
                x.1,
            )),
    decreases items.len(),
{
    if items.len() == 0 {
        0
    } else {
        let head = items.drop_last();
        assert forall|i: int| 0 <= i < head.len() implies !is_nan((#[trigger] head[i]).1) by {
            assert(items[i] == head[i]);
        }
        let k = law_first_of_the_nearest(head, limit);
        let best = nearest_of(head, limit);
        let x = items.last();
        assert forall|i: int| 0 <= i < head.len() implies #[trigger] items[i] == head[i] by {}
        if in_reach(x.1, limit) && (best matches Some(b) ==> below(x.1, b.1)) {
            items.len() - 1
        } else {
            if best is None {
                assert forall|i: int| 0 <= i < items.len() implies !in_reach(
                    (#[trigger] items[i]).1,
                    limit,
                ) by {
                    if i < head.len() {
                        assert(!in_reach(head[i].1, limit));
                    }
                }
            }
            k
        }
    }
}

/// Following shows the window that ends at the latest sample, and from zero on where
/// there is less. Panning shows the bounds that were chosen, and all data where none
/// were. Without data there is no view.
pub proof fn law_view_shows_what_was_chosen(
    cam: Camera,
    free: Option<(u64, u64)>,
    data: (u64, u64),
)
    requires
        cam.window_ns > 0,
    ensures
        view_of(cam, free, None) is None,
        cam.mode == TimeBase::Follow && data.1 >= cam.window_ns ==> ({
            view_of(cam, free, Some(data)) matches Some((lo, hi)) && hi == data.1 && hi - lo
                == cam.window_ns
        }),
        cam.mode == TimeBase::Follow && 0 < data.1 < cam.window_ns ==> view_of(
            cam,
            free,
            Some(data),
        ) == Some((0u64, data.1)),
        cam.mode == TimeBase::Pan ==> (free matches Some((lo, hi)) ==> lo < hi ==> view_of(
            cam,
            free,
            Some(data),
        ) == free),
        cam.mode == TimeBase::Pan && free is None && data.0 < data.1 ==> view_of(
            cam,
            free,
            Some(data),
        ) == Some(data),
{
}

/// A wanted window is given as it is, down to a millisecond and up to its limit, and the
/// nearest of these where it is shorter or longer.
pub proof fn law_window_is_held_within_its_limits(n: nat, max: Option<u64>)
    requires
        n < 0x20_0000_0000_0000,
    ensures
        1_000_000 <= window_limit(max) <= 3_600_000_000_000,
        max is None ==> window_limit(max) == 3_600_000_000_000,
        max matches Some(m) ==> (1_000_000 <= m <= 3_600_000_000_000 ==> window_limit(max) == m),
        n < 1_000_000 ==> window_for(double_of_nat(n) as u64, max) == 1_000_000,
        1_000_000 <= n <= window_limit(max) ==> window_for(double_of_nat(n) as u64, max) == n,
        n > window_limit(max) ==> window_for(double_of_nat(n) as u64, max) == window_limit(max),
{
    let limit = window_limit(max);
    law_whole_doubles_cut_back(n as int);
    law_whole_doubles_cut_back(1_000_000);
    law_whole_doubles_cut_back(limit as int);
    law_doubles_keep_the_order(n as int, 1_000_000);
    law_doubles_keep_the_order(limit as int, n as int);
}

/// The keys of a moment in which none is pressed.
pub open spec fn no_keys() -> KeyPresses {
    KeyPresses {
        f: false,
        g: false,
        shift: false,
        home: false,
        m: false,
        remove: false,
        escape: false,
    }
}

/// Without keys nothing changes but that a first `g` is forgotten after its time.
pub proof fn law_without_keys_nothing_changes(s: KeyState, c: Camera, m: MarkersView, now: u64)
    ensures
        command_of(s, no_keys(), now) == ViewCommand::Stay,
        after_keys(s, no_keys(), now).marker_mode == s.marker_mode,
        s.pending_g matches Some(t) ==> now <= t + 700 ==> after_keys(s, no_keys(), now) == s,
        s.pending_g matches Some(t) ==> now > t + 700 ==> after_keys(s, no_keys(), now).pending_g
            is None,
        s.pending_g is None ==> after_keys(s, no_keys(), now) == s,
        camera_after(c, no_keys()) == c,
        markers_after(m, no_keys()) == m,
{
}

/// `m` changes marker mode back and forth; escape ends it, and forgets a first `g`.
pub proof fn law_marker_mode_keys(s: KeyState, k: KeyPresses, now: u64)
    ensures
        k.escape ==> after_keys(s, k, now) == (KeyState { pending_g: None, marker_mode: false }),
        k.m && !k.escape ==> after_keys(s, k, now).marker_mode == !s.marker_mode,
        !k.m && !k.escape ==> after_keys(s, k, now).marker_mode == s.marker_mode,
{
}

/// `f` changes between following and panning, twice leads back, and following has no free
/// bounds; home always follows. The window keeps its length.
pub proof fn law_time_base_keys(c: Camera, k: KeyPresses)
    ensures
        camera_after(c, k).window_ns == c.window_ns,
        k.home ==> camera_after(c, k).mode == TimeBase::Follow && camera_after(c, k).free_bounds_s
            is None,
        k.f && !k.home ==> camera_after(c, k).mode != c.mode && camera_after(
            camera_after(c, k),
            k,
        ).mode == c.mode,
        k.f && !k.home && c.mode == TimeBase::Pan ==> camera_after(c, k).free_bounds_s is None,
        k.f && !k.home && c.mode == TimeBase::Follow ==> camera_after(c, k).free_bounds_s
            == c.free_bounds_s,
        !k.f && !k.home ==> camera_after(c, k) == c,
{
}

/// `G` zooms in and forgets a first `g`; a `g` that comes too late for the first is a
/// first one again; home undoes both commands.
pub proof fn law_zoom_keys(s: KeyState, k: KeyPresses, now: u64)
    requires
        k.g,
        !k.escape,
    ensures
        k.home ==> command_of(s, k, now) == ViewCommand::Stay,
        k.shift && !k.home ==> command_of(s, k, now) == ViewCommand::ZoomIn,
        k.shift ==> after_keys(s, k, now).pending_g is None,
        !k.shift && (s.pending_g matches Some(t) ==> now > t + 700) ==> command_of(s, k, now)
            == ViewCommand::Stay && after_keys(s, k, now).pending_g == Some(now),
{
}

/// Delete removes the selected marker, and only where there is one.
pub proof fn law_delete_removes_the_selected(m: MarkersView, k: KeyPresses)
    ensures
        !k.remove || m.selected is None ==> markers_after(m, k) == m,
        k.remove && m.selected is Some ==> !has_marker(markers_after(m, k).markers, m.selected->0)
            && markers_after(m, k).selected is None,
{
    if k.remove && m.selected is Some {
        crate::markers::law_removed_marker_leaves_no_trace(m, m.selected->0);
    }
}

/// What an estimator keeps is the end of its samples, from the first on that is not too
/// old.
pub proof fn law_only_old_samples_are_dropped(s: Seq<(u64, u64)>, now: u64, window: u64) -> (k: int)
    ensures
        0 <= k <= s.len(),
        recent(s, now, window) == s.skip(k),
        forall|i: int| 0 <= i < k ==> now - (#[trigger] s[i]).0 > window,
        k < s.len() ==> now - s[k].0 <= window,
    decreases s.len(),
{
    if s.len() == 0 || now - s[0].0 <= window {
        assert(s.skip(0) =~= s);
        0
    } else {
        let t = s.skip(1);
        let k = law_only_old_samples_are_dropped(t, now, window);
        assert(s.skip(k + 1) =~= t.skip(k));
        assert forall|i: int| 0 <= i < k + 1 implies now - (#[trigger] s[i]).0 > window by {
            if i > 0 {
                assert(t[i - 1] == s[i]);
            }
        }
        if k < t.len() {
            assert(t[k] == s[k + 1]);
        }
        k + 1
    }
}

/// The rate is the count between the first and the last sample over the time between
/// them, where that is at least a microsecond.
pub proof fn law_rate_is_between_first_and_last(s: Seq<(u64, u64)>)
    requires
        s.len() >= 2,
        s[0].0 <= s.last().0,
        s[0].1 <= s.last().1,
    ensures
        s.last().0 - s[0].0 < 1_000 ==> rate_of(s) is None,
        s.last().0 - s[0].0 >= 1_000 ==> (rate_of(s) matches Some((count, time)) && s[0].1 + count
            == s.last().1 && s[0].0 + time == s.last().0),
{
}

/// Ten neighbouring places have ten different colours, and after ten they repeat.
pub proof fn law_ten_colours_repeat(i: int, j: int)
    requires
        0 <= i < j < i + 10,
    ensures
        palette_colour(i)@ != palette_colour(j)@,
        palette_colour(i + 10) == palette_colour(i),
{
    assert((i + 10) % 10 == i % 10);
    assert(i % 10 != j % 10);
    let (a, b) = (palette_colour(i), palette_colour(j));
    assert(a@[0] != b@[0]);
}

/// The colour of a state is neither very dark nor very bright.
pub proof fn law_state_colours_are_soft(seed: int, value: int, i: int)
    requires
        seed >= 0,
        value >= 0,
        0 <= i < 3,
    ensures
        48 <= state_color(seed, value)@[i] <= 175,
{
    let h = state_mix(seed, value);
    assert(0 <= h);
    assert(0 <= h / 0x1_0000 % 0x100 < 0x100);
    assert(0 <= h / 0x100 % 0x100 < 0x100);
    assert(0 <= h % 0x100 < 0x100);
}

proof fn lemma_place_from(visible: Seq<ChannelId>, id: ChannelId, i: int)
    requires
        0 <= i <= visible.len(),
    ensures
        i <= place_from(visible, id, i) <= visible.len(),
        place_from(visible, id, i) < visible.len() ==> visible[place_from(visible, id, i)] == id,
        forall|k: int| i <= k < place_from(visible, id, i) ==> #[trigger] visible[k] != id,
    decreases visible.len() - i,
{
    if i < visible.len() && visible[i] != id {
        lemma_place_from(visible, id, i + 1);
    }
}

/// A plain click selects its row alone, and one with control changes its row alone; both
/// make it the anchor.
pub proof fn law_row_click(
    selection: Set<ChannelId>,
    anchor: Option<ChannelId>,
    visible: Seq<ChannelId>,
    row: ChannelId,
    ctrl: bool,
    other: ChannelId,
)
    ensures
        ({
            let (now, a) = clicked_selection(selection, anchor, visible, row, ctrl, false);
            &&& a == Some(row)
            &&& !ctrl ==> (now.contains(other) <==> other == row)
            &&& ctrl && other != row ==> now.contains(other) == selection.contains(other)
            &&& ctrl ==> now.contains(row) == !selection.contains(row)
        }),
{
}

/// A click with shift selects exactly the rows from the anchor to the clicked one, both
/// included, whichever comes first; the anchor stays.
pub proof fn law_shift_click_selects_a_range(
    selection: Set<ChannelId>,
    visible: Seq<ChannelId>,
    a: int,
    b: int,
    ctrl: bool,
    k: int,
)
    requires
        visible.no_duplicates(),
        0 <= a < visible.len(),
        0 <= b < visible.len(),
        0 <= k < visible.len(),
    ensures
        ({
            let (now, anchor) = clicked_selection(
                selection,
                Some(visible[a]),
                visible,
                visible[b],
                ctrl,
                true,
            );
            &&& anchor == Some(visible[a])
            &&& now.contains(visible[k]) <==> (a <= k <= b || b <= k <= a)
            &&& forall|id: ChannelId| #[trigger] now.contains(id) ==> visible.contains(id)
        }),
{
    lemma_place_from(visible, visible[a], 0);
    lemma_place_from(visible, visible[b], 0);
    assert(place_from(visible, visible[a], 0) == a);
    assert(place_from(visible, visible[b], 0) == b);
    let (lo, hi) = if a <= b {
        (a, b)
    } else {
        (b, a)
    };
    let rows = visible.subrange(lo, hi + 1);
    assert(between(visible, a, b) == rows.to_set());
    if lo <= k <= hi {
        assert(rows[k - lo] == visible[k]);
    }
    assert forall|id: ChannelId| #[trigger] rows.to_set().contains(id) implies visible.contains(
        id,
    ) by {
        let i = choose|i: int| 0 <= i < rows.len() && rows[i] == id;
        assert(visible[lo + i] == id);
    }
    if rows.to_set().contains(visible[k]) {
        let i = choose|i: int| 0 <= i < rows.len() && rows[i] == visible[k];
        assert(visible[lo + i] == visible[k]);
    }
}

/// A search finds, in their order, the channels whose paths hold the query, in whatever
/// case.
pub proof fn law_search_finds_what_holds_the_query(members: Seq<ChannelInfo>, query: Seq<char>)
    ensures
        found(members, query) == members.filter(
            |c: ChannelInfo|
                crate::grouping::occurs_in(
                    crate::grouping::lowered(c.path@),
                    crate::grouping::lowered(query),
                ),
        ).map_values(|c: ChannelInfo| c.id),
    decreases members.len(),
{
    reveal(Seq::filter);
    let f = |c: ChannelInfo|
        crate::grouping::occurs_in(
            crate::grouping::lowered(c.path@),
            crate::grouping::lowered(query),
        );
    let id = |c: ChannelInfo| c.id;
    if members.len() > 0 {
        law_search_finds_what_holds_the_query(members.drop_last(), query);
    }
    assert(found(members, query) =~= members.filter(f).map_values(id));
}

/// How many samples the channels have together.
pub open spec fn all_samples(s: StoreView, channels: Seq<ChannelInfo>) -> nat {
    channels.map_values(|c: ChannelInfo| s.count(c.id)).fold_left(0, |a: nat, b: nat| a + b)
}

/// A group counts the samples of all of its channels, up to what the counter holds.
pub proof fn law_group_counts_all_samples(s: StoreView, channels: Seq<ChannelInfo>)
    ensures
        all_samples(s, channels) <= u64::MAX ==> samples_of(s, channels) == all_samples(
            s,
            channels,
        ),
        all_samples(s, channels) > u64::MAX ==> samples_of(s, channels) == u64::MAX,
    decreases channels.len(),
{
    let f = |c: ChannelInfo| s.count(c.id);
    let plus = |a: nat, b: nat| a + b;
    let v = channels.map_values(f);
    if channels.len() > 0 {
        law_group_counts_all_samples(s, channels.drop_last());
        assert(v.drop_last() =~= channels.drop_last().map_values(f));
        assert(v.fold_left(0, plus) == plus(v.drop_last().fold_left(0, plus), v.last()));
    }
}

/// A drag of several rows carries those of the rows that are selected, and keeps their
/// order.
pub proof fn law_drag_carries_the_selected_rows(
    above: Seq<ChannelId>,
    beneath: Seq<ChannelId>,
    selection: Set<ChannelId>,
    id: ChannelId,
)
    ensures
        selected_rows(above + beneath, selection) == selected_rows(above, selection)
            + selected_rows(beneath, selection),
        selected_rows(above, selection).contains(id) <==> above.contains(id) && selection.contains(
            id,
        ),
{
    let p = |id: ChannelId| selection.contains(id);
    Seq::filter_distributes_over_add(above, beneath, p);
    if above.contains(id) && selection.contains(id) {
        let i = choose|i: int| 0 <= i < above.len() && above[i] == id;
        above.lemma_filter_contains(p, i);
    }
    if selected_rows(above, selection).contains(id) {
        above.lemma_filter_contains_rev(p, id);
        let w = above.filter(p);
        let i = choose|i: int| 0 <= i < w.len() && w[i] == id;
        above.lemma_filter_pred(p, i);
    }
}

/// What lies no farther than the limit is in reach, the limit itself included; without a
/// limit everything is.
pub proof fn law_reach_goes_up_to_the_limit(d: nat, limit: nat)
    requires
        d < 0x20_0000_0000_0000,
        limit < 0x20_0000_0000_0000,
    ensures
        in_reach(double_of_nat(d) as u64, Some(double_of_nat(limit) as u64)) <==> d <= limit,
        in_reach(double_of_nat(d) as u64, None),
{
    law_doubles_keep_the_order(limit as int, d as int);
    law_whole_doubles_cut_back(d as int);
    law_whole_doubles_cut_back(limit as int);
}

} // verus!
