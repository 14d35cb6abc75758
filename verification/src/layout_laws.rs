//! Restoring the markers of a layout, and what a layout keeps of a workspace.

use crate::layout::{Layout, PlotSpec};
use crate::markers::MarkerSet;
use crate::store::{ChannelId, ChannelInfo};
use vstd::prelude::*;

verus! {

use crate::layout::{
    link_specs_of, marker_specs_of, path_place, resolved, LinkSpecView, MarkerSpecView,
    PlotSpecView,
};
use crate::layout_apply::{
    applied, lanes_of, lookup, plot_view, scalars_of, specs_view, styles_for, AppliedView,
    PlotView,
};
use crate::layout_save::{
    are_saved_plots, has_path, has_style, is_plot_order, is_saved, is_spec_of, is_style_of,
    marker_place_of, paths_of, saved_before, saved_lanes, saved_links, saved_markers, saves,
};
use crate::markers::{has_marker, joined, numbered, LinkView, MarkerView, MarkersView};
use crate::drops::received;
use crate::panels::{
    has_lane, is_logic, lanes_with, LabelRadix, LaneMode, LogicAnalyserPanel, LogicLane, PlotId,
    PlotKind, ScalarPanel, SignalStyle,
};

/// Saved markers under new numbers.
pub open spec fn renumbered(m: Seq<MarkerSpecView>) -> Seq<MarkerView> {
    Seq::new(
        m.len(),
        |i: int|
            MarkerView {
                id: (i + 1) as u64,
                t_ns: m[i].t_ns,
                label: m[i].label,
                color: m[i].color,
            },
    )
}

/// Saved links between `n` markers under new numbers: those whose ends exist.
pub open spec fn relinked(links: Seq<LinkSpecView>, n: nat, channels: Seq<ChannelInfo>) -> Seq<
    LinkView,
>
    decreases links.len(),
{
    if links.len() == 0 {
        Seq::empty()
    } else {
        let before = relinked(links.drop_last(), n, channels);
        let l = links.last();
        if l.a_index < n && l.b_index < n {
            before.push(
                LinkView {
                    id: (before.len() + 1) as u64,
                    a: (l.a_index + 1) as u64,
                    b: (l.b_index + 1) as u64,
                    y_frac: l.y_frac,
                    signals: resolved(l.signal_paths, channels),
                },
            )
        } else {
            before
        }
    }
}

/// The markers of a layout.
pub open spec fn restored(
    markers: Seq<MarkerSpecView>,
    links: Seq<LinkSpecView>,
    channels: Seq<ChannelInfo>,
) -> MarkersView {
    let l = relinked(links, markers.len(), channels);
    MarkersView {
        markers: renumbered(markers),
        links: l,
        selected: None,
        next_id: (markers.len() + 1) as u64,
        next_link_id: (l.len() + 1) as u64,
    }
}

proof fn lemma_joined(
    rows: Seq<(usize, usize, u32, Vec<ChannelId>)>,
    links: Seq<LinkSpecView>,
    n: nat,
    channels: Seq<ChannelInfo>,
    k: nat,
)
    requires
        k <= rows.len() == links.len(),
        forall|i: int|
            0 <= i < rows.len() ==> (#[trigger] rows[i]).0 == links[i].a_index && rows[i].1
                == links[i].b_index && rows[i].2 == links[i].y_frac && rows[i].3@ == resolved(
                links[i].signal_paths,
                channels,
            ),
    ensures
        joined(rows, n, k) == relinked(links.take(k as int), n, channels),
    decreases k,
{
    if k > 0 {
        lemma_joined(rows, links, n, channels, (k - 1) as nat);
        assert(links.take(k as int).drop_last() =~= links.take(k - 1));
        assert(links.take(k as int).last() == links[k - 1]);
        assert(rows[k - 1].0 == links[k - 1].a_index);
    }
}

/// Replaces the markers by those of a layout. The signals of links are those of the
/// channels that are there.
pub fn restore_markers(markers: &mut MarkerSet, layout: &Layout, channels: &[ChannelInfo])
    requires
        layout.markers@.len() < u64::MAX,
        layout.links@.len() < u64::MAX,
    ensures
        final(markers)@.wf(),
        final(markers)@ == restored(
            marker_specs_of(layout.markers@),
            link_specs_of(layout.links@),
            channels@,
        ),
{
    let mut ms: Vec<(u64, String, [u8; 3])> = Vec::new();
    let mut i: usize = 0;
    while i < layout.markers.len()
        invariant
            i <= layout.markers@.len(),
            ms@.len() == i,
            forall|j: int|
                0 <= j < i ==> (#[trigger] ms@[j]).0 == layout.markers@[j].t_ns && ms@[j].1@
                    == layout.markers@[j].label@ && ms@[j].2 == layout.markers@[j].color,
        decreases layout.markers@.len() - i,
    {
        let m = &layout.markers[i];
        ms.push((m.t_ns, m.label.clone(), m.color));
        i = i + 1;
    }
    let ghost specs = link_specs_of(layout.links@);
    let mut ls: Vec<(usize, usize, u32, Vec<ChannelId>)> = Vec::new();
    let mut k: usize = 0;
    while k < layout.links.len()
        invariant
            k <= layout.links@.len(),
            specs == link_specs_of(layout.links@),
            ls@.len() == k,
            forall|j: int|
                0 <= j < k ==> (#[trigger] ls@[j]).0 == specs[j].a_index && ls@[j].1
                    == specs[j].b_index && ls@[j].2 == specs[j].y_frac && ls@[j].3@ == resolved(
                    specs[j].signal_paths,
                    channels@,
                ),
        decreases layout.links@.len() - k,
    {
        let l = &layout.links[k];
        assert(specs[k as int] == l@);
        let signals = l.signals_resolved(channels);
        ls.push((l.a_index, l.b_index, l.y_frac, signals));
        k = k + 1;
    }
    proof {
        assert(numbered(ms@) =~= renumbered(marker_specs_of(layout.markers@)));
        lemma_joined(ls@, specs, ms@.len(), channels@, ls@.len());
        assert(specs.take(ls@.len() as int) =~= specs);
    }
    markers.restore(&ms, &ls);
}

/// Whether the channels by number are the channels of the list, which have different
/// paths.
pub open spec fn consistent(channels: Seq<ChannelInfo>, by_id: Map<ChannelId, ChannelInfo>) -> bool {
    &&& forall|i: int, j: int|
        0 <= i < j < channels.len() ==> (#[trigger] channels[i]).path@ != (
        #[trigger] channels[j]).path@
    &&& forall|k: ChannelId| #[trigger]
        by_id.contains_key(k) ==> by_id[k].id == k && channels.contains(by_id[k])
}

proof fn lemma_lookup(channels: Seq<ChannelInfo>, i: int)
    requires
        0 <= i < channels.len(),
        forall|i: int, j: int|
            0 <= i < j < channels.len() ==> (#[trigger] channels[i]).path@ != (
            #[trigger] channels[j]).path@,
    ensures
        lookup(channels, channels[i].path@) == Some(channels[i]),
    decreases channels.len(),
{
    if i < channels.len() - 1 {
        assert(channels[i].path@ != channels[channels.len() - 1].path@);
        let head = channels.drop_last();
        assert forall|a: int, b: int| 0 <= a < b < head.len() implies (#[trigger] head[a]).path@ != (
        #[trigger] head[b]).path@ by {
            assert(channels[a].path@ != channels[b].path@);
        }
        lemma_lookup(head, i);
    }
}

proof fn lemma_known(channels: Seq<ChannelInfo>, by_id: Map<ChannelId, ChannelInfo>, k: ChannelId)
    requires
        consistent(channels, by_id),
        by_id.contains_key(k),
    ensures
        lookup(channels, by_id[k].path@) == Some(by_id[k]),
        by_id[k].id == k,
{
    let i = choose|i: int| 0 <= i < channels.len() && channels[i] == by_id[k];
    lemma_lookup(channels, i);
}

proof fn lemma_path_place(channels: Seq<ChannelInfo>, i: int, from: int)
    requires
        0 <= from <= i < channels.len(),
        forall|i: int, j: int|
            0 <= i < j < channels.len() ==> (#[trigger] channels[i]).path@ != (
            #[trigger] channels[j]).path@,
    ensures
        path_place(channels, channels[i].path@, from) == i,
    decreases i - from,
{
    if from < i {
        assert(channels[from].path@ != channels[i].path@);
        lemma_path_place(channels, i, from + 1);
    }
}

/// Channels that are known come back from their paths.
pub proof fn law_paths_resolve_back(
    ids: Seq<ChannelId>,
    channels: Seq<ChannelInfo>,
    by_id: Map<ChannelId, ChannelInfo>,
)
    requires
        consistent(channels, by_id),
        forall|i: int| 0 <= i < ids.len() ==> by_id.contains_key(#[trigger] ids[i]),
    ensures
        resolved(paths_of(ids, by_id), channels) == ids,
    decreases ids.len(),
{
    if ids.len() > 0 {
        law_paths_resolve_back(ids.drop_last(), channels, by_id);
        let k = ids.last();
        assert(by_id.contains_key(ids[ids.len() - 1]));
        let i = choose|i: int| 0 <= i < channels.len() && channels[i] == by_id[k];
        lemma_path_place(channels, i, 0);
        let p = paths_of(ids, by_id);
        assert(p.drop_last() =~= paths_of(ids.drop_last(), by_id));
        assert(resolved(p, channels) =~= ids);
    }
}

/// Whether all of a plot's channels are known, of a kind that the plot takes, and
/// there once.
pub open spec fn fits(kind: PlotKind, by_id: Map<ChannelId, ChannelInfo>) -> bool {
    match kind {
        PlotKind::Scalar(p) => {
            &&& p.channels@.no_duplicates()
            &&& forall|i: int|
                0 <= i < p.channels@.len() ==> by_id.contains_key(#[trigger] p.channels@[i])
                    && by_id[p.channels@[i]].kind is Scalar
            &&& forall|k: ChannelId| #[trigger] p.styles@.contains_key(k) ==> by_id.contains_key(k)
        },
        PlotKind::LogicAnalyser(p) => {
            &&& forall|i: int, j: int|
                0 <= i < j < p.lanes@.len() ==> (#[trigger] p.lanes@[i]).ch != (
                #[trigger] p.lanes@[j]).ch
            &&& forall|i: int|
                0 <= i < p.lanes@.len() ==> by_id.contains_key((#[trigger] p.lanes@[i]).ch)
                    && is_logic(by_id[p.lanes@[i].ch]) && (p.lanes@[i].mode == LaneMode::Named
                    ==> by_id[p.lanes@[i].ch].kind is State)
        },
        PlotKind::XY(p) => by_id.contains_key(p.x) && by_id.contains_key(p.y)
            && by_id[p.x].kind is Scalar && by_id[p.y].kind is Scalar,
        PlotKind::LogView(_) => false,
    }
}

proof fn lemma_scalars_survive(
    ids: Seq<ChannelId>,
    channels: Seq<ChannelInfo>,
    by_id: Map<ChannelId, ChannelInfo>,
    missing: Seq<Seq<char>>,
)
    requires
        consistent(channels, by_id),
        ids.no_duplicates(),
        forall|i: int|
            0 <= i < ids.len() ==> by_id.contains_key(#[trigger] ids[i]) && by_id[ids[i]].kind
                is Scalar,
    ensures
        scalars_of(channels, paths_of(ids, by_id), missing) == (ids, missing),
    decreases ids.len(),
{
    if ids.len() > 0 {
        let head = ids.drop_last();
        lemma_scalars_survive(head, channels, by_id, missing);
        let k = ids.last();
        assert(by_id.contains_key(ids[ids.len() - 1]));
        lemma_known(channels, by_id, k);
        let p = paths_of(ids, by_id);
        assert(p.drop_last() =~= paths_of(head, by_id));
        assert(p.last() == by_id[k].path@);
        if head.contains(k) {
            let j = choose|j: int| 0 <= j < head.len() && head[j] == k;
            assert(ids[j] == ids[ids.len() - 1]);
        }
        assert(head.push(k) =~= ids);
    }
}

proof fn lemma_lanes_survive(
    lanes: Seq<LogicLane>,
    channels: Seq<ChannelInfo>,
    by_id: Map<ChannelId, ChannelInfo>,
    missing: Seq<Seq<char>>,
)
    requires
        consistent(channels, by_id),
        forall|i: int, j: int|
            0 <= i < j < lanes.len() ==> (#[trigger] lanes[i]).ch != (#[trigger] lanes[j]).ch,
        forall|i: int|
            0 <= i < lanes.len() ==> by_id.contains_key((#[trigger] lanes[i]).ch) && is_logic(
                by_id[lanes[i].ch],
            ) && (lanes[i].mode == LaneMode::Named ==> by_id[lanes[i].ch].kind is State),
    ensures
        lanes_of(channels, saved_lanes(lanes, by_id), missing) == (lanes, missing),
    decreases lanes.len(),
{
    if lanes.len() > 0 {
        let head = lanes.drop_last();
        assert forall|i: int, j: int| 0 <= i < j < head.len() implies (#[trigger] head[i]).ch != (
        #[trigger] head[j]).ch by {
            assert(lanes[i].ch != lanes[j].ch);
        }
        lemma_lanes_survive(head, channels, by_id, missing);
        let l = lanes.last();
        assert(lanes[lanes.len() - 1] == l);
        lemma_known(channels, by_id, l.ch);
        let s = saved_lanes(lanes, by_id);
        assert(s.drop_last() =~= saved_lanes(head, by_id));
        assert(s.last().ch_path == by_id[l.ch].path@);
        if has_lane(head, l.ch) {
            let j = choose|j: int| 0 <= j < head.len() && (#[trigger] head[j]).ch == l.ch;
            assert(lanes[j].ch != lanes[lanes.len() - 1].ch);
        }
        assert(head.push(l) =~= lanes);
    }
}

proof fn lemma_styles_by_path(
    saved: Seq<(Seq<char>, SignalStyle)>,
    styles: Map<ChannelId, SignalStyle>,
    channels: Seq<ChannelInfo>,
    by_id: Map<ChannelId, ChannelInfo>,
)
    requires
        consistent(channels, by_id),
        forall|i: int|
            0 <= i < saved.len() ==> has_style(
                styles,
                by_id,
                (#[trigger] saved[i]).0,
                saved[i].1,
            ),
    ensures
        forall|k: ChannelId| #[trigger]
            styles_for(channels, saved, false).contains_key(k) ==> styles.contains_key(k)
                && styles_for(channels, saved, false)[k] == styles[k],
        forall|k: ChannelId|
            by_id.contains_key(k) && has_path(saved, by_id[k].path@) ==> #[trigger] styles_for(
                channels,
                saved,
                false,
            ).contains_key(k),
    decreases saved.len(),
{
    if saved.len() > 0 {
        let head = saved.drop_last();
        assert(forall|i: int| 0 <= i < head.len() ==> head[i] == #[trigger] saved[i]);
        assert forall|i: int| 0 <= i < head.len() implies has_style(
            styles,
            by_id,
            (#[trigger] head[i]).0,
            head[i].1,
        ) by {
            assert(has_style(styles, by_id, saved[i].0, saved[i].1));
        }
        lemma_styles_by_path(head, styles, channels, by_id);
        let x = saved.last();
        assert(saved[saved.len() - 1] == x);
        assert(has_style(styles, by_id, x.0, x.1));
        let id = choose|id: ChannelId| is_style_of(styles, by_id, x.0, x.1, id);
        lemma_known(channels, by_id, id);
        let before = styles_for(channels, head, false);
        let after = styles_for(channels, saved, false);
        assert(after == before.insert(id, x.1));
        assert forall|k: ChannelId|
            by_id.contains_key(k) && has_path(saved, by_id[k].path@) implies #[trigger] after.contains_key(
            k,
        ) by {
            let j = choose|j: int| 0 <= j < saved.len() && (#[trigger] saved[j]).0 == by_id[k].path@;
            if j < head.len() {
                assert(head[j].0 == by_id[k].path@);
                assert(has_path(head, by_id[k].path@));
                assert(before.contains_key(k));
            } else {
                lemma_known(channels, by_id, k);
                assert(k == id);
            }
        }
    }
}

/// A plot without its selection of signals.
pub open spec fn unselected(v: PlotView) -> PlotView {
    match v {
        PlotView::Scalar { title, channels, styles, selected } => PlotView::Scalar {
            title,
            channels,
            styles,
            selected: Set::empty(),
        },
        v => v,
    }
}

/// A plot whose channels are there comes back from a layout as it was: with its title,
/// its channels or lanes in their order, and its styles; only the selection of signals
/// is not kept. Nothing is noted as missing.
pub proof fn law_plot_survives_layout(
    kind: PlotKind,
    spec: PlotSpecView,
    channels: Seq<ChannelInfo>,
    by_id: Map<ChannelId, ChannelInfo>,
    state: AppliedView,
)
    requires
        consistent(channels, by_id),
        fits(kind, by_id),
        is_spec_of(kind, by_id, spec),
    ensures
        state.step(channels, spec) == state.with_plot(unselected(plot_view(kind))),
{
    match kind {
        PlotKind::Scalar(p) => {
            lemma_scalars_survive(p.channels@, channels, by_id, state.missing);
            let saved = spec->Scalar_styles;
            lemma_styles_by_path(saved, p.styles@, channels, by_id);
            let made = styles_for(channels, saved, false);
            assert forall|k: ChannelId| made.contains_key(k) <==> p.styles@.contains_key(k) by {
                if p.styles@.contains_key(k) {
                    assert(has_path(saved, by_id[k].path@));
                    assert(made.contains_key(k));
                }
            }
            assert(made =~= p.styles@);
        },
        PlotKind::LogicAnalyser(p) => {
            lemma_lanes_survive(p.lanes@, channels, by_id, state.missing);
        },
        PlotKind::XY(p) => {
            lemma_known(channels, by_id, p.x);
            lemma_known(channels, by_id, p.y);
        },
        PlotKind::LogView(_) => {},
    }
}

/// The plots of an order that are saved, in that order.
pub open spec fn saved_ids(plots: Map<u64, PlotKind>, order: Seq<PlotId>) -> Seq<PlotId>
    decreases order.len(),
{
    if order.len() == 0 {
        Seq::empty()
    } else {
        let before = saved_ids(plots, order.drop_last());
        if saves(plots, order.last()) {
            before.push(order.last())
        } else {
            before
        }
    }
}

/// The result of applying a layout that holds the given plots and of which nothing is
/// left out: the plots in their order, without their selections, numbered from zero on,
/// with nothing missing and nothing dropped.
pub open spec fn all_restored(plots: Map<u64, PlotKind>, ids: Seq<PlotId>) -> AppliedView {
    AppliedView {
        plots: Map::new(
            |k: u64| k < ids.len(),
            |k: u64| unselected(plot_view(plots[ids[k as int].0])),
        ),
        next: ids.len() as u64,
        ids: Seq::new(ids.len(), |k: int| Some(PlotId(k as u64))),
        companions: Seq::empty(),
        missing: Seq::empty(),
        dropped: 0,
    }
}

proof fn lemma_saved_ids(plots: Map<u64, PlotKind>, order: Seq<PlotId>, n: int)
    requires
        0 <= n <= order.len(),
    ensures
        saved_ids(plots, order.take(n)).len() == saved_before(plots, order, n),
        forall|id: PlotId| #[trigger]
            saved_ids(plots, order.take(n)).contains(id) <==> order.take(n).contains(id) && saves(
                plots,
                id,
            ),
        order.no_duplicates() ==> saved_ids(plots, order.take(n)).no_duplicates(),
    decreases n,
{
    let now = order.take(n);
    let ids = saved_ids(plots, now);
    if n > 0 {
        lemma_saved_ids(plots, order, n - 1);
        let head = order.take(n - 1);
        let before = saved_ids(plots, head);
        assert(now.drop_last() =~= head);
        assert(now.last() == order[n - 1]);
        assert forall|id: PlotId| #[trigger] ids.contains(id) <==> now.contains(id) && saves(
            plots,
            id,
        ) by {
            if ids.contains(id) {
                let k = choose|k: int| 0 <= k < ids.len() && ids[k] == id;
                if k < before.len() {
                    assert(before[k] == id);
                    assert(before.contains(id));
                    let j = choose|j: int| 0 <= j < head.len() && head[j] == id;
                    assert(now[j] == id);
                } else {
                    assert(now[n - 1] == id);
                }
            }
            if now.contains(id) && saves(plots, id) {
                let j = choose|j: int| 0 <= j < now.len() && now[j] == id;
                if j < n - 1 {
                    assert(head[j] == id);
                    assert(before.contains(id));
                    let k = choose|k: int| 0 <= k < before.len() && before[k] == id;
                    assert(ids[k] == id);
                } else {
                    assert(ids[ids.len() - 1] == id);
                }
            }
        }
        if order.no_duplicates() && saves(plots, order[n - 1]) {
            assert(!before.contains(order[n - 1])) by {
                if before.contains(order[n - 1]) {
                    assert(head.contains(order[n - 1]));
                    let j = choose|j: int| 0 <= j < head.len() && head[j] == order[n - 1];
                    assert(order[j] == order[n - 1]);
                }
            }
        }
    }
}

proof fn lemma_plots_survive(
    plots: Map<u64, PlotKind>,
    by_id: Map<ChannelId, ChannelInfo>,
    channels: Seq<ChannelInfo>,
    order: Seq<PlotId>,
    specs: Seq<PlotSpec>,
    places: Seq<Option<usize>>,
    n: int,
)
    requires
        consistent(channels, by_id),
        are_saved_plots(plots, by_id, order, specs, places),
        forall|id: u64| #[trigger] plots.contains_key(id) && is_saved(plots[id]) ==> fits(
            plots[id],
            by_id,
        ),
        specs.len() <= u64::MAX,
        0 <= n <= order.len(),
    ensures
        saved_before(plots, order, n) <= specs.len(),
        applied(specs_view(specs).take(saved_before(plots, order, n) as int), channels)
            == all_restored(plots, saved_ids(plots, order.take(n))),
    decreases n,
{
    lemma_saved_before_grows(plots, order, n);
    lemma_saved_ids(plots, order, n);
    let k = saved_before(plots, order, n) as int;
    let all = specs_view(specs);
    let ids = saved_ids(plots, order.take(n));
    if n == 0 {
        assert(all.take(0) =~= Seq::empty());
        assert(all_restored(plots, ids) =~= AppliedView::start());
    } else {
        lemma_plots_survive(plots, by_id, channels, order, specs, places, n - 1);
        lemma_saved_ids(plots, order, n - 1);
        let id = order[n - 1];
        assert(order.take(n).drop_last() =~= order.take(n - 1));
        assert(order.take(n).last() == id);
        assert(places[n - 1] is Some <==> saves(plots, id));
        if saves(plots, id) {
            let before = all_restored(plots, saved_ids(plots, order.take(n - 1)));
            assert(all.take(k).drop_last() =~= all.take(k - 1));
            assert(all.take(k).last() == specs[k - 1]@);
            assert(plots.contains_key(id.0));
            law_plot_survives_layout(plots[id.0], specs[k - 1]@, channels, by_id, before);
            let now = before.with_plot(unselected(plot_view(plots[id.0])));
            let want = all_restored(plots, ids);
            assert(now.plots =~= want.plots);
            assert(now.ids =~= want.ids);
            assert(now =~= want);
        }
    }
}

proof fn lemma_saved_before_grows(plots: Map<u64, PlotKind>, order: Seq<PlotId>, n: int)
    requires
        0 <= n <= order.len(),
    ensures
        saved_before(plots, order, n) <= saved_before(plots, order, order.len() as int),
    decreases order.len() - n,
{
    if n < order.len() {
        lemma_saved_before_grows(plots, order, n + 1);
    }
}

/// A workspace comes back from a layout as it was saved: where the channels of its plots
/// are there, every plot that is saved is made again, once, in the order of the tabs, as
/// it was but for its selection of signals, and nothing is missing or dropped.
pub proof fn law_workspace_survives_layout(
    plots: Map<u64, PlotKind>,
    by_id: Map<ChannelId, ChannelInfo>,
    channels: Seq<ChannelInfo>,
    tabs: Seq<PlotId>,
    order: Seq<PlotId>,
    specs: Seq<PlotSpec>,
    places: Seq<Option<usize>>,
)
    requires
        consistent(channels, by_id),
        forall|id: u64| #[trigger] plots.contains_key(id) && is_saved(plots[id]) ==> fits(
            plots[id],
            by_id,
        ),
        is_plot_order(order, tabs, plots),
        are_saved_plots(plots, by_id, order, specs, places),
        specs.len() <= u64::MAX,
    ensures
        applied(specs_view(specs), channels) == all_restored(plots, saved_ids(plots, order)),
        saved_ids(plots, order).no_duplicates(),
        forall|id: PlotId| #[trigger]
            saved_ids(plots, order).contains(id) <==> saves(plots, id),
{
    let n = order.len() as int;
    lemma_plots_survive(plots, by_id, channels, order, specs, places, n);
    lemma_saved_ids(plots, order, n);
    assert(order.take(n) =~= order);
    assert(specs_view(specs).take(specs.len() as int) =~= specs_view(specs));
    assert forall|id: PlotId| #[trigger] saved_ids(plots, order).contains(id) <==> saves(
        plots,
        id,
    ) by {
        if saves(plots, id) {
            assert(order.contains(id));
        }
    }
}

proof fn lemma_marker_place(m: Seq<MarkerView>, i: int, n: int)
    requires
        0 <= i < n <= m.len(),
        forall|i: int, j: int|
            0 <= i < j < m.len() ==> (#[trigger] m[i]).id != (#[trigger] m[j]).id,
    ensures
        marker_place_of(m, m[i].id, n) == i,
    decreases n,
{
    if i < n - 1 {
        assert(m[i].id != m[n - 1].id);
        lemma_marker_place(m, i, n - 1);
    }
}

/// Whether the link of a restored set is that of the saved one: it joins the markers
/// at the same places, at the same height, with the same signals.
pub open spec fn same_link(m: MarkersView, r: MarkersView, i: int) -> bool {
    let l = m.links[i];
    let k = r.links[i];
    &&& exists|a: int|
        0 <= a < m.markers.len() && (#[trigger] m.markers[a]).id == l.a && r.markers[a].id == k.a
    &&& exists|b: int|
        0 <= b < m.markers.len() && (#[trigger] m.markers[b]).id == l.b && r.markers[b].id == k.b
    &&& k.y_frac == l.y_frac
    &&& k.signals == l.signals
}

proof fn lemma_links_survive(
    markers: Seq<MarkerView>,
    links: Seq<LinkView>,
    channels: Seq<ChannelInfo>,
    by_id: Map<ChannelId, ChannelInfo>,
)
    requires
        consistent(channels, by_id),
        markers.len() < u64::MAX,
        markers.len() <= usize::MAX,
        forall|i: int, j: int|
            0 <= i < j < markers.len() ==> (#[trigger] markers[i]).id != (#[trigger] markers[j]).id,
        forall|i: int|
            0 <= i < links.len() ==> has_marker(markers, (#[trigger] links[i]).a) && has_marker(
                markers,
                links[i].b,
            ),
        forall|i: int, j: int|
            0 <= i < links.len() && 0 <= j < links[i].signals.len() ==> by_id.contains_key(
                #[trigger] links[i].signals[j],
            ),
    ensures
        ({
            let r = relinked(saved_links(markers, links, by_id), markers.len(), channels);
            &&& r.len() == links.len()
            &&& forall|i: int|
                0 <= i < links.len() ==> {
                    &&& (#[trigger] r[i]).a == marker_place_of(
                        markers,
                        links[i].a,
                        markers.len() as int,
                    ) + 1
                    &&& r[i].b == marker_place_of(markers, links[i].b, markers.len() as int) + 1
                    &&& r[i].y_frac == links[i].y_frac
                    &&& r[i].signals == links[i].signals
                }
        }),
    decreases links.len(),
{
    if links.len() > 0 {
        let head = links.drop_last();
        let n = markers.len() as int;
        assert forall|i: int| 0 <= i < head.len() implies has_marker(
            markers,
            (#[trigger] head[i]).a,
        ) && has_marker(markers, head[i].b) by {
            assert(has_marker(markers, links[i].a));
        }
        assert forall|i: int, j: int|
            0 <= i < head.len() && 0 <= j < head[i].signals.len() implies by_id.contains_key(
            #[trigger] head[i].signals[j],
        ) by {
            assert(by_id.contains_key(links[i].signals[j]));
        }
        lemma_links_survive(markers, head, channels, by_id);
        let l = links.last();
        assert(links[links.len() - 1] == l);
        let a = choose|a: int| 0 <= a < n && (#[trigger] markers[a]).id == l.a;
        let b = choose|b: int| 0 <= b < n && (#[trigger] markers[b]).id == l.b;
        lemma_marker_place(markers, a, n);
        lemma_marker_place(markers, b, n);
        assert forall|j: int| 0 <= j < l.signals.len() implies by_id.contains_key(
            #[trigger] l.signals[j],
        ) by {
            assert(by_id.contains_key(links[links.len() - 1].signals[j]));
        }
        law_paths_resolve_back(l.signals, channels, by_id);
        let s = saved_links(markers, links, by_id);
        assert(s.drop_last() =~= saved_links(markers, head, by_id));
        let r = relinked(s, markers.len(), channels);
        let r0 = relinked(s.drop_last(), markers.len(), channels);
        assert forall|i: int| 0 <= i < links.len() implies (#[trigger] r[i]).a == marker_place_of(
            markers,
            links[i].a,
            n,
        ) + 1 && r[i].b == marker_place_of(markers, links[i].b, n) + 1 && r[i].y_frac
            == links[i].y_frac && r[i].signals == links[i].signals by {
            if i < head.len() {
                assert(r[i] == r0[i]);
                assert(head[i] == links[i]);
            }
        }
    }
}

/// Markers and links come back from a layout as they were, under new numbers: each
/// marker at its place, with its time, name and colour, and each link between the same
/// markers, where the link's ends and signals exist.
pub proof fn law_markers_survive_layout(
    m: MarkersView,
    channels: Seq<ChannelInfo>,
    by_id: Map<ChannelId, ChannelInfo>,
)
    requires
        m.wf(),
        consistent(channels, by_id),
        m.markers.len() < u64::MAX,
        m.markers.len() <= usize::MAX,
        forall|i: int|
            0 <= i < m.links.len() ==> has_marker(m.markers, (#[trigger] m.links[i]).a)
                && has_marker(m.markers, m.links[i].b),
        forall|i: int, j: int|
            0 <= i < m.links.len() && 0 <= j < m.links[i].signals.len() ==> by_id.contains_key(
                #[trigger] m.links[i].signals[j],
            ),
    ensures
        ({
            let r = restored(
                saved_markers(m.markers),
                saved_links(m.markers, m.links, by_id),
                channels,
            );
            &&& r.markers.len() == m.markers.len()
            &&& forall|i: int|
                0 <= i < m.markers.len() ==> (#[trigger] r.markers[i]).t_ns == m.markers[i].t_ns
                    && r.markers[i].label == m.markers[i].label && r.markers[i].color
                    == m.markers[i].color
            &&& r.links.len() == m.links.len()
            &&& forall|i: int| 0 <= i < m.links.len() ==> #[trigger] same_link(m, r, i)
        }),
{
    lemma_links_survive(m.markers, m.links, channels, by_id);
    let r = restored(
        saved_markers(m.markers),
        saved_links(m.markers, m.links, by_id),
        channels,
    );
    let n = m.markers.len() as int;
    assert forall|i: int| 0 <= i < m.links.len() implies #[trigger] same_link(m, r, i) by {
        let l = m.links[i];
        let k = r.links[i];
        let a = choose|a: int| 0 <= a < n && (#[trigger] m.markers[a]).id == l.a;
        let b = choose|b: int| 0 <= b < n && (#[trigger] m.markers[b]).id == l.b;
        lemma_marker_place(m.markers, a, n);
        lemma_marker_place(m.markers, b, n);
        assert(r.markers[a].id == k.a);
        assert(r.markers[b].id == k.b);
    }
}

/// Plots that are filled channel by channel fit: one that has no channels does, and one
/// that fits still does after it was given another known channel.
pub proof fn law_filled_plots_fit(
    before: PlotKind,
    after: PlotKind,
    info: ChannelInfo,
    radix: Option<LabelRadix>,
    by_id: Map<ChannelId, ChannelInfo>,
)
    requires
        by_id.contains_key(info.id),
        by_id[info.id] == info,
        fits(before, by_id),
        received(before, after, info.id, info, radix),
    ensures
        fits(after, by_id),
        forall|p: ScalarPanel|
            p.channels@.len() == 0 && p.styles@.dom().is_empty() ==> #[trigger] fits(
                PlotKind::Scalar(p),
                by_id,
            ),
        forall|p: LogicAnalyserPanel|
            p.lanes@.len() == 0 ==> #[trigger] fits(PlotKind::LogicAnalyser(p), by_id),
{
    match (before, after) {
        (PlotKind::Scalar(p), PlotKind::Scalar(q)) => {
            if p.takes(info) {
                assert forall|i: int, j: int|
                    0 <= i < q.channels@.len() && 0 <= j < q.channels@.len() && i
                        != j implies q.channels@[i] != q.channels@[j] by {
                    let n = p.channels@.len();
                    if i < n && j < n {
                        assert(p.channels@[i] != p.channels@[j]);
                    } else if i < n {
                        assert(p.channels@.contains(p.channels@[i]));
                    } else {
                        assert(p.channels@.contains(p.channels@[j]));
                    }
                }
                assert forall|i: int| 0 <= i < q.channels@.len() implies by_id.contains_key(
                    #[trigger] q.channels@[i],
                ) && by_id[q.channels@[i]].kind is Scalar by {
                    if i < p.channels@.len() {
                        assert(by_id.contains_key(p.channels@[i]));
                    }
                }
            }
        },
        (PlotKind::LogicAnalyser(p), PlotKind::LogicAnalyser(q)) => {
            let lanes = lanes_with(p.lanes@, info);
            assert forall|i: int| 0 <= i < lanes.len() implies by_id.contains_key(
                (#[trigger] lanes[i]).ch,
            ) && is_logic(by_id[lanes[i].ch]) && (lanes[i].mode == LaneMode::Named
                ==> by_id[lanes[i].ch].kind is State) by {
                if i < p.lanes@.len() {
                    assert(by_id.contains_key(p.lanes@[i].ch));
                }
            }
            assert forall|i: int, j: int| 0 <= i < j < lanes.len() implies (#[trigger] lanes[i]).ch
                != (#[trigger] lanes[j]).ch by {
                if j < p.lanes@.len() {
                    assert(p.lanes@[i].ch != p.lanes@[j].ch);
                } else {
                    assert(p.lanes@[i].ch != info.id);
                }
            }
            assert(q.lanes@.len() == lanes.len());
            assert forall|i: int| 0 <= i < lanes.len() implies (#[trigger] q.lanes@[i]).ch
                == lanes[i].ch && q.lanes@[i].mode == lanes[i].mode by {}
            assert forall|i: int, j: int| 0 <= i < j < q.lanes@.len() implies (
            #[trigger] q.lanes@[i]).ch != (#[trigger] q.lanes@[j]).ch by {
                assert(lanes[i].ch != lanes[j].ch);
            }
        },
        _ => {},
    }
}

} // verus!
