//! Saving the present workspace as a layout.

use crate::layout::{Layout, LinkSpec, LogicLaneSpec, MarkerSpec, PlotSpec, SCHEMA_VERSION};
use crate::markers::{Link, Marker, MarkerSet};
use crate::panels::{PlotId, PlotKind, PlotRegistry, ScalarPanel, SignalStyle};
use crate::store::{ChannelId, ChannelInfo};
use crate::text::same_text;
use std::collections::HashMap;
use vstd::prelude::*;

verus! {

use crate::layout::{
    lane_specs_of, link_specs_of, marker_specs_of, styles_of, texts_of, LaneSpecView,
    LinkSpecView, MarkerSpecView, PlotSpecView,
};
use crate::markers::{links_view, markers_view, LinkView, MarkerView};
use crate::panels::LogicLane;

broadcast use vstd::std_specs::hash::group_hash_axioms;

/// The paths of the channels that are known.
pub open spec fn paths_of(ids: Seq<ChannelId>, by_id: Map<ChannelId, ChannelInfo>) -> Seq<Seq<char>>
    decreases ids.len(),
{
    if ids.len() == 0 {
        Seq::empty()
    } else {
        let before = paths_of(ids.drop_last(), by_id);
        if by_id.contains_key(ids.last()) {
            before.push(by_id[ids.last()].path@)
        } else {
            before
        }
    }
}

/// Collects the paths of the channels that are known.
fn collect_paths(ids: &Vec<ChannelId>, by_id: &HashMap<ChannelId, ChannelInfo>) -> (r: Vec<String>)
    ensures
        texts_of(r@) == paths_of(ids@, by_id@),
{
    let mut out: Vec<String> = Vec::new();
    let mut i: usize = 0;
    assert(texts_of(out@) =~= Seq::empty());
    while i < ids.len()
        invariant
            i <= ids@.len(),
            texts_of(out@) == paths_of(ids@.take(i as int), by_id@),
        decreases ids@.len() - i,
    {
        assert(ids@.take(i + 1).drop_last() =~= ids@.take(i as int));
        match by_id.get(&ids[i]) {
            Some(info) => {
                let ghost before = out@;
                out.push(info.path.clone());
                assert(texts_of(out@) =~= texts_of(before).push(info.path@));
            },
            None => {},
        }
        i = i + 1;
    }
    assert(ids@.take(ids@.len() as int) =~= ids@);
    out
}

/// The lanes of the channels that are known, by path.
pub open spec fn saved_lanes(lanes: Seq<LogicLane>, by_id: Map<ChannelId, ChannelInfo>) -> Seq<
    LaneSpecView,
>
    decreases lanes.len(),
{
    if lanes.len() == 0 {
        Seq::empty()
    } else {
        let before = saved_lanes(lanes.drop_last(), by_id);
        let l = lanes.last();
        if by_id.contains_key(l.ch) {
            before.push(
                LaneSpecView { ch_path: by_id[l.ch].path@, radix: l.radix, mode: l.mode },
            )
        } else {
            before
        }
    }
}

fn collect_lanes(lanes: &Vec<LogicLane>, by_id: &HashMap<ChannelId, ChannelInfo>) -> (r: Vec<
    LogicLaneSpec,
>)
    ensures
        lane_specs_of(r@) == saved_lanes(lanes@, by_id@),
{
    let mut out: Vec<LogicLaneSpec> = Vec::new();
    let mut i: usize = 0;
    assert(lane_specs_of(out@) =~= Seq::empty());
    while i < lanes.len()
        invariant
            i <= lanes@.len(),
            lane_specs_of(out@) == saved_lanes(lanes@.take(i as int), by_id@),
        decreases lanes@.len() - i,
    {
        assert(lanes@.take(i + 1).drop_last() =~= lanes@.take(i as int));
        let l = lanes[i];
        match by_id.get(&l.ch) {
            Some(info) => {
                let ghost before = out@;
                out.push(
                    LogicLaneSpec { ch_path: info.path.clone(), radix: l.radix, mode: l.mode },
                );
                assert(lane_specs_of(out@) =~= lane_specs_of(before).push(
                    LaneSpecView { ch_path: info.path@, radix: l.radix, mode: l.mode },
                ));
            },
            None => {},
        }
        i = i + 1;
    }
    assert(lanes@.take(lanes@.len() as int) =~= lanes@);
    out
}

/// Whether the list has a style for the path.
pub open spec fn has_path(styles: Seq<(Seq<char>, SignalStyle)>, path: Seq<char>) -> bool {
    exists|i: int| 0 <= i < styles.len() && (#[trigger] styles[i]).0 == path
}

/// Whether a known channel of the path has the style.
pub open spec fn is_style_of(
    styles: Map<ChannelId, SignalStyle>,
    by_id: Map<ChannelId, ChannelInfo>,
    path: Seq<char>,
    style: SignalStyle,
    id: ChannelId,
) -> bool {
    styles.contains_key(id) && by_id.contains_key(id) && by_id[id].path@ == path && styles[id]
        == style
}

/// Whether some known channel of the path has the style.
pub open spec fn has_style(
    styles: Map<ChannelId, SignalStyle>,
    by_id: Map<ChannelId, ChannelInfo>,
    path: Seq<char>,
    style: SignalStyle,
) -> bool {
    exists|id: ChannelId| is_style_of(styles, by_id, path, style, id)
}

/// Whether the list holds the styles by path: one for each path, every one of a known
/// channel, and none of a known channel left out.
pub open spec fn are_saved_styles(
    styles: Map<ChannelId, SignalStyle>,
    by_id: Map<ChannelId, ChannelInfo>,
    saved: Seq<(Seq<char>, SignalStyle)>,
) -> bool {
    &&& forall|i: int, j: int|
        0 <= i < j < saved.len() ==> (#[trigger] saved[i]).0 != (#[trigger] saved[j]).0
    &&& forall|i: int|
        0 <= i < saved.len() ==> has_style(styles, by_id, (#[trigger] saved[i]).0, saved[i].1)
    &&& forall|id: ChannelId| #[trigger]
        styles.contains_key(id) && by_id.contains_key(id) ==> has_path(saved, by_id[id].path@)
}

/// Sets the style of a path in a list that has each path once.
fn put_style(saved: &mut Vec<(String, SignalStyle)>, path: &str, style: SignalStyle)
    requires
        forall|i: int, j: int|
            0 <= i < j < old(saved)@.len() ==> (#[trigger] old(saved)@[i]).0@ != (
            #[trigger] old(saved)@[j]).0@,
    ensures
        forall|i: int, j: int|
            0 <= i < j < final(saved)@.len() ==> (#[trigger] final(saved)@[i]).0@ != (
            #[trigger] final(saved)@[j]).0@,
        forall|i: int|
            0 <= i < final(saved)@.len() ==> ((#[trigger] final(saved)@[i]).0@ == path@ && final(
                saved)@[i].1 == style) || old(saved)@.contains(final(saved)@[i]),
        forall|p: Seq<char>| #[trigger]
            has_path(styles_of(final(saved)@), p) <==> has_path(styles_of(old(saved)@), p) || p
                == path@,
{
    let ghost before = saved@;
    let mut i: usize = 0;
    while i < saved.len() && !same_text(saved[i].0.as_str(), path)
        invariant
            i <= saved@.len(),
            saved@ == before,
            forall|j: int| 0 <= j < i ==> (#[trigger] before[j]).0@ != path@,
        decreases saved@.len() - i,
    {
        i = i + 1;
    }
    if i < saved.len() {
        saved[i].1 = style;
        proof {
            assert(saved@.len() == before.len());
            assert forall|j: int| 0 <= j < before.len() implies (#[trigger] saved@[j]).0
                == before[j].0 && (j != i ==> saved@[j] == before[j]) by {}
            let a = styles_of(before);
            let b = styles_of(saved@);
            assert forall|j: int| 0 <= j < a.len() implies (#[trigger] a[j]).0 == b[j].0 by {
                assert(saved@[j].0 == before[j].0);
            }
            assert forall|p: Seq<char>| #[trigger] has_path(b, p) <==> has_path(a, p) || p
                == path@ by {
                if has_path(a, p) {
                    let j = choose|j: int| 0 <= j < a.len() && (#[trigger] a[j]).0 == p;
                    assert(b[j].0 == p);
                }
                if has_path(b, p) {
                    let j = choose|j: int| 0 <= j < b.len() && (#[trigger] b[j]).0 == p;
                    assert(a[j].0 == p);
                }
                assert(b[i as int].0 == path@);
            }
        }
    } else {
        saved.push((path.to_owned(), style));
        proof {
            let a = styles_of(before);
            let b = styles_of(saved@);
            let n = before.len() as int;
            assert(forall|j: int| 0 <= j < n ==> saved@[j] == #[trigger] before[j]);
            assert forall|p: Seq<char>| #[trigger] has_path(b, p) <==> has_path(a, p) || p
                == path@ by {
                if has_path(a, p) {
                    let j = choose|j: int| 0 <= j < a.len() && (#[trigger] a[j]).0 == p;
                    assert(b[j] == a[j]);
                }
                assert(b[n].0 == path@);
                if has_path(b, p) && p != path@ {
                    let j = choose|j: int| 0 <= j < b.len() && (#[trigger] b[j]).0 == p;
                    assert(a[j] == b[j]);
                }
            }
            assert forall|i: int| 0 <= i < saved@.len() implies ((#[trigger] saved@[i]).0@ == path@
                && saved@[i].1 == style) || before.contains(saved@[i]) by {
                if i < n {
                    assert(before[i] == saved@[i]);
                }
            }
        }
    }
}

fn collect_styles(p: &ScalarPanel, by_id: &HashMap<ChannelId, ChannelInfo>) -> (r: Vec<
    (String, SignalStyle),
>)
    ensures
        are_saved_styles(p.styles@, by_id@, styles_of(r@)),
{
    let all = p.styles_iter();
    let ghost m = p.styles@;
    let mut out: Vec<(String, SignalStyle)> = Vec::new();
    let mut i: usize = 0;
    while i < all.len()
        invariant
            i <= all@.len(),
            m == p.styles@,
            all@.to_set() == m.kv_pairs(),
            forall|a: int, b: int|
                0 <= a < b < out@.len() ==> (#[trigger] out@[a]).0@ != (#[trigger] out@[b]).0@,
            forall|k: int|
                0 <= k < out@.len() ==> has_style(m, by_id@, (#[trigger] out@[k]).0@, out@[k].1),
            forall|k: int|
                0 <= k < i && by_id@.contains_key((#[trigger] all@[k]).0) ==> has_path(
                    styles_of(out@),
                    by_id@[all@[k].0].path@,
                ),
        decreases all@.len() - i,
    {
        let (id, style) = all[i];
        proof {
            assert(all@.to_set().contains(all@[i as int]));
            assert(m.kv_pairs().contains((id, style)));
        }
        match by_id.get(&id) {
            Some(info) => {
                let ghost before = out@;
                put_style(&mut out, info.path.as_str(), style);
                assert forall|k: int| 0 <= k < out@.len() implies has_style(
                    m,
                    by_id@,
                    (#[trigger] out@[k]).0@,
                    out@[k].1,
                ) by {
                    if before.contains(out@[k]) {
                        let j = choose|j: int| 0 <= j < before.len() && before[j] == out@[k];
                        assert(has_style(m, by_id@, before[j].0@, before[j].1));
                    } else {
                        assert(is_style_of(m, by_id@, out@[k].0@, out@[k].1, id));
                    }
                }
            },
            None => {},
        }
        i = i + 1;
    }
    proof {
        let saved = styles_of(out@);
        assert forall|i: int, j: int| 0 <= i < j < saved.len() implies (#[trigger] saved[i]).0 != (
        #[trigger] saved[j]).0 by {
            assert(out@[i].0@ != out@[j].0@);
        }
        assert forall|i: int| 0 <= i < saved.len() implies has_style(
            m,
            by_id@,
            (#[trigger] saved[i]).0,
            saved[i].1,
        ) by {
            assert(has_style(m, by_id@, out@[i].0@, out@[i].1));
        }
        assert forall|id: ChannelId| #[trigger]
            m.contains_key(id) && by_id@.contains_key(id) implies has_path(
            saved,
            by_id@[id].path@,
        ) by {
            assert(m.kv_pairs().contains((id, m[id])));
            assert(all@.to_set().contains((id, m[id])));
            let k = choose|k: int| 0 <= k < all@.len() && all@[k] == (id, m[id]);
            assert(by_id@.contains_key(all@[k].0));
        }
    }
    out
}

/// The path of a channel; empty for one that is not known.
pub open spec fn path_or_empty(by_id: Map<ChannelId, ChannelInfo>, ch: ChannelId) -> Seq<char> {
    if by_id.contains_key(ch) {
        by_id[ch].path@
    } else {
        Seq::empty()
    }
}

fn find_path(by_id: &HashMap<ChannelId, ChannelInfo>, ch: ChannelId) -> (r: String)
    ensures
        r@ == path_or_empty(by_id@, ch),
{
    match by_id.get(&ch) {
        Some(info) => info.path.clone(),
        None => String::new(),
    }
}

/// Whether a plot is saved in a layout. Log views are not.
pub open spec fn is_saved(kind: PlotKind) -> bool {
    !(kind is LogView)
}

/// Whether the spec is what a layout holds of the plot.
pub open spec fn is_spec_of(
    kind: PlotKind,
    by_id: Map<ChannelId, ChannelInfo>,
    spec: PlotSpecView,
) -> bool {
    match kind {
        PlotKind::Scalar(p) => spec matches PlotSpecView::Scalar { title, channels, styles }
            && title == p.title@ && channels == paths_of(p.channels@, by_id) && are_saved_styles(
            p.styles@,
            by_id,
            styles,
        ),
        PlotKind::LogicAnalyser(p) => spec == (PlotSpecView::LogicAnalyser {
            title: p.title@,
            lanes: saved_lanes(p.lanes@, by_id),
        }),
        PlotKind::XY(p) => spec == (PlotSpecView::Xy {
            title: p.title@,
            x: path_or_empty(by_id, p.x),
            y: path_or_empty(by_id, p.y),
            trail_ns: p.trail_ns,
        }),
        PlotKind::LogView(_) => false,
    }
}

/// What a layout holds of a plot; nothing of one that is not saved.
pub fn spec_from_kind(kind: &PlotKind, by_id: &HashMap<ChannelId, ChannelInfo>) -> (r: Option<
    PlotSpec,
>)
    ensures
        match r {
            Some(s) => is_saved(*kind) && is_spec_of(*kind, by_id@, s@),
            None => !is_saved(*kind),
        },
{
    match kind {
        PlotKind::Scalar(p) => {
            let channels = collect_paths(&p.channels, by_id);
            let styles = collect_styles(p, by_id);
            Some(PlotSpec::Scalar { title: p.title.clone(), channels, styles })
        },
        PlotKind::LogicAnalyser(p) => {
            let lanes = collect_lanes(&p.lanes, by_id);
            Some(PlotSpec::LogicAnalyser { title: p.title.clone(), lanes })
        },
        PlotKind::XY(p) => Some(
            PlotSpec::Xy {
                title: p.title.clone(),
                x: find_path(by_id, p.x),
                y: find_path(by_id, p.y),
                trail_ns: p.trail_ns,
            },
        ),
        PlotKind::LogView(_) => None,
    }
}

/// The plots of the tabs, each once, in the order in which they first come.
pub open spec fn first_seen(tabs: Seq<PlotId>) -> Seq<PlotId>
    decreases tabs.len(),
{
    if tabs.len() == 0 {
        Seq::empty()
    } else {
        let before = first_seen(tabs.drop_last());
        if before.contains(tabs.last()) {
            before
        } else {
            before.push(tabs.last())
        }
    }
}

fn contains_plot(v: &Vec<PlotId>, id: PlotId) -> (r: bool)
    ensures
        r == v@.contains(id),
{
    let mut i: usize = 0;
    while i < v.len() && v[i].0 != id.0
        invariant
            i <= v@.len(),
            forall|j: int| 0 <= j < i ==> (#[trigger] v@[j]).0 != id.0,
        decreases v@.len() - i,
    {
        i = i + 1;
    }
    assert(i < v@.len() ==> v@[i as int] == id);
    i < v.len()
}

proof fn lemma_first_seen(tabs: Seq<PlotId>)
    ensures
        first_seen(tabs).no_duplicates(),
    decreases tabs.len(),
{
    if tabs.len() > 0 {
        lemma_first_seen(tabs.drop_last());
    }
}

/// Whether the order is that of the tabs, followed by the plots without a tab.
pub open spec fn is_plot_order(order: Seq<PlotId>, tabs: Seq<PlotId>, plots: Map<u64, PlotKind>) -> bool {
    let head = first_seen(tabs);
    &&& order.no_duplicates()
    &&& head.len() <= order.len()
    &&& order.take(head.len() as int) == head
    &&& forall|id: PlotId| #[trigger]
        order.contains(id) <==> head.contains(id) || plots.contains_key(id.0)
}

/// The order in which plots are saved.
pub fn plot_order(tabs: &Vec<PlotId>, plots: &PlotRegistry) -> (r: Vec<PlotId>)
    ensures
        is_plot_order(r@, tabs@, plots@),
{
    let mut out: Vec<PlotId> = Vec::new();
    let mut i: usize = 0;
    while i < tabs.len()
        invariant
            i <= tabs@.len(),
            out@ == first_seen(tabs@.take(i as int)),
        decreases tabs@.len() - i,
    {
        assert(tabs@.take(i + 1).drop_last() =~= tabs@.take(i as int));
        let id = tabs[i];
        if !contains_plot(&out, id) {
            out.push(id);
        }
        i = i + 1;
    }
    let ghost head = out@;
    proof {
        assert(tabs@.take(tabs@.len() as int) =~= tabs@);
        lemma_first_seen(tabs@);
        assert(out@.take(head.len() as int) =~= head);
    }
    let ids = plots.iter_ids();
    let mut k: usize = 0;
    while k < ids.len()
        invariant
            k <= ids@.len(),
            head == first_seen(tabs@),
            out@.no_duplicates(),
            head.len() <= out@.len(),
            out@.take(head.len() as int) == head,
            forall|id: PlotId| #[trigger]
                out@.contains(id) <==> head.contains(id) || ids@.take(k as int).contains(id),
        decreases ids@.len() - k,
    {
        let id = ids[k];
        let ghost before = out@;
        proof {
            let a = ids@.take(k as int);
            let b = ids@.take(k + 1);
            assert(b =~= a.push(id));
            assert forall|x: PlotId| #[trigger] b.contains(x) <==> a.contains(x) || x == id by {
                if a.contains(x) {
                    let j = choose|j: int| 0 <= j < a.len() && a[j] == x;
                    assert(b[j] == x);
                }
                assert(b[k as int] == id);
                if b.contains(x) && x != id {
                    let j = choose|j: int| 0 <= j < b.len() && b[j] == x;
                    assert(a[j] == x);
                }
            }
        }
        if !contains_plot(&out, id) {
            out.push(id);
            proof {
                assert(out@.take(head.len() as int) =~= before.take(head.len() as int));
                assert forall|x: PlotId| #[trigger] out@.contains(x) <==> before.contains(x) || x
                    == id by {
                    if before.contains(x) {
                        let j = choose|j: int| 0 <= j < before.len() && before[j] == x;
                        assert(out@[j] == x);
                    }
                    assert(out@[before.len() as int] == id);
                    if out@.contains(x) && x != id {
                        let j = choose|j: int| 0 <= j < out@.len() && out@[j] == x;
                        assert(before[j] == x);
                    }
                }
            }
        }
        k = k + 1;
    }
    proof {
        assert(ids@.take(ids@.len() as int) =~= ids@);
        assert forall|id: PlotId| #[trigger] out@.contains(id) <==> head.contains(id)
            || plots@.contains_key(id.0) by {
            assert(ids@.contains(PlotId(id.0)) <==> plots@.contains_key(id.0));
        }
    }
    out
}

/// Whether a plot of the order is saved.
pub open spec fn saves(plots: Map<u64, PlotKind>, id: PlotId) -> bool {
    plots.contains_key(id.0) && is_saved(plots[id.0])
}

/// How many of the first `n` plots of the order are saved.
pub open spec fn saved_before(plots: Map<u64, PlotKind>, order: Seq<PlotId>, n: int) -> nat
    decreases n,
{
    if n <= 0 {
        0
    } else {
        saved_before(plots, order, n - 1) + if saves(plots, order[n - 1]) {
            1nat
        } else {
            0nat
        }
    }
}

/// Whether specs and places say what is saved of the plots in the order: each saved
/// plot has a spec, at the place that is noted for it, and the others have none.
pub open spec fn are_saved_plots(
    plots: Map<u64, PlotKind>,
    by_id: Map<ChannelId, ChannelInfo>,
    order: Seq<PlotId>,
    specs: Seq<PlotSpec>,
    places: Seq<Option<usize>>,
) -> bool {
    &&& places.len() == order.len()
    &&& specs.len() == saved_before(plots, order, order.len() as int)
    &&& forall|i: int|
        0 <= i < order.len() ==> match #[trigger] places[i] {
            Some(k) => saves(plots, order[i]) && k == saved_before(plots, order, i) && k
                < specs.len() && is_spec_of(plots[order[i].0], by_id, specs[k as int]@),
            None => !saves(plots, order[i]),
        }
}

fn save_plots(plots: &PlotRegistry, by_id: &HashMap<ChannelId, ChannelInfo>, order: &Vec<PlotId>) -> (r:
    (Vec<PlotSpec>, Vec<Option<usize>>))
    ensures
        are_saved_plots(plots@, by_id@, order@, r.0@, r.1@),
{
    let mut specs: Vec<PlotSpec> = Vec::new();
    let mut places: Vec<Option<usize>> = Vec::new();
    let mut i: usize = 0;
    while i < order.len()
        invariant
            i <= order@.len(),
            places@.len() == i,
            specs@.len() == saved_before(plots@, order@, i as int),
            forall|j: int|
                0 <= j < i ==> match #[trigger] places@[j] {
                    Some(k) => saves(plots@, order@[j]) && k == saved_before(plots@, order@, j)
                        && k < specs@.len() && is_spec_of(
                        plots@[order@[j].0],
                        by_id@,
                        specs@[k as int]@,
                    ),
                    None => !saves(plots@, order@[j]),
                },
        decreases order@.len() - i,
    {
        let ghost before = specs@;
        let saved = match plots.get(order[i]) {
            Some(kind) => spec_from_kind(kind, by_id),
            None => None,
        };
        match saved {
            Some(spec) => {
                places.push(Some(specs.len()));
                specs.push(spec);
                assert(forall|k: int| 0 <= k < before.len() ==> specs@[k] == before[k]);
            },
            None => {
                places.push(None);
            },
        }
        i = i + 1;
    }
    (specs, places)
}

/// The last place of a marker with the id, or -1.
pub open spec fn marker_place_of(m: Seq<MarkerView>, id: u64, n: int) -> int
    decreases n,
{
    if n <= 0 {
        -1
    } else if m[n - 1].id == id {
        n - 1
    } else {
        marker_place_of(m, id, n - 1)
    }
}

/// The saved links: those whose ends exist, by the places of the markers.
pub open spec fn saved_links(
    markers: Seq<MarkerView>,
    links: Seq<LinkView>,
    by_id: Map<ChannelId, ChannelInfo>,
) -> Seq<LinkSpecView>
    decreases links.len(),
{
    if links.len() == 0 {
        Seq::empty()
    } else {
        let before = saved_links(markers, links.drop_last(), by_id);
        let l = links.last();
        let a = marker_place_of(markers, l.a, markers.len() as int);
        let b = marker_place_of(markers, l.b, markers.len() as int);
        if a >= 0 && b >= 0 {
            before.push(
                LinkSpecView {
                    a_index: a as usize,
                    b_index: b as usize,
                    y_frac: l.y_frac,
                    signal_paths: paths_of(l.signals, by_id),
                },
            )
        } else {
            before
        }
    }
}

/// The saved markers.
pub open spec fn saved_markers(markers: Seq<MarkerView>) -> Seq<MarkerSpecView> {
    markers.map_values(
        |m: MarkerView|
            MarkerSpecView { t_ns: m.t_ns, label: m.label, color: m.color, chain: None },
    )
}

fn find_marker(markers: &Vec<Marker>, id: u64) -> (r: Option<usize>)
    ensures
        match r {
            Some(i) => i == marker_place_of(markers_view(markers@), id, markers@.len() as int),
            None => marker_place_of(markers_view(markers@), id, markers@.len() as int) == -1,
        },
{
    let ghost m = markers_view(markers@);
    let n: usize = markers.len();
    let mut k: usize = n;
    while k > 0 && markers[k - 1].id != id
        invariant
            k <= n == markers@.len(),
            m == markers_view(markers@),
            marker_place_of(m, id, n as int) == marker_place_of(m, id, k as int),
        decreases k,
    {
        assert(m[k - 1] == markers@[k - 1]@);
        k = k - 1;
    }
    if k > 0 {
        assert(m[k - 1] == markers@[k - 1]@);
        Some(k - 1)
    } else {
        None
    }
}

fn save_markers(markers: &Vec<Marker>) -> (r: Vec<MarkerSpec>)
    ensures
        marker_specs_of(r@) == saved_markers(markers_view(markers@)),
{
    let mut out: Vec<MarkerSpec> = Vec::new();
    let mut i: usize = 0;
    while i < markers.len()
        invariant
            i <= markers@.len(),
            out@.len() == i,
            forall|j: int|
                0 <= j < i ==> (#[trigger] out@[j])@ == (MarkerSpecView {
                    t_ns: markers@[j].t_ns,
                    label: markers@[j].label@,
                    color: markers@[j].color,
                    chain: None,
                }),
        decreases markers@.len() - i,
    {
        let m = &markers[i];
        out.push(
            MarkerSpec { t_ns: m.t_ns, label: m.label.clone(), color: m.color, chain: None },
        );
        i = i + 1;
    }
    assert(marker_specs_of(out@) =~= saved_markers(markers_view(markers@)));
    out
}

fn save_links(
    markers: &Vec<Marker>,
    links: &Vec<Link>,
    by_id: &HashMap<ChannelId, ChannelInfo>,
) -> (r: Vec<LinkSpec>)
    ensures
        link_specs_of(r@) == saved_links(markers_view(markers@), links_view(links@), by_id@),
{
    let ghost all = links_view(links@);
    let ghost m = markers_view(markers@);
    let mut out: Vec<LinkSpec> = Vec::new();
    let mut i: usize = 0;
    assert(link_specs_of(out@) =~= Seq::empty());
    while i < links.len()
        invariant
            i <= links@.len(),
            all == links_view(links@),
            m == markers_view(markers@),
            link_specs_of(out@) == saved_links(m, all.take(i as int), by_id@),
        decreases links@.len() - i,
    {
        let l = &links[i];
        proof {
            assert(all.take(i + 1).drop_last() =~= all.take(i as int));
            assert(all.take(i + 1).last() == l@);
        }
        match (find_marker(markers, l.a), find_marker(markers, l.b)) {
            (Some(a), Some(b)) => {
                let ghost before = out@;
                let spec = LinkSpec {
                    a_index: a,
                    b_index: b,
                    y_frac: l.y_frac,
                    signal_paths: collect_paths(&l.signals, by_id),
                };
                out.push(spec);
                assert(link_specs_of(out@) =~= link_specs_of(before).push(spec@));
            },
            _ => {},
        }
        i = i + 1;
    }
    assert(all.take(links@.len() as int) =~= all);
    out
}

/// A saved workspace: the layout, the order of the plots, and where each of them
/// stands in the layout.
pub struct Saved {
    pub layout: Layout,
    pub order: Vec<PlotId>,
    pub places: Vec<Option<usize>>,
}

/// Saves the workspace as a layout. The tabs are the plots of the dock, in order;
/// plots without a tab come after them.
pub fn capture(
    name: &str,
    plots: &PlotRegistry,
    tabs: &Vec<PlotId>,
    by_id: &HashMap<ChannelId, ChannelInfo>,
    markers: &MarkerSet,
) -> (r: Saved)
    ensures
        r.layout.version == SCHEMA_VERSION,
        r.layout.name@ == name@,
        is_plot_order(r.order@, tabs@, plots@),
        are_saved_plots(plots@, by_id@, r.order@, r.layout.plots@, r.places@),
        marker_specs_of(r.layout.markers@) == saved_markers(markers@.markers),
        link_specs_of(r.layout.links@) == saved_links(markers@.markers, markers@.links, by_id@),
{
    let order = plot_order(tabs, plots);
    let (specs, places) = save_plots(plots, by_id, &order);
    let layout = Layout {
        version: SCHEMA_VERSION,
        name: name.to_owned(),
        plots: specs,
        markers: save_markers(markers.all_markers()),
        links: save_links(markers.all_markers(), markers.all_links(), by_id),
    };
    Saved { layout, order, places }
}

} // verus!
