//! What layouts bring back, and what they leave out.

use vstd::prelude::*;

verus! {

use crate::grouping::{occurs_at, occurs_in};
use crate::layout::{
    apply_suffix, chain_before, chain_links, dashed, is_plain, is_safe, links_of_chain, listed,
    missing_text, noted, slug_of, without_leading, without_trailing, LaneSpecView,
    MarkerSpecView, PlotSpecView,
};
use crate::layout_apply::{
    applied, lanes_of, lookup, scalars_of, states_of, styles_for, surviving, AppliedView,
    PlotView,
};
use crate::num::{double_of_int, double_of_nat};
use crate::num_laws::law_whole_doubles_cut_back;
use crate::panels::{has_lane, LaneMode, PlotId, PlotKind, SignalStyle};
use crate::store::{ChannelId, ChannelInfo, ChannelKind};
use crate::text::decimal;
use crate::workspace::{cursor_value, on_tabs, shown_channels, without_closed};

/// A channel is looked up by its path: the last that has it, and none only where no
/// channel has it.
pub proof fn law_channel_is_found_by_its_path(channels: Seq<ChannelInfo>, path: Seq<char>) -> (k: int)
    ensures
        lookup(channels, path) is None ==> forall|i: int|
            0 <= i < channels.len() ==> (#[trigger] channels[i]).path@ != path,
        lookup(channels, path) matches Some(c) ==> 0 <= k < channels.len() && channels[k] == c
            && c.path@ == path && (forall|i: int|
            k < i < channels.len() ==> (#[trigger] channels[i]).path@ != path),
    decreases channels.len(),
{
    if channels.len() == 0 {
        0
    } else if channels.last().path@ == path {
        channels.len() - 1
    } else {
        let r = channels.drop_last();
        let k = law_channel_is_found_by_its_path(r, path);
        assert forall|i: int| 0 <= i < r.len() implies #[trigger] channels[i] == r[i] by {}
        k
    }
}

/// The channel under a path, where it is numeric.
pub open spec fn scalar_under(channels: Seq<ChannelInfo>, path: Seq<char>) -> Option<ChannelId> {
    match lookup(channels, path) {
        Some(info) => if info.kind is Scalar {
            Some(info.id)
        } else {
            None
        },
        None => None,
    }
}

proof fn lemma_noted(missing: Seq<Seq<char>>, path: Seq<char>, p: Seq<char>)
    ensures
        noted(missing, path).contains(p) <==> missing.contains(p) || p == path,
        missing.no_duplicates() ==> noted(missing, path).no_duplicates(),
        missing.is_prefix_of(noted(missing, path)),
{
    let out = noted(missing, path);
    if !missing.contains(path) {
        assert(out[missing.len() as int] == path);
    }
    if missing.contains(p) {
        let i = choose|i: int| 0 <= i < missing.len() && missing[i] == p;
        assert(out[i] == p);
    }
    if out.contains(p) {
        let i = choose|i: int| 0 <= i < out.len() && out[i] == p;
        if i < missing.len() {
            assert(missing[i] == p);
        }
    }
}

/// A scalar plot gets back, once each, the numeric channels that its paths lead to; every
/// path that leads to none is noted as missing, once, and no other.
pub proof fn law_scalar_plot_gets_its_channels_back(
    channels: Seq<ChannelInfo>,
    paths: Seq<Seq<char>>,
    missing: Seq<Seq<char>>,
    id: ChannelId,
    p: Seq<char>,
)
    ensures
        ({
            let (c, m) = scalars_of(channels, paths, missing);
            &&& c.contains(id) <==> exists|i: int|
                0 <= i < paths.len() && scalar_under(channels, #[trigger] paths[i]) == Some(id)
            &&& c.no_duplicates()
            &&& m.contains(p) <==> missing.contains(p) || (paths.contains(p) && scalar_under(
                channels,
                p,
            ) is None)
            &&& missing.no_duplicates() ==> m.no_duplicates()
        }),
    decreases paths.len(),
{
    let (c, m) = scalars_of(channels, paths, missing);
    if paths.len() > 0 {
        let r = paths.drop_last();
        let last = paths.last();
        law_scalar_plot_gets_its_channels_back(channels, r, missing, id, p);
        let (c1, m1) = scalars_of(channels, r, missing);
        let found = scalar_under(channels, last);
        assert(paths[paths.len() - 1] == last);
        assert forall|i: int| 0 <= i < r.len() implies #[trigger] r[i] == paths[i] by {}
        lemma_noted(m1, last, p);
        if found is Some && !c1.contains(found->0) {
            assert(c == c1.push(found->0));
            assert(c[c1.len() as int] == found->0);
        }
        if c1.contains(id) {
            let i = choose|i: int| 0 <= i < c1.len() && c1[i] == id;
            assert(c[i] == id);
            let k = choose|k: int|
                0 <= k < r.len() && scalar_under(channels, #[trigger] r[k]) == Some(id);
            assert(scalar_under(channels, paths[k]) == Some(id));
        }
        if c.contains(id) && !c1.contains(id) {
            let i = choose|i: int| 0 <= i < c.len() && c[i] == id;
            assert(i == c1.len()) by {
                if i < c1.len() {
                    assert(c1[i] == id);
                }
            }
            assert(scalar_under(channels, paths[paths.len() - 1]) == Some(id));
        }
        if exists|i: int|
            0 <= i < paths.len() && scalar_under(channels, #[trigger] paths[i]) == Some(id) {
            let k = choose|k: int|
                0 <= k < paths.len() && scalar_under(channels, #[trigger] paths[k]) == Some(id);
            if k < r.len() {
                assert(scalar_under(channels, r[k]) == Some(id));
                assert(c1.contains(id));
            } else if found == Some(id) {
                assert(c.contains(id));
            }
        }
        if r.contains(p) {
            let i = choose|i: int| 0 <= i < r.len() && r[i] == p;
            assert(paths[i] == p);
        }
        if paths.contains(p) && p != last {
            let i = choose|i: int| 0 <= i < paths.len() && paths[i] == p;
            assert(r[i] == p);
        }
    }
}

/// The channel under a path, where it can be a lane.
pub open spec fn lane_under(channels: Seq<ChannelInfo>, path: Seq<char>) -> Option<ChannelInfo> {
    match lookup(channels, path) {
        Some(info) => if info.kind is State || info.integer_storage {
            Some(info)
        } else {
            None
        },
        None => None,
    }
}

/// The lanes of a logic analyser come back for the paths that lead to channels that can
/// be lanes, each with the radix that was saved for it, and with its mode, but that a lane
/// without labels is numeric; the other paths are noted as missing.
pub proof fn law_lanes_come_back(
    channels: Seq<ChannelInfo>,
    specs: Seq<LaneSpecView>,
    missing: Seq<Seq<char>>,
    k: int,
    p: Seq<char>,
)
    ensures
        ({
            let (lanes, m) = lanes_of(channels, specs, missing);
            &&& 0 <= k < lanes.len() ==> exists|i: int|
                0 <= i < specs.len() && (lane_under(
                    channels,
                    (#[trigger] specs[i]).ch_path,
                ) matches Some(info) && lanes[k].ch == info.id && lanes[k].radix == specs[i].radix
                    && (info.kind is State || specs[i].mode == LaneMode::Numeric ==> lanes[k].mode
                    == specs[i].mode) && (!(info.kind is State) ==> lanes[k].mode
                    != LaneMode::Named))
            &&& forall|i: int|
                0 <= i < specs.len() ==> (lane_under(
                    channels,
                    (#[trigger] specs[i]).ch_path,
                ) matches Some(info) ==> has_lane(lanes, info.id))
            &&& m.contains(p) <==> missing.contains(p) || exists|i: int|
                0 <= i < specs.len() && (#[trigger] specs[i]).ch_path == p && lane_under(
                    channels,
                    p,
                ) is None
        }),
    decreases specs.len(),
{
    let (lanes, m) = lanes_of(channels, specs, missing);
    if specs.len() > 0 {
        let r = specs.drop_last();
        let last = specs.last();
        let end = specs.len() - 1;
        let (l1, m1) = lanes_of(channels, r, missing);
        law_lanes_come_back(channels, r, missing, k, p);
        lemma_noted(m1, last.ch_path, p);
        assert(specs[end] == last);
        assert forall|i: int| 0 <= i < r.len() implies #[trigger] r[i] == specs[i] by {}
        let found = lane_under(channels, last.ch_path);
        if 0 <= k < lanes.len() {
            if k < l1.len() {
                assert(lanes[k] == l1[k]);
                let i = choose|i: int|
                    0 <= i < r.len() && (lane_under(
                        channels,
                        (#[trigger] r[i]).ch_path,
                    ) matches Some(info) && l1[k].ch == info.id && l1[k].radix == r[i].radix && (
                    info.kind is State || r[i].mode == LaneMode::Numeric ==> l1[k].mode
                        == r[i].mode) && (!(info.kind is State) ==> l1[k].mode != LaneMode::Named));
                assert(specs[i] == r[i]);
            } else {
                assert(found is Some);
                assert(lane_under(channels, specs[end].ch_path) == found);
            }
        }
        assert forall|i: int|
            0 <= i < specs.len() && lane_under(
                channels,
                (#[trigger] specs[i]).ch_path,
            ) is Some implies has_lane(
            lanes,
            (lane_under(channels, specs[i].ch_path)->0).id,
        ) by {
            let info = lane_under(channels, specs[i].ch_path)->0;
            if i < r.len() {
                assert(r[i] == specs[i]);
                assert(has_lane(l1, info.id));
                let q = choose|q: int| 0 <= q < l1.len() && (#[trigger] l1[q]).ch == info.id;
                assert(lanes[q].ch == info.id);
            } else if has_lane(l1, info.id) {
                let q = choose|q: int| 0 <= q < l1.len() && (#[trigger] l1[q]).ch == info.id;
                assert(lanes[q].ch == info.id);
            } else {
                assert(lanes[l1.len() as int].ch == info.id);
            }
        }
        if exists|i: int|
            0 <= i < r.len() && (#[trigger] r[i]).ch_path == p && lane_under(channels, p) is None {
            let i = choose|i: int|
                0 <= i < r.len() && (#[trigger] r[i]).ch_path == p && lane_under(
                    channels,
                    p,
                ) is None;
            assert(specs[i].ch_path == p);
        }
        if exists|i: int|
            0 <= i < specs.len() && (#[trigger] specs[i]).ch_path == p && lane_under(
                channels,
                p,
            ) is None {
            let i = choose|i: int|
                0 <= i < specs.len() && (#[trigger] specs[i]).ch_path == p && lane_under(
                    channels,
                    p,
                ) is None;
            if i < r.len() {
                assert(r[i].ch_path == p);
            }
        }
        if found is None {
            assert(specs[end].ch_path == last.ch_path);
        }
    }
}

/// Every saved plot comes back under a number of its own or is counted as dropped, and
/// only XY plots are dropped, those that miss an axis.
pub proof fn law_saved_plots_come_back_or_are_counted(
    specs: Seq<PlotSpecView>,
    channels: Seq<ChannelInfo>,
    i: int,
)
    requires
        2 * specs.len() < u64::MAX,
    ensures
        ({
            let r = applied(specs, channels);
            &&& r.ids.len() == specs.len()
            &&& r.dropped + surviving(r.ids).len() == specs.len()
            &&& r.next <= 2 * specs.len()
            &&& r.next == surviving(r.ids).len() + r.companions.len()
            &&& 0 <= i < specs.len() ==> (r.ids[i] is None <==> (specs[i] matches PlotSpecView::Xy {
                x,
                y,
                ..
            } && (scalar_under(channels, x) is None || scalar_under(channels, y) is None)))
            &&& 0 <= i < specs.len() ==> (r.ids[i] matches Some(id) ==> r.plots.contains_key(id.0)
                && id.0 < r.next)
        }),
    decreases specs.len(),
{
    if specs.len() > 0 {
        let before = specs.drop_last();
        law_saved_plots_come_back_or_are_counted(before, channels, i);
        let a = applied(before, channels);
        let r = applied(specs, channels);
        assert(r.ids.drop_last() =~= a.ids);
        if 0 <= i < before.len() {
            assert(before[i] == specs[i]);
            assert(r.ids[i] == a.ids[i]);
        }
    }
}

proof fn lemma_safe_dashed(s: Seq<char>)
    requires
        forall|i: int| 0 <= i < s.len() ==> is_safe(#[trigger] s[i]),
    ensures
        dashed(s) == s,
    decreases s.len(),
{
    if s.len() > 0 {
        let r = s.drop_last();
        assert forall|i: int| 0 <= i < r.len() implies is_safe(#[trigger] r[i]) by {
            assert(s[i] == r[i]);
        }
        lemma_safe_dashed(r);
        assert(is_safe(s[s.len() - 1]));
        assert(dashed(s) =~= s);
    }
}

/// Two words are joined by one dash in a file name, whatever stood between them.
pub proof fn law_file_name_joins_words(a: Seq<char>, gap: Seq<char>, b: Seq<char>)
    requires
        a.len() > 0,
        b.len() > 0,
        gap.len() > 0,
        forall|i: int| 0 <= i < a.len() ==> is_safe(#[trigger] a[i]) && a[i] != '-',
        forall|i: int| 0 <= i < b.len() ==> is_safe(#[trigger] b[i]) && b[i] != '-',
        forall|i: int| 0 <= i < gap.len() ==> !is_plain(#[trigger] gap[i]),
    ensures
        slug_of(a + gap + b) == a + seq!['-'] + b,
        slug_of(a) == a,
{
    lemma_safe_dashed(a);
    lemma_gap(a, gap);
    lemma_behind_gap(a, gap, b);
    let t = a + seq!['-'] + b;
    assert(t[0] == a[0]);
    assert(t.last() == b[b.len() - 1]);
    assert(without_leading(t) == t);
    assert(without_trailing(t) == t);
    assert(without_leading(a) == a);
    assert(a.last() == a[a.len() - 1]);
}

proof fn lemma_gap(a: Seq<char>, gap: Seq<char>)
    requires
        a.len() > 0,
        gap.len() > 0,
        forall|i: int| 0 <= i < a.len() ==> is_safe(#[trigger] a[i]),
        forall|i: int| 0 <= i < gap.len() ==> !is_plain(#[trigger] gap[i]),
    ensures
        dashed(a + gap) == a.push('-'),
    decreases gap.len(),
{
    let s = a + gap;
    let r = gap.drop_last();
    assert(s.drop_last() =~= a + r);
    assert(s.last() == gap[gap.len() - 1]);
    if r.len() > 0 {
        assert forall|i: int| 0 <= i < r.len() implies !is_plain(#[trigger] r[i]) by {
            assert(gap[i] == r[i]);
        }
        lemma_gap(a, r);
        assert(s[s.len() - 2] == gap[gap.len() - 2]);
    } else {
        assert(a + r =~= a);
        lemma_safe_dashed(a);
        assert(s[s.len() - 2] == a[a.len() - 1]);
        assert(is_safe(a[a.len() - 1]));
    }
}

proof fn lemma_behind_gap(a: Seq<char>, gap: Seq<char>, b: Seq<char>)
    requires
        a.len() > 0,
        gap.len() > 0,
        forall|i: int| 0 <= i < a.len() ==> is_safe(#[trigger] a[i]),
        forall|i: int| 0 <= i < gap.len() ==> !is_plain(#[trigger] gap[i]),
        forall|i: int| 0 <= i < b.len() ==> is_safe(#[trigger] b[i]),
    ensures
        dashed(a + gap + b) == a + seq!['-'] + b,
    decreases b.len(),
{
    let s = a + gap + b;
    if b.len() == 0 {
        assert(s =~= a + gap);
        lemma_gap(a, gap);
        assert(a.push('-') =~= a + seq!['-'] + b);
    } else {
        let r = b.drop_last();
        assert forall|i: int| 0 <= i < r.len() implies is_safe(#[trigger] r[i]) by {
            assert(b[i] == r[i]);
        }
        lemma_behind_gap(a, gap, r);
        assert(s.drop_last() =~= a + gap + r);
        assert(s.last() == b[b.len() - 1]);
        assert(is_safe(b[b.len() - 1]));
        assert(dashed(s) =~= a + seq!['-'] + b);
    }
}

proof fn lemma_chain_before(m: Seq<MarkerSpecView>, c: u64, n: int)
    requires
        0 <= n <= m.len(),
    ensures
        -1 <= chain_before(m, c, n) < n,
        chain_before(m, c, n) >= 0 ==> m[chain_before(m, c, n)].chain == Some(c),
        forall|k: int| chain_before(m, c, n) < k < n ==> (#[trigger] m[k]).chain != Some(c),
    decreases n,
{
    if n > 0 && m[n - 1].chain != Some(c) {
        lemma_chain_before(m, c, n - 1);
    }
}

/// Whether `a` and `b` are neighbours in the chain `c`.
pub open spec fn neighbours(m: Seq<MarkerSpecView>, c: u64, a: int, b: int) -> bool {
    &&& 0 <= a < b < m.len()
    &&& m[a].chain == Some(c)
    &&& m[b].chain == Some(c)
    &&& forall|k: int| a < k < b ==> (#[trigger] m[k]).chain != Some(c)
}

/// The links that stand for a chain of an old layout join its neighbours, and only those,
/// each from the earlier to the later.
pub proof fn law_chain_links_join_neighbours(m: Seq<MarkerSpecView>, c: u64, n: int, a: int, b: int)
    requires
        0 <= n <= m.len() <= usize::MAX,
    ensures
        forall|i: int|
            0 <= i < links_of_chain(m, c, n).len() ==> ({
                let l = #[trigger] links_of_chain(m, c, n)[i];
                &&& neighbours(m, c, l.a_index as int, l.b_index as int)
                &&& l.b_index < n
                &&& l.signal_paths.len() == 0
            }),
        neighbours(m, c, a, b) && b < n ==> exists|i: int|
            0 <= i < links_of_chain(m, c, n).len() && (#[trigger] links_of_chain(m, c, n)[i]).a_index
                == a && links_of_chain(m, c, n)[i].b_index == b,
    decreases n,
{
    let all = links_of_chain(m, c, n);
    if n > 0 {
        law_chain_links_join_neighbours(m, c, n - 1, a, b);
        lemma_chain_before(m, c, n - 1);
        let before = links_of_chain(m, c, n - 1);
        let q = chain_before(m, c, n - 1);
        if neighbours(m, c, a, b) && b < n {
            if b < n - 1 {
                let i = choose|i: int|
                    0 <= i < before.len() && (#[trigger] before[i]).a_index == a
                        && before[i].b_index == b;
                assert(all[i].a_index == a);
            } else {
                assert(q == a) by {
                    if q > a {
                        assert(m[q].chain != Some(c));
                    } else if q < a {
                        assert(m[a].chain != Some(c));
                    }
                }
                assert(all[before.len() as int].a_index == a);
            }
        }
        assert forall|i: int| 0 <= i < all.len() implies ({
            let l = #[trigger] all[i];
            &&& neighbours(m, c, l.a_index as int, l.b_index as int)
            &&& l.b_index < n
            &&& l.signal_paths.len() == 0
        }) by {
            if i < before.len() {
                assert(all[i] == before[i]);
            }
        }
    }
}

/// The links that stand for the chains of an old layout hold the links of each of them.
pub proof fn law_every_chain_is_linked(m: Seq<MarkerSpecView>, c: u64, n: int, k: int)
    requires
        0 <= k < n <= m.len() <= usize::MAX,
        m[k].chain == Some(c),
    ensures
        forall|i: int|
            0 <= i < links_of_chain(m, c, m.len() as int).len() ==> chain_links(m, n).contains(
                #[trigger] links_of_chain(m, c, m.len() as int)[i],
            ),
    decreases n,
{
    let all = chain_links(m, n);
    let before = chain_links(m, n - 1);
    let links = links_of_chain(m, c, m.len() as int);
    lemma_chain_before(m, c, n - 1);
    let first = m[n - 1].chain == Some(c) && chain_before(m, c, n - 1) < 0;
    if first {
        assert forall|i: int| 0 <= i < links.len() implies all.contains(#[trigger] links[i]) by {
            assert(all[before.len() + i] == links[i]);
        }
    } else {
        let q = if k < n - 1 {
            k
        } else {
            chain_before(m, c, n - 1)
        };
        law_every_chain_is_linked(m, c, n - 1, q);
        assert forall|i: int| 0 <= i < links.len() implies all.contains(#[trigger] links[i]) by {
            assert(before.contains(links[i]));
            let a = choose|a: int| 0 <= a < before.len() && before[a] == links[i];
            assert(all[a] == links[i]);
        }
    }
}

/// No link stands for a chain but those of its neighbours.
pub proof fn law_chain_links_are_of_chains(m: Seq<MarkerSpecView>, n: int, i: int) -> (c: u64)
    requires
        0 <= n <= m.len() <= usize::MAX,
        0 <= i < chain_links(m, n).len(),
    ensures
        neighbours(m, c, chain_links(m, n)[i].a_index as int, chain_links(m, n)[i].b_index as int),
    decreases n,
{
    let before = chain_links(m, n - 1);
    if i < before.len() {
        let c = law_chain_links_are_of_chains(m, n - 1, i);
        assert(chain_links(m, n)[i] == before[i]);
        c
    } else {
        let c = m[n - 1].chain->0;
        law_chain_links_join_neighbours(m, c, m.len() as int, 0, 0);
        assert(chain_links(m, n)[i] == links_of_chain(m, c, m.len() as int)[i - before.len()]);
        c
    }
}

/// Closing plots takes those away and leaves the others as they are.
pub proof fn law_closed_plots_are_gone(plots: Map<u64, PlotKind>, closed: Seq<PlotId>, id: u64)
    ensures
        without_closed(plots, closed).contains_key(id) <==> plots.contains_key(id)
            && !closed.contains(PlotId(id)),
        without_closed(plots, closed).contains_key(id) ==> without_closed(plots, closed)[id]
            == plots[id],
{
}

/// The channels of a plot are those that it shows.
pub proof fn law_plot_lists_what_it_shows(plot: PlotKind, ch: ChannelId)
    requires
        plot is Scalar || plot is LogicAnalyser,
    ensures
        shown_channels(plot).contains(ch) <==> crate::drops::shows(plot, ch),
{
    match plot {
        PlotKind::LogicAnalyser(p) => {
            let v = shown_channels(plot);
            if v.contains(ch) {
                let i = choose|i: int| 0 <= i < v.len() && v[i] == ch;
                assert(p.lanes@[i].ch == ch);
            }
            if has_lane(p.lanes@, ch) {
                let i = choose|i: int| 0 <= i < p.lanes@.len() && (#[trigger] p.lanes@[i]).ch == ch;
                assert(v[i] == ch);
            }
        },
        _ => {},
    }
}

/// The plots on tabs are, in the order of the tabs, those that are still there.
pub proof fn law_tabs_show_their_plots(tabs: Seq<PlotId>, plots: Map<u64, PlotKind>)
    ensures
        on_tabs(tabs, plots) == tabs.filter_map(
            |id: PlotId|
                if plots.contains_key(id.0) {
                    Some((id, plots[id.0]))
                } else {
                    None
                },
        ),
    decreases tabs.len(),
{
    let f = |id: PlotId|
        if plots.contains_key(id.0) {
            Some((id, plots[id.0]))
        } else {
            None
        };
    if tabs.len() > 0 {
        law_tabs_show_their_plots(tabs.drop_last(), plots);
    }
    assert(on_tabs(tabs, plots) =~= tabs.filter_map(f));
}

/// The cursor shows a state by its label, and by its number where it has none.
pub proof fn law_cursor_shows_the_label(kind: ChannelKind, v: u32)
    requires
        kind is State,
    ensures
        ({
            let labels = kind->State_labels@;
            let text = cursor_value(kind, Some(double_of_nat(v as nat) as u64));
            &&& v < labels.len() ==> text == labels[v as int]@
            &&& v >= labels.len() ==> text == crate::text::decimal(v as nat)
        }),
{
    law_whole_doubles_cut_back(v as int);
}

/// The plots of the tabs are listed without repetition: each tab's plot once, none
/// besides, and those of the first tabs before those that further tabs bring.
pub proof fn law_plots_are_listed_once(tabs: Seq<PlotId>, more: Seq<PlotId>)
    ensures
        forall|id: PlotId| #[trigger]
            crate::layout_save::first_seen(tabs).contains(id) <==> tabs.contains(id),
        crate::layout_save::first_seen(tabs).no_duplicates(),
        crate::layout_save::first_seen(tabs).is_prefix_of(
            crate::layout_save::first_seen(tabs + more),
        ),
    decreases tabs.len() + more.len(),
{
    if more.len() > 0 {
        law_plots_are_listed_once(tabs, more.drop_last());
        assert((tabs + more).drop_last() =~= tabs + more.drop_last());
    } else {
        assert(tabs + more =~= tabs);
        if tabs.len() > 0 {
            let rest = tabs.drop_last();
            law_plots_are_listed_once(rest, Seq::empty());
            let (before, all) = (
                crate::layout_save::first_seen(rest),
                crate::layout_save::first_seen(tabs),
            );
            assert(all == before || all == before.push(tabs.last()));
            assert forall|id: PlotId| #[trigger] all.contains(id) <==> tabs.contains(id) by {
                if tabs.contains(id) {
                    let i = choose|i: int| 0 <= i < tabs.len() && tabs[i] == id;
                    if i < rest.len() {
                        assert(rest[i] == id);
                        assert(before.contains(id));
                        let a = choose|a: int| 0 <= a < before.len() && before[a] == id;
                        assert(all[a] == id);
                    } else if all != before {
                        assert(all[all.len() - 1] == id);
                    }
                }
                if all.contains(id) {
                    let a = choose|a: int| 0 <= a < all.len() && all[a] == id;
                    if a < before.len() {
                        assert(before[a] == id);
                        assert(before.contains(id));
                        let i = choose|i: int| 0 <= i < rest.len() && rest[i] == id;
                        assert(tabs[i] == id);
                    } else {
                        assert(tabs[tabs.len() - 1] == id);
                    }
                }
            }
        }
    }
}

proof fn lemma_listed_holds(paths: Seq<Seq<char>>, n: nat, i: int)
    requires
        0 <= i < n <= paths.len(),
    ensures
        occurs_in(listed(paths, n), paths[i]),
    decreases n,
{
    let all = listed(paths, n);
    let p = paths[i];
    if n == 1 {
        assert(all.subrange(0, p.len() as int) =~= p);
        assert(occurs_at(all, p, 0));
    } else {
        let before = listed(paths, (n - 1) as nat);
        if i < n - 1 {
            lemma_listed_holds(paths, (n - 1) as nat, i);
            let k = choose|k: int| occurs_at(before, p, k);
            assert(all.subrange(k, k + p.len()) =~= before.subrange(k, k + p.len()));
            assert(occurs_at(all, p, k));
        } else {
            let k = (before + ", "@).len() as int;
            assert(all.subrange(k, k + p.len()) =~= p);
            assert(occurs_at(all, p, k));
        }
    }
}

proof fn lemma_occurs_inside(a: Seq<char>, b: Seq<char>, c: Seq<char>, p: Seq<char>, k: int)
    requires
        occurs_at(b, p, k),
    ensures
        occurs_at(a + b + c, p, a.len() + k),
{
    let s = a + b + c;
    let at = a.len() + k;
    assert(s.subrange(at, at + p.len()) =~= b.subrange(k, k + p.len()));
}

proof fn lemma_message_names(
    missing: Seq<Seq<char>>,
    dropped: nat,
    open: Seq<char>,
    close: Seq<char>,
    i: int,
)
    requires
        0 <= i < missing.len(),
        i < 2,
    ensures
        occurs_in(apply_suffix(missing, dropped, open, close), missing[i]),
{
    let s = apply_suffix(missing, dropped, open, close);
    let shown: nat = if missing.len() < 2 {
        1
    } else {
        2
    };
    lemma_listed_holds(missing, shown, i);
    let list = listed(missing, shown);
    let k = choose|k: int| occurs_at(list, missing[i], k);
    let head = decimal(missing.len()) + " unknown channel(s): "@;
    let first = missing_text(missing);
    let tail = first.skip((head.len() + list.len()) as int);
    assert(first =~= head + list + tail);
    lemma_occurs_inside(head, list, tail, missing[i], k);
    let rest = s.skip((open.len() + first.len()) as int);
    assert(s =~= open + first + rest);
    lemma_occurs_inside(open, first, rest, missing[i], head.len() + k);
}

/// The message about an applied layout is empty only where nothing is missing and nothing
/// was dropped. Otherwise it stands between its marks, begins with the number of missing
/// channels where there are any and names the first two of them, and ends with the number
/// of dropped plots where there are any.
pub proof fn law_message_tells_what_is_lost(
    missing: Seq<Seq<char>>,
    dropped: nat,
    open: Seq<char>,
    close: Seq<char>,
)
    ensures
        ({
            let s = apply_suffix(missing, dropped, open, close);
            &&& missing.len() == 0 && dropped == 0 ==> s.len() == 0
            &&& missing.len() > 0 ==> (open + decimal(missing.len())).is_prefix_of(s)
            &&& dropped > 0 ==> (decimal(dropped) + " plot(s) dropped"@ + close).is_suffix_of(s)
            &&& missing.len() > 0 || dropped > 0 ==> open.is_prefix_of(s) && close.is_suffix_of(s)
            &&& forall|i: int|
                0 <= i < missing.len() && i < 2 ==> occurs_in(s, #[trigger] missing[i])
        }),
{
    let s = apply_suffix(missing, dropped, open, close);
    if missing.len() > 0 {
        assert((open + decimal(missing.len())) =~= s.take(
            (open + decimal(missing.len())).len() as int,
        ));
    }
    if dropped > 0 {
        let e = decimal(dropped) + " plot(s) dropped"@ + close;
        assert(e =~= s.skip(s.len() - e.len()));
    }
    if missing.len() > 0 || dropped > 0 {
        assert(open =~= s.take(open.len() as int));
        assert(close =~= s.skip(s.len() - close.len()));
    }
    assert forall|i: int| 0 <= i < missing.len() && i < 2 implies occurs_in(
        s,
        #[trigger] missing[i],
    ) by {
        lemma_message_names(missing, dropped, open, close, i);
    }
}

/// A negative number, which is below every label, is shown as the first one.
pub proof fn law_cursor_stays_at_the_first_label(kind: ChannelKind, v: int)
    requires
        kind is State,
        -0x20_0000_0000_0000 < v < 0,
        kind->State_labels@.len() > 0,
    ensures
        cursor_value(kind, Some(double_of_int(v) as u64)) == kind->State_labels@[0]@,
{
    law_whole_doubles_cut_back(v);
}

/// A plot of pairs lists the channel along first and the one up after it.
pub proof fn law_pair_is_listed_along_first(plot: PlotKind)
    requires
        plot is XY,
    ensures
        shown_channels(plot).len() == 2,
        shown_channels(plot)[0] == plot->XY_0.x,
        shown_channels(plot)[1] == plot->XY_0.y,
{
}

/// A saved plot of pairs comes back where both paths lead to numbers, each of the two in
/// its own place and with its trail. Where one does not, no plot comes back and the loss
/// is counted.
pub proof fn law_pair_comes_back(
    s: AppliedView,
    channels: Seq<ChannelInfo>,
    title: Seq<char>,
    x: Seq<char>,
    y: Seq<char>,
    trail_ns: Option<u64>,
    i: int,
    j: int,
)
    requires
        0 <= i < channels.len(),
        0 <= j < channels.len(),
        channels[i].path@ == x,
        channels[j].path@ == y,
        forall|a: int, b: int|
            0 <= a < b < channels.len() ==> (#[trigger] channels[a]).path@ != (
            #[trigger] channels[b]).path@,
    ensures
        ({
            let r = s.step(channels, PlotSpecView::Xy { title, x, y, trail_ns });
            if channels[i].kind is Scalar && channels[j].kind is Scalar {
                &&& r.ids == s.ids.push(Some(PlotId(s.next)))
                &&& r.plots.contains_key(s.next)
                &&& r.plots[s.next] == (PlotView::XY {
                    title,
                    x: channels[i].id,
                    y: channels[j].id,
                    trail_ns,
                })
                &&& r.dropped == s.dropped
            } else {
                &&& r.ids == s.ids.push(None)
                &&& r.plots == s.plots
                &&& r.dropped == s.dropped + 1
            }
        }),
{
    lemma_lookup_only(channels, i);
    lemma_lookup_only(channels, j);
}

proof fn lemma_lookup_only(channels: Seq<ChannelInfo>, i: int)
    requires
        0 <= i < channels.len(),
        forall|a: int, b: int|
            0 <= a < b < channels.len() ==> (#[trigger] channels[a]).path@ != (
            #[trigger] channels[b]).path@,
    ensures
        lookup(channels, channels[i].path@) == Some(channels[i]),
{
    let k = law_channel_is_found_by_its_path(channels, channels[i].path@);
    if k < i {
        assert(channels[k].path@ != channels[i].path@);
    } else if k > i {
        assert(channels[i].path@ != channels[k].path@);
    }
}

/// Whether the last style that is saved for a channel is the one at `i`.
pub open spec fn is_last_style(
    channels: Seq<ChannelInfo>,
    styles: Seq<(Seq<char>, SignalStyle)>,
    i: int,
) -> bool {
    &&& 0 <= i < styles.len()
    &&& lookup(channels, styles[i].0) is Some
    &&& forall|j: int|
        i < j < styles.len() ==> (lookup(channels, (#[trigger] styles[j]).0) matches Some(c) ==> c.id
            != lookup(channels, styles[i].0)->0.id)
}

/// The style of a channel that is found comes back, the last one where there are several;
/// and only channels that are found have styles, which are numbers where the plot asks
/// for that.
pub proof fn law_styles_come_back(
    channels: Seq<ChannelInfo>,
    styles: Seq<(Seq<char>, SignalStyle)>,
    scalars_only: bool,
)
    ensures
        ({
            let r = styles_for(channels, styles, scalars_only);
            &&& forall|i: int| #[trigger]
                is_last_style(channels, styles, i) && (!scalars_only || lookup(
                    channels,
                    styles[i].0,
                )->0.kind is Scalar) ==> r.contains_key(lookup(channels, styles[i].0)->0.id)
            &&& !scalars_only ==> forall|i: int| #[trigger]
                is_last_style(channels, styles, i) ==> r[lookup(channels, styles[i].0)->0.id]
                    == styles[i].1
            &&& forall|k: ChannelId| #[trigger]
                r.contains_key(k) ==> exists|i: int|
                    0 <= i < styles.len() && (lookup(channels, (#[trigger] styles[i]).0) matches Some(
                        c,
                    ) && c.id == k && (!scalars_only || c.kind is Scalar) && r[k] == styles[i].1)
        }),
    decreases styles.len(),
{
    if styles.len() > 0 {
        let rest = styles.drop_last();
        law_styles_come_back(channels, rest, scalars_only);
        let (before, r) = (
            styles_for(channels, rest, scalars_only),
            styles_for(channels, styles, scalars_only),
        );
        let last = styles.len() - 1;
        assert(styles[last] == styles.last());
        assert forall|i: int| is_last_style(channels, styles, i) && i < last implies #[trigger] is_last_style(
            channels,
            rest,
            i,
        ) && lookup(channels, rest[i].0) == lookup(channels, styles[i].0) && rest[i] == styles[i] && (
        lookup(channels, styles[last].0) matches Some(c) ==> c.id != lookup(
            channels,
            styles[i].0,
        )->0.id) by {
            assert forall|j: int| i < j < rest.len() implies (lookup(
                channels,
                (#[trigger] rest[j]).0,
            ) matches Some(c) ==> c.id != lookup(channels, rest[i].0)->0.id) by {
                assert(styles[j] == rest[j]);
            }
        }
        assert forall|i: int| #[trigger] is_last_style(channels, styles, i) && (!scalars_only
            || lookup(channels, styles[i].0)->0.kind is Scalar) implies r.contains_key(
            lookup(channels, styles[i].0)->0.id,
        ) by {
            if i < last {
                assert(is_last_style(channels, rest, i));
            }
        }
        if !scalars_only {
            assert forall|i: int| #[trigger] is_last_style(channels, styles, i) implies r[lookup(
                channels,
                styles[i].0,
            )->0.id] == styles[i].1 by {
                if i < last {
                    assert(is_last_style(channels, rest, i));
                }
            }
        }
        assert forall|k: ChannelId| #[trigger] r.contains_key(k) implies exists|i: int|
            0 <= i < styles.len() && (lookup(channels, (#[trigger] styles[i]).0) matches Some(c)
                && c.id == k && (!scalars_only || c.kind is Scalar) && r[k] == styles[i].1) by {
            if r == before || (lookup(channels, styles[last].0) is Some && lookup(
                channels,
                styles[last].0,
            )->0.id != k) {
                assert(before.contains_key(k));
                let i = choose|i: int|
                    0 <= i < rest.len() && (lookup(channels, (#[trigger] rest[i]).0) matches Some(c)
                        && c.id == k && (!scalars_only || c.kind is Scalar) && before[k]
                        == rest[i].1);
                assert(styles[i] == rest[i]);
            } else {
                assert(styles[last].0 == styles.last().0);
            }
        }
    }
}

/// An old plot of values and states becomes a plot of the values, and beside it, where
/// there are states, a logic analyser of them. The two are noted as a pair, the plot of
/// values first. Of the saved styles only those of numbers come along.
pub proof fn law_mixed_plot_is_parted(
    s: AppliedView,
    channels: Seq<ChannelInfo>,
    title: Seq<char>,
    scalars: Seq<Seq<char>>,
    states: Seq<Seq<char>>,
    styles: Seq<(Seq<char>, SignalStyle)>,
)
    requires
        s.next < u64::MAX - 1,
    ensures
        ({
            let r = s.step(channels, PlotSpecView::TimeSeries { title, scalars, states, styles });
            &&& r.ids == s.ids.push(Some(PlotId(s.next)))
            &&& r.plots.contains_key(s.next)
            &&& r.plots[s.next] matches PlotView::Scalar { title: t, styles: kept, .. } && t == title
                && (forall|k: ChannelId| #[trigger]
                kept.contains_key(k) ==> exists|i: int|
                    0 <= i < styles.len() && (lookup(channels, (#[trigger] styles[i]).0) matches Some(
                        c,
                    ) && c.id == k && c.kind is Scalar))
            &&& r.companions != s.companions ==> {
                &&& r.companions.len() == s.companions.len() + 1
                &&& r.companions.drop_last() == s.companions
                &&& r.companions.last().0 == PlotId(s.next)
                &&& r.companions.last().1 != r.companions.last().0
                &&& r.plots.contains_key(r.companions.last().1.0)
                &&& r.plots[r.companions.last().1.0] is LogicAnalyser
            }
            &&& r.companions != s.companions <==> exists|i: int|
                0 <= i < states.len() && (lookup(channels, #[trigger] states[i]) matches Some(c)
                    && c.kind is State)
        }),
{
    let (c, m) = scalars_of(channels, scalars, s.missing);
    law_styles_come_back(channels, styles, true);
    lemma_any_state(channels, states, m);
    let r = s.step(channels, PlotSpecView::TimeSeries { title, scalars, states, styles });
    if r.companions != s.companions {
        assert(r.companions.drop_last() =~= s.companions);
    }
    if states_of(channels, states, m).1 {
        assert(r.companions.len() == s.companions.len() + 1);
    }
}

proof fn lemma_any_state(channels: Seq<ChannelInfo>, paths: Seq<Seq<char>>, missing: Seq<Seq<char>>)
    ensures
        states_of(channels, paths, missing).1 <==> exists|i: int|
            0 <= i < paths.len() && (lookup(channels, #[trigger] paths[i]) matches Some(c)
                && c.kind is State),
    decreases paths.len(),
{
    if paths.len() > 0 {
        let rest = paths.drop_last();
        lemma_any_state(channels, rest, missing);
        assert(paths[paths.len() - 1] == paths.last());
        if states_of(channels, rest, missing).1 {
            let i = choose|i: int|
                0 <= i < rest.len() && (lookup(channels, #[trigger] rest[i]) matches Some(c)
                    && c.kind is State);
            assert(paths[i] == rest[i]);
        }
        if exists|i: int|
            0 <= i < paths.len() && (lookup(channels, #[trigger] paths[i]) matches Some(c)
                && c.kind is State) {
            let i = choose|i: int|
                0 <= i < paths.len() && (lookup(channels, #[trigger] paths[i]) matches Some(c)
                    && c.kind is State);
            if i < rest.len() {
                assert(rest[i] == paths[i]);
            }
        }
    }
}

/// Renaming a plot changes its title and nothing else: given its old title again, it is
/// the plot it was.
pub proof fn law_renaming_changes_the_title_only(plot: PlotKind, title: String)
    ensures
        plot.titled(title).title_of() == title,
        plot.titled(title).titled(plot.title_of()) == plot,
        shown_channels(plot.titled(title)) == shown_channels(plot),
{
}

proof fn lemma_no_leading(s: Seq<char>)
    ensures
        without_leading(s).len() > 0 ==> without_leading(s)[0] != '-',
    decreases s.len(),
{
    if s.len() > 0 && s[0] == '-' {
        lemma_no_leading(s.skip(1));
    }
}

proof fn lemma_no_trailing(s: Seq<char>)
    ensures
        without_trailing(s).len() > 0 ==> without_trailing(s).last() != '-',
        without_trailing(s).len() > 0 ==> without_trailing(s)[0] == s[0] && s.len() > 0,
    decreases s.len(),
{
    if s.len() > 0 && s.last() == '-' {
        lemma_no_trailing(s.drop_last());
    }
}

/// Whatever the name, the file's name made from it is not empty and neither begins nor
/// ends with a dash.
pub proof fn law_file_name_has_no_dash_at_its_ends(name: Seq<char>)
    ensures
        slug_of(name).len() > 0,
        slug_of(name)[0] != '-',
        slug_of(name).last() != '-',
{
    reveal_strlit("untitled");
    lemma_no_leading(dashed(name));
    lemma_no_trailing(without_leading(dashed(name)));
}

} // verus!
