//! What a scalar plot, an XY plot and the links between markers show.

use crate::colours::palette;
use crate::grouping::short_name;
use crate::markers::MarkerSet;
use crate::num::{number_below, INFINITY};
use crate::panels::{LineStyle, ScalarPanel, SignalStyle, XYPlot};
use crate::store::{Bucket, ChannelId, ChannelInfo, MockStore, Sample};
use std::collections::HashMap;
use vstd::prelude::*;

verus! {

use crate::colours::palette_colour;
use crate::grouping::leaf_of;
use crate::markers::{pairs_of, pairs_view, LinkView, MarkerView};
use crate::num::below;
use crate::store::{covers_exactly, downsampled, StoreView};

broadcast use {
    vstd::std_specs::hash::group_hash_axioms,
    vstd::std_specs::btree::group_btree_axioms,
};

/// Lines of fewer points than this show the points too.
pub const SCATTER_THRESHOLD: usize = 40;

/// Points of an XY plot at most.
pub const XY_MAX_POINTS: usize = 50_000;

/// A signal of a scalar plot.
#[derive(Debug)]
pub struct Signal {
    pub ch: ChannelId,
    pub name: String,
    pub colour: [u8; 3],
    pub buckets: Vec<Bucket>,
    pub style: SignalStyle,
    pub selected: bool,
}

/// What a [`Signal`] says.
#[verifier::ext_equal]
pub struct SignalView {
    pub ch: ChannelId,
    pub name: Seq<char>,
    pub colour: [u8; 3],
    pub buckets: Seq<Bucket>,
    pub style: SignalStyle,
    pub selected: bool,
}

impl View for Signal {
    type V = SignalView;

    open spec fn view(&self) -> SignalView {
        SignalView {
            ch: self.ch,
            name: self.name@,
            colour: self.colour,
            buckets: self.buckets@,
            style: self.style,
            selected: self.selected,
        }
    }
}

/// What signals say.
pub open spec fn signals_view(v: Seq<Signal>) -> Seq<SignalView> {
    v.map_values(|s: Signal| s@)
}

/// The path of a channel; empty for an unknown one.
pub open spec fn path_of(by_id: Map<ChannelId, ChannelInfo>, ch: ChannelId) -> Seq<char> {
    if by_id.contains_key(ch) {
        by_id[ch].path@
    } else {
        Seq::empty()
    }
}

/// The signals of the first `n` channels of a panel in `[t0, t1)`: those that have
/// anything there. Each has the colour of its place.
pub open spec fn shown_signals(
    store: StoreView,
    by_id: Map<ChannelId, ChannelInfo>,
    panel: ScalarPanel,
    t0: u64,
    t1: u64,
    max: usize,
    n: nat,
) -> Seq<SignalView>
    decreases n,
{
    if n == 0 {
        Seq::empty()
    } else {
        let before = shown_signals(store, by_id, panel, t0, t1, max, (n - 1) as nat);
        let ch = panel.channels@[n - 1];
        let buckets = downsampled(store.samples(ch), t0, t1, max);
        if buckets.len() == 0 {
            before
        } else {
            before.push(
                SignalView {
                    ch,
                    name: path_of(by_id, ch),
                    colour: palette_colour(n - 1),
                    buckets,
                    style: panel.style_of(ch),
                    selected: panel.selected_signals@.contains(ch),
                },
            )
        }
    }
}

/// The signals that a panel shows in `[t0, t1)`.
pub fn panel_signals(
    store: &MockStore,
    by_id: &HashMap<ChannelId, ChannelInfo>,
    panel: &ScalarPanel,
    t0: u64,
    t1: u64,
    max_buckets: usize,
) -> (r: Vec<Signal>)
    ensures
        signals_view(r@) == shown_signals(
            store@,
            by_id@,
            *panel,
            t0,
            t1,
            max_buckets,
            panel.channels@.len(),
        ),
{
    let mut out: Vec<Signal> = Vec::new();
    let mut i: usize = 0;
    assert(signals_view(out@) =~= Seq::empty());
    while i < panel.channels.len()
        invariant
            i <= panel.channels@.len(),
            signals_view(out@) == shown_signals(
                store@,
                by_id@,
                *panel,
                t0,
                t1,
                max_buckets,
                i as nat,
            ),
        decreases panel.channels@.len() - i,
    {
        let ch = panel.channels[i];
        let buckets = store.query_scalar(ch, t0, t1, max_buckets);
        if buckets.len() > 0 {
            let name = match by_id.get(&ch) {
                Some(info) => info.path.clone(),
                None => String::new(),
            };
            let ghost before = out@;
            let signal = Signal {
                ch,
                name,
                colour: palette(i),
                buckets,
                style: panel.style_for(ch),
                selected: panel.selected_signals.contains(&ch),
            };
            assert(signal@.name =~= path_of(by_id@, ch));
            out.push(signal);
            assert(signals_view(out@) =~= signals_view(before).push(signal@));
        }
        i = i + 1;
    }
    out
}

/// The double below all others.
pub const LOWEST: u64 = 0xfff0_0000_0000_0000;

/// The lowest of `lo` and the buckets.
pub open spec fn low_of(bs: Seq<Bucket>, lo: u64) -> u64
    decreases bs.len(),
{
    if bs.len() == 0 {
        lo
    } else {
        let m = low_of(bs.drop_last(), lo);
        if below(bs.last().min, m) {
            bs.last().min
        } else {
            m
        }
    }
}

/// The highest of `hi` and the buckets.
pub open spec fn high_of(bs: Seq<Bucket>, hi: u64) -> u64
    decreases bs.len(),
{
    if bs.len() == 0 {
        hi
    } else {
        let m = high_of(bs.drop_last(), hi);
        if below(m, bs.last().max) {
            bs.last().max
        } else {
            m
        }
    }
}

/// The lowest of the signals; infinity where there are none.
pub open spec fn lowest(s: Seq<SignalView>) -> u64
    decreases s.len(),
{
    if s.len() == 0 {
        INFINITY
    } else {
        low_of(s.last().buckets, lowest(s.drop_last()))
    }
}

/// The highest of the signals; minus infinity where there are none.
pub open spec fn highest(s: Seq<SignalView>) -> u64
    decreases s.len(),
{
    if s.len() == 0 {
        LOWEST
    } else {
        high_of(s.last().buckets, highest(s.drop_last()))
    }
}

/// The lowest and the highest value of the signals, as doubles.
pub fn value_extent(signals: &Vec<Signal>) -> (r: (u64, u64))
    ensures
        r == (lowest(signals_view(signals@)), highest(signals_view(signals@))),
{
    let mut lo: u64 = INFINITY;
    let mut hi: u64 = LOWEST;
    let ghost all = signals_view(signals@);
    let mut i: usize = 0;
    while i < signals.len()
        invariant
            i <= signals@.len(),
            all == signals_view(signals@),
            lo == lowest(all.take(i as int)),
            hi == highest(all.take(i as int)),
        decreases signals@.len() - i,
    {
        let bs = &signals[i].buckets;
        let ghost lo0 = lo;
        let ghost hi0 = hi;
        let mut k: usize = 0;
        while k < bs.len()
            invariant
                k <= bs@.len(),
                lo == low_of(bs@.take(k as int), lo0),
                hi == high_of(bs@.take(k as int), hi0),
            decreases bs@.len() - k,
        {
            assert(bs@.take(k + 1).drop_last() =~= bs@.take(k as int));
            if number_below(bs[k].min, lo) {
                lo = bs[k].min;
            }
            if number_below(hi, bs[k].max) {
                hi = bs[k].max;
            }
            k = k + 1;
        }
        proof {
            assert(bs@.take(bs@.len() as int) =~= bs@);
            assert(all.take(i + 1).drop_last() =~= all.take(i as int));
            assert(all.take(i + 1).last().buckets == bs@);
        }
        i = i + 1;
    }
    assert(all.take(signals@.len() as int) =~= all);
    (lo, hi)
}

/// Whether a line is drawn through the points of a signal.
pub fn draws_line(style: LineStyle) -> (r: bool)
    ensures
        r == !(style is Points),
{
    match style {
        LineStyle::Points => false,
        _ => true,
    }
}

/// Whether the points of a signal are drawn: where its style says so, or where they
/// are few.
pub fn draws_points(style: LineStyle, points: usize) -> (r: bool)
    ensures
        r == (style is Points || style is PointsLine || points < SCATTER_THRESHOLD),
{
    match style {
        LineStyle::Points | LineStyle::PointsLine => true,
        LineStyle::Line | LineStyle::Step => points < SCATTER_THRESHOLD,
    }
}

/// The corners of a staircase through points of a time and a value.
pub open spec fn staircase(points: Seq<(u64, u64)>) -> Seq<(u64, u64)>
    decreases points.len(),
{
    if points.len() == 0 {
        Seq::empty()
    } else if points.len() == 1 {
        points
    } else {
        let before = staircase(points.drop_last());
        let x = points.last();
        before.push((x.0, points[points.len() - 2].1)).push(x)
    }
}

/// The corners of a staircase through points: each value is held until the next.
pub fn step_polyline(points: &Vec<(u64, u64)>) -> (r: Vec<(u64, u64)>)
    ensures
        r@ == staircase(points@),
{
    let mut out: Vec<(u64, u64)> = Vec::new();
    if points.len() == 0 {
        return out;
    }
    out.push(points[0]);
    let mut i: usize = 1;
    proof {
        reveal_with_fuel(staircase, 2);
        assert(points@.take(1) =~= seq![points@[0]]);
        assert(out@ =~= points@.take(1));
    }
    while i < points.len()
        invariant
            1 <= i <= points@.len(),
            out@ == staircase(points@.take(i as int)),
        decreases points@.len() - i,
    {
        assert(points@.take(i + 1).drop_last() =~= points@.take(i as int));
        out.push((points[i].0, points[i - 1].1));
        out.push(points[i]);
        i = i + 1;
    }
    assert(points@.take(points@.len() as int) =~= points@);
    out
}

/// A staircase of `n` points has two corners for each of them but the first.
pub proof fn law_staircase_length(points: Seq<(u64, u64)>)
    requires
        points.len() > 0,
    ensures
        staircase(points).len() == 2 * points.len() - 1,
    decreases points.len(),
{
    if points.len() > 1 {
        law_staircase_length(points.drop_last());
    }
}

/// The first place at or after `i` of a time that is not below `t`, or the end.
pub open spec fn first_not_below(times: Seq<u64>, t: u64, i: int) -> int
    decreases times.len() - i,
{
    if i >= times.len() || !below(times[i], t) {
        i
    } else {
        first_not_below(times, t, i + 1)
    }
}

/// The place of the point that stands for the time `t`: the first not before it, or
/// the last. Times are doubles.
pub fn point_at(times: &Vec<u64>, t: u64) -> (r: usize)
    requires
        times@.len() > 0,
    ensures
        r == (if first_not_below(times@, t, 0) < times@.len() {
            first_not_below(times@, t, 0)
        } else {
            times@.len() - 1
        }),
{
    let mut i: usize = 0;
    while i < times.len() && number_below(times[i], t)
        invariant
            i <= times@.len(),
            first_not_below(times@, t, 0) == first_not_below(times@, t, i as int),
        decreases times@.len() - i,
    {
        i = i + 1;
    }
    if i < times.len() {
        i
    } else {
        times.len() - 1
    }
}

/// The points of an XY plot for buckets of its x channel: those at whose time the y
/// channel has a value.
pub open spec fn xy_pairs(store: StoreView, y: ChannelId, bs: Seq<Bucket>) -> Seq<(Bucket, Sample)>
    decreases bs.len(),
{
    if bs.len() == 0 {
        Seq::empty()
    } else {
        let before = xy_pairs(store, y, bs.drop_last());
        match store.value_at(y, bs.last().t) {
            Some(v) => before.push((bs.last(), v)),
            None => before,
        }
    }
}

/// The earliest time that an XY plot shows: that of the window, or, where it has a
/// trail, the first within the trail that ends at the latest sample.
pub open spec fn trail_start(t0: u64, latest: Option<u64>, trail: Option<u64>) -> int {
    match (latest, trail) {
        (Some(last), Some(ns)) => if last - ns + 1 > t0 {
            last - ns + 1
        } else {
            t0 as int
        },
        _ => t0 as int,
    }
}

/// The points of an XY plot in the window `[t0, t1)`, of a store whose latest sample
/// is at a given time.
pub open spec fn xy_shown(
    store: StoreView,
    xy: XYPlot,
    t0: u64,
    t1: u64,
    latest: Option<u64>,
) -> Seq<(Bucket, Sample)> {
    let start = trail_start(t0, latest, xy.trail_ns);
    if start >= t1 {
        Seq::empty()
    } else {
        xy_pairs(
            store,
            xy.y,
            downsampled(store.samples(xy.x), start as u64, t1, XY_MAX_POINTS),
        )
    }
}

fn trail_begin(t0: u64, latest: Option<u64>, trail: Option<u64>) -> (r: Option<u64>)
    ensures
        match r {
            Some(t) => t == trail_start(t0, latest, trail),
            None => trail_start(t0, latest, trail) > u64::MAX,
        },
{
    match (latest, trail) {
        (Some(last), Some(ns)) => {
            if ns > last {
                Some(t0)
            } else if last - ns == u64::MAX {
                None
            } else if last - ns + 1 > t0 {
                Some(last - ns + 1)
            } else {
                Some(t0)
            }
        },
        _ => Some(t0),
    }
}

/// The points of an XY plot in the window `[t0, t1)`; where it has a trail, only those
/// of that time up to the latest sample.
pub fn xy_points(store: &MockStore, xy: &XYPlot, t0: u64, t1: u64) -> (r: Vec<(Bucket, Sample)>)
    requires
        store@.wf(),
    ensures
        exists|b: Option<(u64, u64)>|
            #[trigger] covers_exactly(store@.spans(), b) && r@ == xy_shown(
                store@,
                *xy,
                t0,
                t1,
                match b {
                    Some(range) => Some(range.1),
                    None => None,
                },
            ),
{
    let bounds = store.time_bounds();
    assert(covers_exactly(store@.spans(), bounds));
    let latest = match bounds {
        Some((_, last)) => Some(last),
        None => None,
    };
    let start: u64 = match trail_begin(t0, latest, xy.trail_ns) {
        Some(t) => t,
        None => {
            return Vec::new();
        },
    };
    if start >= t1 {
        return Vec::new();
    }
    let bs = store.query_scalar(xy.x, start, t1, XY_MAX_POINTS);
    let mut out: Vec<(Bucket, Sample)> = Vec::new();
    let mut i: usize = 0;
    while i < bs.len()
        invariant
            i <= bs@.len(),
            store@.wf(),
            out@ == xy_pairs(store@, xy.y, bs@.take(i as int)),
        decreases bs@.len() - i,
    {
        let b = bs[i];
        assert(bs@.take(i + 1).drop_last() =~= bs@.take(i as int));
        match store.sample_at(xy.y, b.t) {
            Some(v) => {
                out.push((b, v));
            },
            None => {},
        }
        i = i + 1;
    }
    assert(bs@.take(bs@.len() as int) =~= bs@);
    out
}

/// A signal's values at the two ends of a link.
#[derive(Clone, Copy, Debug)]
pub struct Reading {
    pub ch: ChannelId,
    pub from: Sample,
    pub to: Sample,
}

/// The readings of a link: of its signals, those with a value at both ends.
pub open spec fn readings_of(store: StoreView, signals: Seq<ChannelId>, a: u64, b: u64) -> Seq<
    Reading,
>
    decreases signals.len(),
{
    if signals.len() == 0 {
        Seq::empty()
    } else {
        let before = readings_of(store, signals.drop_last(), a, b);
        let ch = signals.last();
        match (store.value_at(ch, a), store.value_at(ch, b)) {
            (Some(from), Some(to)) => before.push(Reading { ch, from, to }),
            _ => before,
        }
    }
}

/// What is shown of a link: the times of its ends, its colour, its height and its
/// readings.
#[derive(Debug)]
pub struct LinkReadout {
    pub t_from: u64,
    pub t_to: u64,
    pub color: [u8; 3],
    pub y_frac: u32,
    pub readings: Vec<Reading>,
}

/// Whether this is what is shown of a link.
pub open spec fn is_readout(
    store: StoreView,
    p: (MarkerView, MarkerView, LinkView),
    r: LinkReadout,
) -> bool {
    &&& r.t_from == p.0.t_ns
    &&& r.t_to == p.1.t_ns
    &&& r.color == p.0.color
    &&& r.y_frac == p.2.y_frac
    &&& r.readings@ == readings_of(store, p.2.signals, p.0.t_ns, p.1.t_ns)
}

/// What is shown of every link whose ends exist. A link has the colour of the marker
/// that it starts from.
pub fn link_readouts(store: &MockStore, markers: &MarkerSet) -> (r: Vec<LinkReadout>)
    requires
        store@.wf(),
    ensures
        r@.len() == pairs_of(markers@.markers, markers@.links, markers@.links.len()).len(),
        forall|i: int|
            0 <= i < r@.len() ==> is_readout(
                store@,
                pairs_of(markers@.markers, markers@.links, markers@.links.len())[i],
                #[trigger] r@[i],
            ),
{
    let pairs = markers.link_pairs();
    let ghost all = pairs_view(pairs@);
    let mut out: Vec<LinkReadout> = Vec::new();
    let mut i: usize = 0;
    while i < pairs.len()
        invariant
            i <= pairs@.len(),
            store@.wf(),
            all == pairs_view(pairs@),
            out@.len() == i,
            forall|j: int| 0 <= j < i ==> is_readout(store@, all[j], #[trigger] out@[j]),
        decreases pairs@.len() - i,
    {
        let (a, b, link) = pairs[i];
        let readings = read_link(store, &link.signals, a.t_ns, b.t_ns);
        out.push(
            LinkReadout {
                t_from: a.t_ns,
                t_to: b.t_ns,
                color: a.color,
                y_frac: link.y_frac,
                readings,
            },
        );
        assert(all[i as int] == (a@, b@, link@));
        i = i + 1;
    }
    out
}

fn read_link(store: &MockStore, signals: &Vec<ChannelId>, a: u64, b: u64) -> (r: Vec<Reading>)
    requires
        store@.wf(),
    ensures
        r@ == readings_of(store@, signals@, a, b),
{
    let mut out: Vec<Reading> = Vec::new();
    let mut i: usize = 0;
    while i < signals.len()
        invariant
            i <= signals@.len(),
            store@.wf(),
            out@ == readings_of(store@, signals@.take(i as int), a, b),
        decreases signals@.len() - i,
    {
        let ch = signals[i];
        assert(signals@.take(i + 1).drop_last() =~= signals@.take(i as int));
        match (store.sample_at(ch, a), store.sample_at(ch, b)) {
            (Some(from), Some(to)) => {
                out.push(Reading { ch, from, to });
            },
            _ => {},
        }
        i = i + 1;
    }
    assert(signals@.take(signals@.len() as int) =~= signals@);
    out
}

/// The first place at or after `i` of a signal of the channel, or the end.
pub open spec fn signal_index(s: Seq<SignalView>, ch: ChannelId, i: int) -> int
    decreases s.len() - i,
{
    if i >= s.len() || s[i].ch == ch {
        i
    } else {
        signal_index(s, ch, i + 1)
    }
}

/// The short name and the colour under which a reading is shown: those of its signal,
/// or a question mark in the colour of the link where the plot does not show it.
pub fn reading_label(signals: &Vec<Signal>, ch: ChannelId, link_color: [u8; 3]) -> (r: (
    String,
    [u8; 3],
))
    ensures
        ({
            let all = signals_view(signals@);
            let i = signal_index(all, ch, 0);
            if i < all.len() {
                r.0@ == leaf_of(all[i].name) && r.1 == all[i].colour
            } else {
                r.0@ == "?"@ && r.1 == link_color
            }
        }),
{
    let ghost all = signals_view(signals@);
    let mut i: usize = 0;
    while i < signals.len() && signals[i].ch != ch
        invariant
            i <= signals@.len(),
            all == signals_view(signals@),
            signal_index(all, ch, 0) == signal_index(all, ch, i as int),
        decreases signals@.len() - i,
    {
        i = i + 1;
    }
    if i < signals.len() {
        assert(all[i as int] == signals@[i as int]@);
        (short_name(signals[i].name.as_str()).to_owned(), signals[i].colour)
    } else {
        ("?".to_owned(), link_color)
    }
}

} // verus!
