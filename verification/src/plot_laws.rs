//! What plots and lanes show of the samples behind them.

use vstd::prelude::*;

verus! {

use crate::grouping::{all_lanes, is_order_of, key_before, lane_keys, lists_lanes, text_before};
use crate::lanes::{
    are_lane_groups, as_logic, coalesced, color_range, drawn, greatest, held_word, lane_group,
    lane_of, lane_path, least, logic_text, numeric_lane, word_of, LogicRun,
};
use crate::marker_laws::law_pairs_are_the_ends;
use crate::markers::{has_marker, pairs_of, LinkView, MarkerView};
use crate::num::{below, double_of_int, double_of_nat, int_of_double, is_nan, rank, INFINITY};
use crate::num_laws::law_whole_doubles_cut_back;
use crate::panels::{LabelRadix, LogicLane, ScalarPanel, XYPlot};
use crate::signals::{
    first_not_below, high_of, highest, is_readout, low_of, lowest, path_of, readings_of,
    shown_signals, signal_index, staircase, trail_start, xy_pairs, xy_shown, LinkReadout,
    Reading, SignalView, LOWEST,
};
use crate::store::{
    downsampled, ordered, within, Bucket, ChannelId, ChannelInfo, StateRun, StoreView,
};
use crate::store_laws::{is_latest, law_state_is_the_latest_observation, observed, ordered_states};
use crate::text_laws::{law_digits_spell_the_number, spelled};

/// Whether `places` are, in order, the places of the channels that have data in the
/// window.
pub open spec fn are_places_with_data(
    store: StoreView,
    channels: Seq<ChannelId>,
    t0: u64,
    t1: u64,
    max: usize,
    n: nat,
    places: Seq<int>,
) -> bool {
    &&& forall|i: int| 0 <= i < places.len() ==> 0 <= #[trigger] places[i] < n
    &&& forall|i: int, j: int|
        0 <= i < j < places.len() ==> #[trigger] places[i] < #[trigger] places[j]
    &&& forall|k: int|
        0 <= k < n ==> (#[trigger] downsampled(store.samples(channels[k]), t0, t1, max).len() > 0
            <==> places.contains(k))
}

/// A plot shows, in the order of its channels, a signal for each channel that has data
/// in the window: that data, under the channel's path, its style and the colour of its
/// place.
pub proof fn law_signals_are_the_channels_with_data(
    store: StoreView,
    by_id: Map<ChannelId, ChannelInfo>,
    panel: ScalarPanel,
    t0: u64,
    t1: u64,
    max: usize,
    n: nat,
) -> (places: Seq<int>)
    requires
        n <= panel.channels@.len(),
    ensures
        are_places_with_data(store, panel.channels@, t0, t1, max, n, places),
        shown_signals(store, by_id, panel, t0, t1, max, n).len() == places.len(),
        forall|i: int|
            0 <= i < places.len() ==> ({
                let ch = panel.channels@[places[i]];
                (#[trigger] shown_signals(store, by_id, panel, t0, t1, max, n)[i]) == (SignalView {
                    ch,
                    name: path_of(by_id, ch),
                    colour: crate::colours::palette_colour(places[i]),
                    buckets: downsampled(store.samples(ch), t0, t1, max),
                    style: panel.style_of(ch),
                    selected: panel.selected_signals@.contains(ch),
                })
            }),
    decreases n,
{
    if n == 0 {
        Seq::empty()
    } else {
        let m = (n - 1) as nat;
        let before = law_signals_are_the_channels_with_data(store, by_id, panel, t0, t1, max, m);
        let ch = panel.channels@[m as int];
        if downsampled(store.samples(ch), t0, t1, max).len() == 0 {
            assert(!before.contains(m as int));
            before
        } else {
            let places = before.push(m as int);
            assert forall|k: int| 0 <= k < n implies (#[trigger] downsampled(
                store.samples(panel.channels@[k]),
                t0,
                t1,
                max,
            ).len() > 0 <==> places.contains(k)) by {
                if k == m {
                    assert(places[before.len() as int] == k);
                } else {
                    if before.contains(k) {
                        let i = choose|i: int| 0 <= i < before.len() && before[i] == k;
                        assert(places[i] == k);
                    }
                    if places.contains(k) {
                        let i = choose|i: int| 0 <= i < places.len() && places[i] == k;
                        assert(before[i] == k);
                    }
                }
            }
            places
        }
    }
}

proof fn lemma_low(bs: Seq<Bucket>, lo: u64)
    requires
        !is_nan(lo),
    ensures
        !is_nan(low_of(bs, lo)),
        rank(low_of(bs, lo)) <= rank(lo),
        low_of(bs, lo) == lo || exists|k: int|
            0 <= k < bs.len() && (#[trigger] bs[k]).min == low_of(bs, lo),
        forall|k: int|
            0 <= k < bs.len() && !is_nan((#[trigger] bs[k]).min) ==> rank(low_of(bs, lo)) <= rank(
                bs[k].min,
            ),
    decreases bs.len(),
{
    if bs.len() > 0 {
        let r = bs.drop_last();
        lemma_low(r, lo);
        if low_of(bs, lo) != lo {
            if below(bs.last().min, low_of(r, lo)) {
                assert(bs[bs.len() - 1].min == low_of(bs, lo));
            } else {
                let k = choose|k: int| 0 <= k < r.len() && (#[trigger] r[k]).min == low_of(r, lo);
                assert(bs[k].min == low_of(bs, lo));
            }
        }
        assert forall|k: int| 0 <= k < bs.len() && !is_nan((#[trigger] bs[k]).min) implies rank(
            low_of(bs, lo),
        ) <= rank(bs[k].min) by {
            if k < r.len() {
                assert(r[k] == bs[k]);
            }
        }
    }
}

proof fn lemma_high(bs: Seq<Bucket>, hi: u64)
    requires
        !is_nan(hi),
    ensures
        !is_nan(high_of(bs, hi)),
        rank(hi) <= rank(high_of(bs, hi)),
        high_of(bs, hi) == hi || exists|k: int|
            0 <= k < bs.len() && (#[trigger] bs[k]).max == high_of(bs, hi),
        forall|k: int|
            0 <= k < bs.len() && !is_nan((#[trigger] bs[k]).max) ==> rank(bs[k].max) <= rank(
                high_of(bs, hi),
            ),
    decreases bs.len(),
{
    if bs.len() > 0 {
        let r = bs.drop_last();
        lemma_high(r, hi);
        if high_of(bs, hi) != hi {
            if below(high_of(r, hi), bs.last().max) {
                assert(bs[bs.len() - 1].max == high_of(bs, hi));
            } else {
                let k = choose|k: int| 0 <= k < r.len() && (#[trigger] r[k]).max == high_of(r, hi);
                assert(bs[k].max == high_of(bs, hi));
            }
        }
        assert forall|k: int| 0 <= k < bs.len() && !is_nan((#[trigger] bs[k]).max) implies rank(
            bs[k].max,
        ) <= rank(high_of(bs, hi)) by {
            if k < r.len() {
                assert(r[k] == bs[k]);
            }
        }
    }
}

/// The extent of signals holds every bound of every bucket that is a number.
pub proof fn law_extent_holds_every_bucket(s: Seq<SignalView>, i: int, k: int)
    ensures
        !is_nan(lowest(s)),
        !is_nan(highest(s)),
        0 <= i < s.len() && 0 <= k < s[i].buckets.len() ==> {
            &&& !is_nan(s[i].buckets[k].min) ==> rank(lowest(s)) <= rank(s[i].buckets[k].min)
            &&& !is_nan(s[i].buckets[k].max) ==> rank(s[i].buckets[k].max) <= rank(highest(s))
        },
    decreases s.len(),
{
    if s.len() > 0 {
        let r = s.drop_last();
        law_extent_holds_every_bucket(r, i, k);
        lemma_low(s.last().buckets, lowest(r));
        lemma_high(s.last().buckets, highest(r));
        if 0 <= i < r.len() {
            assert(r[i] == s[i]);
        }
    }
}

/// Each end of the extent is the bound of some bucket, or the one that no signals have.
pub proof fn law_extent_is_attained(s: Seq<SignalView>)
    ensures
        lowest(s) == INFINITY || exists|i: int, k: int|
            0 <= i < s.len() && 0 <= k < s[i].buckets.len() && (#[trigger] s[i].buckets[k]).min
                == lowest(s),
        highest(s) == LOWEST || exists|i: int, k: int|
            0 <= i < s.len() && 0 <= k < s[i].buckets.len() && (#[trigger] s[i].buckets[k]).max
                == highest(s),
    decreases s.len(),
{
    if s.len() > 0 {
        let r = s.drop_last();
        let b = s.last().buckets;
        let last = s.len() - 1;
        law_extent_is_attained(r);
        law_extent_holds_every_bucket(r, 0, 0);
        lemma_low(b, lowest(r));
        lemma_high(b, highest(r));
        if lowest(s) == lowest(r) {
            if lowest(s) != INFINITY {
                let (i, k) = choose|i: int, k: int|
                    0 <= i < r.len() && 0 <= k < r[i].buckets.len() && (
                    #[trigger] r[i].buckets[k]).min == lowest(r);
                assert(s[i].buckets[k].min == lowest(s));
            }
        } else {
            let k = choose|k: int| 0 <= k < b.len() && (#[trigger] b[k]).min == lowest(s);
            assert(s[last].buckets[k].min == lowest(s));
        }
        if highest(s) == highest(r) {
            if highest(s) != LOWEST {
                let (i, k) = choose|i: int, k: int|
                    0 <= i < r.len() && 0 <= k < r[i].buckets.len() && (
                    #[trigger] r[i].buckets[k]).max == highest(r);
                assert(s[i].buckets[k].max == highest(s));
            }
        } else {
            let k = choose|k: int| 0 <= k < b.len() && (#[trigger] b[k]).max == highest(s);
            assert(s[last].buckets[k].max == highest(s));
        }
    }
}

/// A staircase goes through each of its points, and comes to each but the first at the
/// height of the point before.
pub proof fn law_staircase_holds_each_value(points: Seq<(u64, u64)>, i: int)
    requires
        0 <= i < points.len(),
    ensures
        staircase(points).len() == 2 * points.len() - 1,
        staircase(points)[2 * i] == points[i],
        i > 0 ==> staircase(points)[2 * i - 1] == (points[i].0, points[i - 1].1),
    decreases points.len(),
{
    if points.len() > 1 {
        let r = points.drop_last();
        if i < r.len() {
            law_staircase_holds_each_value(r, i);
        } else {
            law_staircase_holds_each_value(r, 0);
        }
    }
}

/// The place that is looked up for a time splits the times: all before it are earlier,
/// and the one there, if any, is not.
pub proof fn law_place_splits_the_times(times: Seq<u64>, t: u64, i: int)
    requires
        0 <= i <= times.len(),
    ensures
        i <= first_not_below(times, t, i) <= times.len(),
        forall|k: int| i <= k < first_not_below(times, t, i) ==> below(#[trigger] times[k], t),
        first_not_below(times, t, i) < times.len() ==> !below(
            times[first_not_below(times, t, i)],
            t,
        ),
    decreases times.len() - i,
{
    if i < times.len() && below(times[i], t) {
        law_place_splits_the_times(times, t, i + 1);
    }
}

/// An XY plot pairs, in their order, the buckets of its x channel with the value that
/// the y channel has at the same time, and leaves out those at whose time it has none.
pub proof fn law_xy_points_pair_the_same_time(store: StoreView, y: ChannelId, bs: Seq<Bucket>)
    ensures
        xy_pairs(store, y, bs) == bs.filter_map(
            |b: Bucket|
                match store.value_at(y, b.t) {
                    Some(v) => Some((b, v)),
                    None => None,
                },
        ),
    decreases bs.len(),
{
    let f = |b: Bucket|
        match store.value_at(y, b.t) {
            Some(v) => Some((b, v)),
            None => None,
        };
    if bs.len() > 0 {
        law_xy_points_pair_the_same_time(store, y, bs.drop_last());
        assert(xy_pairs(store, y, bs) =~= bs.filter_map(f));
    }
}

/// A trail shows the times of the window that are less than its length before the latest
/// sample; a plot without a trail shows all of them.
pub proof fn law_trail_shows_the_latest_times(
    t: u64,
    t0: u64,
    latest: Option<u64>,
    trail: Option<u64>,
)
    ensures
        trail_start(t0, latest, trail) <= t <==> t0 <= t && (latest is Some && trail is Some
            ==> latest->0 - t < trail->0),
{
}

/// A link reads, in the order of its signals, those that have a value at both of its
/// ends: what they have at the first end and what they have at the second.
pub proof fn law_readings_are_of_both_ends(
    store: StoreView,
    signals: Seq<ChannelId>,
    a: u64,
    b: u64,
)
    ensures
        readings_of(store, signals, a, b) == signals.filter_map(
            |ch: ChannelId|
                if store.value_at(ch, a) is Some && store.value_at(ch, b) is Some {
                    Some(
                        Reading {
                            ch,
                            from: store.value_at(ch, a)->0,
                            to: store.value_at(ch, b)->0,
                        },
                    )
                } else {
                    None
                },
        ),
    decreases signals.len(),
{
    let f = |ch: ChannelId|
        if store.value_at(ch, a) is Some && store.value_at(ch, b) is Some {
            Some(Reading { ch, from: store.value_at(ch, a)->0, to: store.value_at(ch, b)->0 })
        } else {
            None
        };
    if signals.len() > 0 {
        law_readings_are_of_both_ends(store, signals.drop_last(), a, b);
        assert(readings_of(store, signals, a, b) =~= signals.filter_map(f));
    }
}

/// A signal is found by its channel: the first that has it.
pub proof fn law_signal_is_found(s: Seq<SignalView>, ch: ChannelId, i: int)
    requires
        0 <= i <= s.len(),
    ensures
        i <= signal_index(s, ch, i) <= s.len(),
        signal_index(s, ch, i) < s.len() ==> s[signal_index(s, ch, i)].ch == ch,
        forall|k: int| i <= k < signal_index(s, ch, i) ==> (#[trigger] s[k]).ch != ch,
    decreases s.len() - i,
{
    if i < s.len() && s[i].ch != ch {
        law_signal_is_found(s, ch, i + 1);
    }
}

/// A state that was held as a double is the state again.
pub proof fn law_state_word_reads_back(v: u32)
    ensures
        word_of(double_of_nat(v as nat) as u64) == v,
{
    law_whole_doubles_cut_back(v as int);
}

/// The lane of a state channel shows the runs that meet the window as they are, only that
/// the last one reaches the right edge; and where none does, the held value throughout.
pub proof fn law_lane_shows_the_runs(
    runs: Seq<StateRun>,
    held: Option<u32>,
    t0: u64,
    t1: u64,
    i: int,
)
    ensures
        runs.len() > 0 ==> lane_of(runs, held, t0, t1).len() == runs.len(),
        0 <= i < runs.len() ==> lane_of(runs, held, t0, t1)[i].value == runs[i].value && lane_of(
            runs,
            held,
            t0,
            t1,
        )[i].t_start == runs[i].t_start,
        0 <= i < runs.len() - 1 ==> lane_of(runs, held, t0, t1)[i].t_end == runs[i].t_end,
        runs.len() > 0 ==> lane_of(runs, held, t0, t1).last().t_end >= t1 && lane_of(
            runs,
            held,
            t0,
            t1,
        ).last().t_end >= runs.last().t_end && (lane_of(runs, held, t0, t1).last().t_end == t1
            || lane_of(runs, held, t0, t1).last().t_end == runs.last().t_end),
        runs.len() == 0 ==> (lane_of(runs, held, t0, t1).len() > 0 <==> held is Some),
        runs.len() == 0 && held is Some ==> lane_of(runs, held, t0, t1).len() == 1 && lane_of(
            runs,
            held,
            t0,
            t1,
        )[0] == (StateRun { t_start: t0, t_end: t1, value: held->0 }),
{
}

/// Whether `i` is the last sample that is not later than `t`.
pub open spec fn is_last_by(samples: Seq<(u64, u64)>, t: u64, i: int) -> bool {
    &&& 0 <= i < samples.len()
    &&& samples[i].0 <= t
    &&& i + 1 == samples.len() || t < samples[i + 1].0
}

/// Whether runs follow one another without gap or overlap.
pub open spec fn runs_follow(runs: Seq<LogicRun>) -> bool {
    &&& forall|k: int| 0 <= k < runs.len() ==> (#[trigger] runs[k]).t_start <= runs[k].t_end
    &&& forall|k: int| 0 < k < runs.len() ==> (#[trigger] runs[k]).t_start == runs[k - 1].t_end
}

proof fn lemma_follow_ordered(runs: Seq<LogicRun>, i: int, j: int)
    requires
        0 <= i <= j < runs.len(),
        runs_follow(runs),
    ensures
        runs[i].t_end <= runs[j].t_end,
        runs[i].t_start <= runs[j].t_start,
        i < j ==> runs[i].t_end <= runs[j].t_start,
    decreases j - i,
{
    if i < j {
        lemma_follow_ordered(runs, i, j - 1);
        assert(runs[j].t_start == runs[j - 1].t_end);
        assert(runs[j - 1].t_start <= runs[j - 1].t_end);
        assert(runs[j].t_start <= runs[j].t_end);
    }
}

/// Joined samples hold each number from its sample to the next.
proof fn lemma_coalesced(samples: Seq<(u64, u64)>)
    requires
        ordered(samples),
        samples.len() > 0,
    ensures
        coalesced(samples).len() > 0,
        runs_follow(coalesced(samples)),
        coalesced(samples)[0].t_start == samples[0].0,
        coalesced(samples)[0].value == int_of_double(samples[0].1) as i64,
        coalesced(samples).last().t_end == samples.last().0,
        coalesced(samples).last().value == int_of_double(samples.last().1) as i64,
        forall|k: int, t: u64, i: int|
            0 <= k < coalesced(samples).len() && (#[trigger] coalesced(samples)[k]).t_start <= t
                < coalesced(samples)[k].t_end && #[trigger] is_last_by(samples, t, i)
                ==> coalesced(samples)[k].value == int_of_double(samples[i].1) as i64,
    decreases samples.len(),
{
    let runs = coalesced(samples);
    let t = samples.last().0;
    let r = samples.drop_last();
    let before = coalesced(r);
    reveal_with_fuel(coalesced, 2);
    if r.len() > 0 {
        assert(ordered(r)) by {
            assert forall|i: int, j: int| 0 <= i <= j < r.len() implies (#[trigger] r[i]).0 <= (
            #[trigger] r[j]).0 by {
                assert(samples[i].0 <= samples[j].0);
            }
        }
        lemma_coalesced(r);
        assert(samples[r.len() - 1].0 <= t);
        assert forall|k: int| 0 <= k < runs.len() implies (#[trigger] runs[k]).t_start
            <= runs[k].t_end by {
            if k < before.len() {
                assert(before[k].t_start <= before[k].t_end);
            }
        }
        assert forall|k: int| 0 < k < runs.len() implies (#[trigger] runs[k]).t_start == runs[k
            - 1].t_end by {
            if k < before.len() {
                assert(before[k].t_start == before[k - 1].t_end);
            }
        }
        assert forall|k: int, u: u64, i: int|
            0 <= k < runs.len() && (#[trigger] runs[k]).t_start <= u < runs[k].t_end
                && #[trigger] is_last_by(samples, u, i) implies runs[k].value == int_of_double(
            samples[i].1,
        ) as i64 by {
            assert(k < before.len());
            lemma_follow_ordered(before, k, before.len() - 1);
            assert(i < r.len()) by {
                if i == r.len() {
                    assert(samples[i].0 == t);
                    assert(runs[k].t_end <= t);
                }
            }
            assert(is_last_by(r, u, i));
            if u < before[k].t_end {
                assert(before[k].value == int_of_double(r[i].1) as i64);
            } else {
                assert(k == before.len() - 1);
                assert(i == r.len() - 1) by {
                    if i + 1 < r.len() {
                        assert(samples[i + 1].0 <= samples[r.len() - 1].0);
                    }
                }
            }
        }
    }
}

/// A numeric lane shows at each time of the window the number of the last sample by
/// then. Before the first sample it shows the number that was held there, where one is
/// known, and otherwise the first. Without samples it shows the number known last.
pub proof fn law_numeric_lane_shows_the_last_sample(
    samples: Seq<(u64, u64)>,
    held: Option<i64>,
    latest: Option<i64>,
    t0: u64,
    t1: u64,
    t: u64,
    k: int,
)
    requires
        ordered(samples),
        forall|i: int| 0 <= i < samples.len() ==> t0 <= (#[trigger] samples[i]).0 < t1,
        t0 <= t < t1,
        0 <= k < numeric_lane(samples, held, latest, t0, t1).len(),
        numeric_lane(samples, held, latest, t0, t1)[k].t_start <= t < numeric_lane(
            samples,
            held,
            latest,
            t0,
            t1,
        )[k].t_end,
    ensures
        forall|i: int| #[trigger]
            is_last_by(samples, t, i) ==> numeric_lane(samples, held, latest, t0, t1)[k].value
                == int_of_double(samples[i].1) as i64,
        samples.len() > 0 && t < samples[0].0 ==> numeric_lane(
            samples,
            held,
            latest,
            t0,
            t1,
        )[k].value == (match held {
            Some(v) => v,
            None => int_of_double(samples[0].1) as i64,
        }),
        samples.len() == 0 ==> latest == Some(
            numeric_lane(samples, held, latest, t0, t1)[k].value,
        ),
{
    let lane = numeric_lane(samples, held, latest, t0, t1);
    let runs = coalesced(samples);
    if samples.len() > 0 {
        lemma_coalesced(samples);
        let n = runs.len();
        let first = runs[0];
        let led = first.t_start > t0 && held is Some && held->0 != first.value;
        let q = if led {
            k - 1
        } else {
            k
        };
        if q >= 0 {
            assert(lane[k].value == runs[q].value);
            lemma_follow_ordered(runs, q, n - 1);
            lemma_follow_ordered(runs, 0, q);
        }
        assert forall|i: int| #[trigger] is_last_by(samples, t, i) implies lane[k].value
            == int_of_double(samples[i].1) as i64 by {
            assert(samples[0].0 <= samples[i].0);
            if t < samples.last().0 {
                assert(q >= 0);
                assert(runs[q].t_start <= t < runs[q].t_end);
            } else {
                assert(i == samples.len() - 1) by {
                    if i + 1 < samples.len() {
                        assert(samples[i + 1].0 <= samples[samples.len() - 1].0);
                    }
                }
                assert(q == n - 1);
            }
        }
        if t < samples[0].0 {
            assert(q <= 0) by {
                if q > 0 {
                    assert(runs[q].t_start == runs[q - 1].t_end);
                    lemma_follow_ordered(runs, 0, q);
                }
            }
        }
    }
}

/// A numeric lane that shows anything has a run at each time of the window.
pub proof fn law_numeric_lane_has_no_gap(
    samples: Seq<(u64, u64)>,
    held: Option<i64>,
    latest: Option<i64>,
    t0: u64,
    t1: u64,
    t: u64,
) -> (k: int)
    requires
        ordered(samples),
        forall|i: int| 0 <= i < samples.len() ==> t0 <= (#[trigger] samples[i]).0 < t1,
        t0 <= t < t1,
        samples.len() > 0 || latest is Some,
    ensures
        0 <= k < numeric_lane(samples, held, latest, t0, t1).len(),
        numeric_lane(samples, held, latest, t0, t1)[k].t_start <= t < numeric_lane(
            samples,
            held,
            latest,
            t0,
            t1,
        )[k].t_end,
{
    let lane = numeric_lane(samples, held, latest, t0, t1);
    let runs = coalesced(samples);
    if samples.len() == 0 {
        0
    } else {
        lemma_coalesced(samples);
        assert forall|k: int| 0 < k < lane.len() implies (#[trigger] lane[k]).t_start == lane[k
            - 1].t_end by {
            let led = runs[0].t_start > t0 && held is Some && held->0 != runs[0].value;
            if led {
                if k > 1 {
                    assert(runs[k - 1].t_start == runs[k - 2].t_end);
                }
            } else {
                assert(runs[k].t_start == runs[k - 1].t_end);
            }
        }
        lemma_lane_covered(lane, t, lane.len() as int)
    }
}

proof fn lemma_lane_covered(runs: Seq<LogicRun>, t: u64, n: int) -> (k: int)
    requires
        0 < n <= runs.len(),
        runs[0].t_start <= t < runs[n - 1].t_end,
        forall|k: int| 0 < k < runs.len() ==> (#[trigger] runs[k]).t_start == runs[k - 1].t_end,
    ensures
        0 <= k < n,
        runs[k].t_start <= t < runs[k].t_end,
    decreases n,
{
    if runs[n - 1].t_start <= t {
        n - 1
    } else {
        assert(runs[n - 1].t_start == runs[n - 2].t_end);
        lemma_lane_covered(runs, t, n - 1)
    }
}

/// Whether some run shows the number at the time.
pub open spec fn shown_at(runs: Seq<LogicRun>, t: u64, value: i64) -> bool {
    exists|k: int|
        0 <= k < runs.len() && (#[trigger] runs[k]).t_start <= t < runs[k].t_end && runs[k].value
            == value
}

/// Cutting runs to a window changes nothing of what they show within it, and leaves
/// nothing outside it.
pub proof fn law_cut_runs_show_the_same(
    runs: Seq<LogicRun>,
    t0: u64,
    t1: u64,
    t: u64,
    value: i64,
)
    ensures
        t0 <= t < t1 ==> (shown_at(drawn(runs, t0, t1), t, value) <==> shown_at(runs, t, value)),
        forall|k: int|
            0 <= k < drawn(runs, t0, t1).len() ==> t0 <= (#[trigger] drawn(runs, t0, t1)[k]).t_start
                < drawn(runs, t0, t1)[k].t_end <= t1,
    decreases runs.len(),
{
    let d = drawn(runs, t0, t1);
    if runs.len() > 0 {
        let r = runs.drop_last();
        let e = drawn(r, t0, t1);
        law_cut_runs_show_the_same(r, t0, t1, t, value);
        if t0 <= t < t1 {
            if shown_at(runs, t, value) {
                let k = choose|k: int|
                    0 <= k < runs.len() && (#[trigger] runs[k]).t_start <= t < runs[k].t_end
                        && runs[k].value == value;
                if k < r.len() {
                    assert(r[k] == runs[k]);
                    assert(shown_at(r, t, value));
                    let q = choose|q: int|
                        0 <= q < e.len() && (#[trigger] e[q]).t_start <= t < e[q].t_end
                            && e[q].value == value;
                    assert(d[q] == e[q]);
                } else {
                    assert(d[d.len() - 1].value == value);
                }
            }
            if shown_at(d, t, value) {
                let k = choose|k: int|
                    0 <= k < d.len() && (#[trigger] d[k]).t_start <= t < d[k].t_end && d[k].value
                        == value;
                if k < e.len() {
                    assert(d[k] == e[k]);
                    assert(shown_at(e, t, value));
                    let q = choose|q: int|
                        0 <= q < r.len() && (#[trigger] r[q]).t_start <= t < r[q].t_end
                            && r[q].value == value;
                    assert(runs[q] == r[q]);
                } else {
                    assert(runs[runs.len() - 1].value == value);
                }
            }
        }
    }
}

/// The range of a lane's colours, where the bounds of its channel are not known, goes
/// from its least number to its greatest.
pub proof fn law_colour_range_is_that_of_the_runs(runs: Seq<LogicRun>)
    requires
        runs.len() > 0,
    ensures
        forall|k: int|
            0 <= k < runs.len() ==> color_range(None, runs).0 <= (#[trigger] runs[k]).value
                <= color_range(None, runs).1,
        exists|k: int|
            0 <= k < runs.len() && (#[trigger] runs[k]).value == color_range(None, runs).0,
        exists|k: int|
            0 <= k < runs.len() && (#[trigger] runs[k]).value == color_range(None, runs).1,
{
    lemma_range(runs);
}

proof fn lemma_range(runs: Seq<LogicRun>)
    ensures
        forall|k: int|
            0 <= k < runs.len() ==> least(runs, i64::MAX) <= (#[trigger] runs[k]).value <= greatest(
                runs,
                i64::MIN,
            ),
        runs.len() > 0 ==> exists|k: int|
            0 <= k < runs.len() && (#[trigger] runs[k]).value == least(runs, i64::MAX),
        runs.len() > 0 ==> exists|k: int|
            0 <= k < runs.len() && (#[trigger] runs[k]).value == greatest(runs, i64::MIN),
    decreases runs.len(),
{
    reveal_with_fuel(least, 2);
    reveal_with_fuel(greatest, 2);
    if runs.len() > 0 {
        let r = runs.drop_last();
        let m = runs.len() - 1;
        lemma_range(r);
        assert forall|k: int| 0 <= k < runs.len() implies least(runs, i64::MAX) <= (
        #[trigger] runs[k]).value <= greatest(runs, i64::MIN) by {
            if k < r.len() {
                assert(r[k] == runs[k]);
            }
        }
        if r.len() == 0 {
            assert(runs[0].value == least(runs, i64::MAX));
            assert(runs[0].value == greatest(runs, i64::MIN));
        } else {
            let i = choose|i: int|
                0 <= i < r.len() && (#[trigger] r[i]).value == least(r, i64::MAX);
            let j = choose|j: int|
                0 <= j < r.len() && (#[trigger] r[j]).value == greatest(r, i64::MIN);
            assert(runs[i].value == least(runs, i64::MAX) || runs[m].value == least(
                runs,
                i64::MAX,
            ));
            assert(runs[j].value == greatest(runs, i64::MIN) || runs[m].value == greatest(
                runs,
                i64::MIN,
            ));
        }
    }
}

/// The text of a number begins with a minus where it is negative, and with the mark of
/// its radix; the digits behind spell its size.
pub proof fn law_logic_text_spells_the_number(v: int, radix: LabelRadix) -> (d: Seq<char>)
    ensures
        ({
            let size = (if v < 0 {
                -v
            } else {
                v
            }) as nat;
            let minus = if v < 0 {
                seq!['-']
            } else {
                Seq::empty()
            };
            let (mark, base) = match radix {
                LabelRadix::Dec => (Seq::empty(), 10nat),
                LabelRadix::Hex => (seq!['0', 'x'], 16nat),
                LabelRadix::Bin => (seq!['0', 'b'], 2nat),
            };
            logic_text(v, radix) == minus + mark + d && spelled(d, base) == size
        }),
{
    reveal_strlit("-");
    reveal_strlit("0x");
    reveal_strlit("0b");
    let size = (if v < 0 {
        -v
    } else {
        v
    }) as nat;
    let minus = if v < 0 {
        seq!['-']
    } else {
        Seq::empty()
    };
    let (mark, base) = match radix {
        LabelRadix::Dec => (Seq::empty(), 10nat),
        LabelRadix::Hex => (seq!['0', 'x'], 16nat),
        LabelRadix::Bin => (seq!['0', 'b'], 2nat),
    };
    let d = crate::text::digits(size, base);
    law_digits_spell_the_number(size, base);
    assert("-"@ =~= seq!['-']);
    assert("0x"@ =~= seq!['0', 'x']);
    assert("0b"@ =~= seq!['0', 'b']);
    assert(logic_text(v, radix) =~= minus + mark + d);
    d
}

/// An XY plot whose x channel has at most 50000 samples in what it shows has a point for
/// each of them at whose time the y channel has a value: that sample and that value. What
/// it shows are the times of the window, less than the trail's length before the latest
/// sample where there is a trail.
pub proof fn law_xy_plot_pairs_its_channels(
    store: StoreView,
    xy: XYPlot,
    t0: u64,
    t1: u64,
    latest: Option<u64>,
    start: u64,
)
    requires
        trail_start(t0, latest, xy.trail_ns) == start,
        start < t1,
        within(store.samples(xy.x), start, t1).len() <= 50_000,
    ensures
        xy_shown(store, xy, t0, t1, latest) == within(store.samples(xy.x), start, t1).filter_map(
            |p: (u64, u64)|
                match store.value_at(xy.y, p.0) {
                    Some(v) => Some((Bucket { t: p.0, min: p.1, max: p.1 }, v)),
                    None => None,
                },
        ),
{
    let w = within(store.samples(xy.x), start, t1);
    let f = |b: Bucket|
        match store.value_at(xy.y, b.t) {
            Some(v) => Some((b, v)),
            None => None,
        };
    let g = |p: (u64, u64)|
        match store.value_at(xy.y, p.0) {
            Some(v) => Some((Bucket { t: p.0, min: p.1, max: p.1 }, v)),
            None => None,
        };
    let one = |p: (u64, u64)| crate::store::single(p);
    law_xy_points_pair_the_same_time(store, xy.y, w.map_values(one));
    lemma_mapped_filter(w, one, f, g);
}

proof fn lemma_mapped_filter<A, B, C>(
    s: Seq<A>,
    m: spec_fn(A) -> B,
    f: spec_fn(B) -> Option<C>,
    g: spec_fn(A) -> Option<C>,
)
    requires
        forall|x: A| #[trigger] g(x) == f(m(x)),
    ensures
        s.map_values(m).filter_map(f) == s.filter_map(g),
    decreases s.len(),
{
    if s.len() > 0 {
        let r = s.drop_last();
        lemma_mapped_filter(r, m, f, g);
        assert(s.map_values(m).drop_last() =~= r.map_values(m));
        assert(g(s.last()) == f(m(s.last())));
        assert(s.map_values(m).filter_map(f) =~= s.filter_map(g));
    } else {
        assert(s.map_values(m).filter_map(f) =~= s.filter_map(g));
    }
}

/// The lanes of a panel are listed in groups, each lane once and in its own group: as many
/// as there are, every one of them, and no two neighbouring groups the same.
pub proof fn law_lane_groups_hold_every_lane(
    lanes: Seq<LogicLane>,
    by_id: Map<ChannelId, ChannelInfo>,
    r: Seq<(String, Vec<usize>)>,
    i: usize,
)
    requires
        are_lane_groups(lanes, by_id, r),
        i < lanes.len(),
    ensures
        all_lanes(r).len() == lanes.len(),
        all_lanes(r).contains((i, lane_group(by_id, lanes[i as int].ch))),
        forall|k: int|
            0 <= k < all_lanes(r).len() ==> (#[trigger] all_lanes(r)[k]).0 < lanes.len()
                && all_lanes(r)[k].1 == lane_group(by_id, lanes[all_lanes(r)[k].0 as int].ch),
{
    let groups = lanes.map_values(|l: LogicLane| lane_group(by_id, l.ch));
    let paths = lanes.map_values(|l: LogicLane| lane_path(by_id, l.ch));
    let keys = lane_keys(groups, paths, true);
    let order = choose|order: Seq<(usize, String)>|
        #[trigger] lists_lanes(order, groups, keys) && all_lanes(r) == order.map_values(
            |p: (usize, String)| (p.0, p.1@),
        );
    let places = order.map_values(|p: (usize, String)| p.0 as int);
    let all = all_lanes(r);
    assert forall|k: int| 0 <= k < all.len() implies (#[trigger] all[k]).0 < lanes.len()
        && all[k].1 == lane_group(by_id, lanes[all[k].0 as int].ch) by {
        assert(places[k] == order[k].0);
        assert(order[k].1@ == groups[order[k].0 as int]);
    }
    assert(places.contains(i as int));
    let k = choose|k: int| 0 <= k < places.len() && places[k] == i as int;
    assert(order[k].0 == i);
    assert(all[k].0 == i);
    assert(all[k] == (i, lane_group(by_id, lanes[i as int].ch)));
}

/// The lanes are listed by group, those without a group at the end, and within a group by
/// path.
pub proof fn law_lanes_are_listed_by_group_and_path(
    groups: Seq<Seq<char>>,
    paths: Seq<Seq<char>>,
    order: Seq<int>,
    a: int,
    b: int,
)
    requires
        groups.len() == paths.len(),
        is_order_of(order, lane_keys(groups, paths, true)),
        0 <= a < b < order.len(),
    ensures
        ({
            let (i, j) = (order[a], order[b]);
            &&& i != j
            &&& groups[i].len() == 0 ==> groups[j].len() == 0
            &&& groups[i].len() > 0 && groups[j].len() > 0 && groups[i] != groups[j] ==> text_before(
                groups[i],
                groups[j],
            )
            &&& groups[i] == groups[j] && paths[i] != paths[j] ==> text_before(paths[i], paths[j])
            &&& groups[i] == groups[j] && paths[i] == paths[j] ==> i < j
        }),
{
    let keys = lane_keys(groups, paths, true);
    let (i, j) = (order[a], order[b]);
    assert(key_before(keys[i], keys[j]));
}

/// A state channel's lane holds, where no run meets the window, the state that was
/// observed last.
pub proof fn law_held_word_is_the_latest_state(
    store: StoreView,
    ch: ChannelId,
    obs: Seq<(u64, u32)>,
    t: u64,
    i: int,
)
    requires
        store.wf(),
        ch < store.channels.len(),
        store.channels[ch as int].kind is State,
        store.runs(ch) == observed(obs),
        ordered_states(obs),
        is_latest(obs, t, i),
        t < obs.last().0,
    ensures
        held_word(store, ch, t) == Some(obs[i].1),
{
    assert(obs[0].0 <= obs[i].0);
    law_state_is_the_latest_observation(store, ch, obs, t);
    law_state_word_reads_back(obs[i].1);
}

/// A lane of numbers shows the states of a channel as they are.
pub proof fn law_states_show_as_numbers(runs: Seq<StateRun>, i: int)
    requires
        0 <= i < runs.len(),
    ensures
        as_logic(runs).len() == runs.len(),
        as_logic(runs)[i].value == runs[i].value,
        as_logic(runs)[i].t_start == runs[i].t_start,
        as_logic(runs)[i].t_end == runs[i].t_end,
{
}

/// Where the bounds of a whole channel are known, its colours lie between them.
pub proof fn law_known_bounds_are_the_colour_range(lo: int, hi: int, runs: Seq<LogicRun>)
    requires
        -0x20_0000_0000_0000 < lo <= hi < 0x20_0000_0000_0000,
    ensures
        color_range(
            Some((double_of_int(lo) as u64, double_of_int(hi) as u64)),
            runs,
        ) == (lo as i64, hi as i64),
{
    law_whole_doubles_cut_back(lo);
    law_whole_doubles_cut_back(hi);
}

/// What is shown of the links goes from the marker that a link starts from, in its
/// colour, to the one it leads to, and reads its signals at the times of the two.
pub proof fn law_readouts_span_their_markers(
    store: StoreView,
    markers: Seq<MarkerView>,
    links: Seq<LinkView>,
    r: LinkReadout,
    i: int,
) -> (ends: (int, int, int))
    requires
        0 <= i < pairs_of(markers, links, links.len()).len(),
        is_readout(store, pairs_of(markers, links, links.len())[i], r),
    ensures
        0 <= ends.0 < markers.len(),
        0 <= ends.1 < markers.len(),
        0 <= ends.2 < links.len(),
        ({
            let (a, b, l) = (markers[ends.0], markers[ends.1], links[ends.2]);
            &&& l.a == a.id && l.b == b.id
            &&& r.t_from == a.t_ns && r.t_to == b.t_ns
            &&& r.color == a.color
            &&& r.y_frac == l.y_frac
            &&& forall|k: int|
                0 <= k < r.readings@.len() ==> ({
                    let x = #[trigger] r.readings@[k];
                    &&& l.signals.contains(x.ch)
                    &&& store.value_at(x.ch, a.t_ns) == Some(x.from)
                    &&& store.value_at(x.ch, b.t_ns) == Some(x.to)
                })
            &&& forall|k: int|
                0 <= k < l.signals.len() && store.value_at(#[trigger] l.signals[k], a.t_ns) is Some
                    && store.value_at(l.signals[k], b.t_ns) is Some ==> exists|j: int|
                    0 <= j < r.readings@.len() && (#[trigger] r.readings@[j]).ch == l.signals[k]
        }),
{
    let all = pairs_of(markers, links, links.len());
    let p = all[i];
    law_pairs_are_the_ends(markers, links, links.len());
    let third = |p: (MarkerView, MarkerView, LinkView)| p.2;
    let ends = |l: LinkView| has_marker(markers, l.a) && has_marker(markers, l.b);
    assert(links.take(links.len() as int) =~= links);
    let kept = links.filter(ends);
    assert(all.map_values(third)[i] == p.2);
    assert(kept[i] == p.2);
    assert(kept.contains(p.2));
    links.lemma_filter_contains_rev(ends, p.2);
    let ia = choose|j: int| 0 <= j < markers.len() && markers[j] == p.0;
    let ib = choose|j: int| 0 <= j < markers.len() && markers[j] == p.1;
    let il = choose|j: int| 0 <= j < links.len() && links[j] == p.2;
    lemma_readings(store, p.2.signals, p.0.t_ns, p.1.t_ns);
    (ia, ib, il)
}

proof fn lemma_readings(store: StoreView, signals: Seq<ChannelId>, a: u64, b: u64)
    ensures
        forall|k: int|
            0 <= k < readings_of(store, signals, a, b).len() ==> ({
                let x = #[trigger] readings_of(store, signals, a, b)[k];
                &&& signals.contains(x.ch)
                &&& store.value_at(x.ch, a) == Some(x.from)
                &&& store.value_at(x.ch, b) == Some(x.to)
            }),
        forall|k: int|
            0 <= k < signals.len() && store.value_at(#[trigger] signals[k], a) is Some
                && store.value_at(signals[k], b) is Some ==> exists|j: int|
                0 <= j < readings_of(store, signals, a, b).len() && (#[trigger] readings_of(
                    store,
                    signals,
                    a,
                    b,
                )[j]).ch == signals[k],
    decreases signals.len(),
{
    if signals.len() > 0 {
        let rest = signals.drop_last();
        lemma_readings(store, rest, a, b);
        let (before, all) = (readings_of(store, rest, a, b), readings_of(store, signals, a, b));
        assert forall|k: int| 0 <= k < all.len() implies ({
            let x = #[trigger] all[k];
            &&& signals.contains(x.ch)
            &&& store.value_at(x.ch, a) == Some(x.from)
            &&& store.value_at(x.ch, b) == Some(x.to)
        }) by {
            if k < before.len() {
                let x = before[k];
                assert(rest.contains(x.ch));
                let i = choose|i: int| 0 <= i < rest.len() && rest[i] == x.ch;
                assert(signals[i] == x.ch);
            } else {
                assert(signals[signals.len() - 1] == all[k].ch);
            }
        }
        assert forall|k: int|
            0 <= k < signals.len() && store.value_at(#[trigger] signals[k], a) is Some
                && store.value_at(signals[k], b) is Some implies exists|j: int|
            0 <= j < all.len() && (#[trigger] all[j]).ch == signals[k] by {
            if k < rest.len() {
                assert(rest[k] == signals[k]);
                let j = choose|j: int|
                    0 <= j < before.len() && (#[trigger] before[j]).ch == rest[k];
                assert(all[j].ch == signals[k]);
            } else {
                assert(all[all.len() - 1].ch == signals[k]);
            }
        }
    }
}

} // verus!
