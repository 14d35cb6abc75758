//! The lanes of a logic analyser: which runs they show in a window, on what range
//! their colours lie, and in what order they stand.

use crate::drops::{state_lane_mode, StateLaneMode};
use crate::grouping::{channel_group, collapse_groups, group_then_name_order};
use crate::num::i64_of_f64;
use crate::panels::{LabelRadix, LogicLane};
use crate::store::{ChannelId, ChannelInfo, MockStore, Sample, StateRun};
use crate::text::{append_digits, append_text};
use std::collections::{HashMap, HashSet};
use vstd::prelude::*;

verus! {

use crate::grouping::{all_lanes, group_of, lane_keys, lists_lanes};
use crate::num::int_of_double;
use crate::store::{downsampled, runs_within, Bucket, StoreView};
use crate::text::digits;

broadcast use vstd::std_specs::hash::group_hash_axioms;

/// A stretch of time over which a lane holds one number.
#[derive(Clone, Copy, Debug, PartialEq, Eq, Structural)]
pub struct LogicRun {
    pub t_start: u64,
    pub t_end: u64,
    pub value: i64,
}

/// The double cut to a whole number that 32 bits hold.
pub open spec fn word_of(b: u64) -> u32 {
    let v = int_of_double(b);
    if v < 0 {
        0
    } else if v > 0xffff_ffff {
        0xffff_ffff
    } else {
        v as u32
    }
}

/// The double cut to a whole number that 32 bits hold.
pub fn u32_of_f64(b: u64) -> (r: u32)
    ensures
        r == word_of(b),
{
    let v: i64 = i64_of_f64(b);
    if v < 0 {
        0
    } else if v > 0xffff_ffff {
        0xffff_ffff
    } else {
        v as u32
    }
}

/// The runs of a state lane in `[t0, t1)`, given those that meet the window and
/// the value held at its start: where there are none, one that holds that value
/// throughout; and the last one always reaches the right edge.
pub open spec fn lane_of(
    runs: Seq<StateRun>,
    held: Option<u32>,
    t0: u64,
    t1: u64,
) -> Seq<StateRun> {
    if runs.len() == 0 {
        match held {
            Some(value) => seq![StateRun { t_start: t0, t_end: t1, value }],
            None => Seq::empty(),
        }
    } else if runs.last().t_end < t1 {
        runs.update(runs.len() - 1, StateRun { t_end: t1, ..runs.last() })
    } else {
        runs
    }
}

/// Completes the runs of a state lane.
pub fn complete_state_runs(runs: Vec<StateRun>, held: Option<u32>, t0: u64, t1: u64) -> (r: Vec<
    StateRun,
>)
    ensures
        r@ == lane_of(runs@, held, t0, t1),
{
    let mut runs = runs;
    let n: usize = runs.len();
    if n == 0 {
        match held {
            Some(value) => {
                runs.push(StateRun { t_start: t0, t_end: t1, value });
            },
            None => {},
        }
        assert(runs@ =~= lane_of(Seq::empty(), held, t0, t1));
    } else {
        let last = runs[n - 1];
        if last.t_end < t1 {
            runs.set(n - 1, StateRun { t_end: t1, ..last });
        }
    }
    runs
}

/// The value that a state channel holds at `t`.
pub open spec fn held_word(s: StoreView, ch: ChannelId, t: u64) -> Option<u32> {
    match s.value_at(ch, t) {
        Some(Sample::Exact(b)) => Some(word_of(b)),
        _ => None,
    }
}

/// The runs that the lane of a state channel shows in `[t0, t1)`.
pub fn state_lane_runs(store: &MockStore, ch: ChannelId, t0: u64, t1: u64) -> (r: Vec<StateRun>)
    requires
        store@.wf(),
        ch < store@.channels.len() ==> store@.channels[ch as int].kind is State,
    ensures
        r@ == lane_of(
            runs_within(store@.runs(ch), t0, t1),
            held_word(store@, ch, t0),
            t0,
            t1,
        ),
{
    let runs = store.query_state(ch, t0, t1);
    let held = match store.sample_at(ch, t0) {
        Some(Sample::Exact(b)) => Some(u32_of_f64(b)),
        _ => None,
    };
    complete_state_runs(runs, held, t0, t1)
}

/// The runs as runs of numbers.
pub open spec fn as_logic(runs: Seq<StateRun>) -> Seq<LogicRun> {
    runs.map_values(
        |r: StateRun| LogicRun { t_start: r.t_start, t_end: r.t_end, value: r.value as i64 },
    )
}

/// The runs that the numeric lane of a state channel shows in `[t0, t1)`.
pub fn state_logic_runs(store: &MockStore, ch: ChannelId, t0: u64, t1: u64) -> (r: Vec<LogicRun>)
    requires
        store@.wf(),
        ch < store@.channels.len() ==> store@.channels[ch as int].kind is State,
    ensures
        r@ == as_logic(
            lane_of(
                runs_within(store@.runs(ch), t0, t1),
                held_word(store@, ch, t0),
                t0,
                t1,
            ),
        ),
{
    let runs = state_lane_runs(store, ch, t0, t1);
    let mut out: Vec<LogicRun> = Vec::new();
    let mut i: usize = 0;
    while i < runs.len()
        invariant
            i <= runs@.len(),
            out@.len() == i,
            forall|j: int|
                0 <= j < i ==> #[trigger] out@[j] == (LogicRun {
                    t_start: runs@[j].t_start,
                    t_end: runs@[j].t_end,
                    value: runs@[j].value as i64,
                }),
        decreases runs@.len() - i,
    {
        let run = runs[i];
        out.push(LogicRun { t_start: run.t_start, t_end: run.t_end, value: run.value as i64 });
        i = i + 1;
    }
    assert(out@ =~= as_logic(runs@));
    out
}

/// Samples as runs of whole numbers: each run ends where the next begins.
pub open spec fn coalesced(samples: Seq<(u64, u64)>) -> Seq<LogicRun>
    decreases samples.len(),
{
    if samples.len() == 0 {
        Seq::empty()
    } else {
        let before = coalesced(samples.drop_last());
        let t = samples.last().0;
        let value = int_of_double(samples.last().1) as i64;
        let fresh = LogicRun { t_start: t, t_end: t, value };
        if before.len() == 0 {
            seq![fresh]
        } else {
            let ended = before.update(
                before.len() - 1,
                LogicRun { t_end: t, ..before.last() },
            );
            if before.last().value == value {
                ended
            } else {
                ended.push(fresh)
            }
        }
    }
}

/// The runs of a numeric lane in `[t0, t1)`, given its samples in the window, the
/// value it has at the start of the window and the last one that it is known to
/// have. The last run reaches the right edge. The first one starts at the left
/// edge, after a run of the value held before where that differs. Without samples
/// the last known value is held throughout.
pub open spec fn numeric_lane(
    samples: Seq<(u64, u64)>,
    held: Option<i64>,
    latest: Option<i64>,
    t0: u64,
    t1: u64,
) -> Seq<LogicRun> {
    let runs = coalesced(samples);
    if runs.len() == 0 {
        match latest {
            Some(value) => seq![LogicRun { t_start: t0, t_end: t1, value }],
            None => Seq::empty(),
        }
    } else {
        let full = runs.update(runs.len() - 1, LogicRun { t_end: t1, ..runs.last() });
        let first = full[0];
        if first.t_start <= t0 {
            full
        } else if held is Some && held->0 != first.value {
            seq![LogicRun { t_start: t0, t_end: first.t_start, value: held->0 }] + full
        } else {
            full.update(0, LogicRun { t_start: t0, ..first })
        }
    }
}

proof fn lemma_coalesced_len(samples: Seq<(u64, u64)>)
    ensures
        samples.len() > 0 ==> coalesced(samples).len() > 0,
        coalesced(samples).len() <= samples.len(),
    decreases samples.len(),
{
    if samples.len() > 0 {
        lemma_coalesced_len(samples.drop_last());
    }
}

/// Joins samples into the runs of a numeric lane.
pub fn numeric_runs(
    samples: &Vec<(u64, u64)>,
    held: Option<i64>,
    latest: Option<i64>,
    t0: u64,
    t1: u64,
) -> (r: Vec<LogicRun>)
    ensures
        r@ == numeric_lane(samples@, held, latest, t0, t1),
{
    let mut out: Vec<LogicRun> = Vec::new();
    let mut i: usize = 0;
    while i < samples.len()
        invariant
            i <= samples@.len(),
            out@ == coalesced(samples@.take(i as int)),
        decreases samples@.len() - i,
    {
        let (t, v) = samples[i];
        let value: i64 = i64_of_f64(v);
        let n: usize = out.len();
        assert(samples@.take(i + 1).drop_last() =~= samples@.take(i as int));
        let fresh = LogicRun { t_start: t, t_end: t, value };
        if n == 0 {
            out.push(fresh);
            assert(out@ =~= seq![fresh]);
        } else {
            let last = out[n - 1];
            out.set(n - 1, LogicRun { t_end: t, ..last });
            if last.value != value {
                out.push(fresh);
            }
        }
        i = i + 1;
    }
    assert(samples@.take(samples@.len() as int) =~= samples@);
    let n: usize = out.len();
    if n == 0 {
        match latest {
            Some(value) => {
                out.push(LogicRun { t_start: t0, t_end: t1, value });
            },
            None => {},
        }
        assert(out@ =~= numeric_lane(samples@, held, latest, t0, t1));
        return out;
    }
    let last = out[n - 1];
    out.set(n - 1, LogicRun { t_end: t1, ..last });
    let first = out[0];
    if first.t_start > t0 {
        let lead = match held {
            Some(v) => if v != first.value {
                Some(v)
            } else {
                None
            },
            None => None,
        };
        match lead {
            Some(value) => {
                let ghost full = out@;
                let run = LogicRun { t_start: t0, t_end: first.t_start, value };
                out.insert(0, run);
                assert(out@ =~= seq![run] + full);
            },
            None => {
                out.set(0, LogicRun { t_start: t0, ..first });
            },
        }
    }
    out
}

/// The runs that the lane of a numeric channel shows in `[t0, t1)`. What the
/// channel has at the start of the window, and last, comes with the call: between
/// two samples it lies on the line that joins them.
pub fn scalar_lane_runs(
    store: &MockStore,
    ch: ChannelId,
    t0: u64,
    t1: u64,
    max_samples: usize,
    held: Option<i64>,
    latest: Option<i64>,
) -> (r: Vec<LogicRun>)
    ensures
        r@ == numeric_lane(
            downsampled(store@.samples(ch), t0, t1, max_samples).map_values(
                |b: Bucket| (b.t, b.max),
            ),
            held,
            latest,
            t0,
            t1,
        ),
{
    let samples = store.query_raw(ch, t0, t1, max_samples);
    numeric_runs(&samples, held, latest, t0, t1)
}

/// A numeric lane that shows anything starts at the left edge of the window or
/// before it, and its last run reaches the right edge.
pub proof fn law_numeric_lane_has_no_gap_at_the_edges(
    samples: Seq<(u64, u64)>,
    held: Option<i64>,
    latest: Option<i64>,
    t0: u64,
    t1: u64,
)
    ensures
        ({
            let lane = numeric_lane(samples, held, latest, t0, t1);
            lane.len() > 0 ==> lane[0].t_start <= t0 && lane.last().t_end == t1
        }),
        samples.len() > 0 || latest is Some ==> numeric_lane(
            samples,
            held,
            latest,
            t0,
            t1,
        ).len() > 0,
{
    lemma_coalesced_len(samples);
}

/// Neighbouring runs of samples hold different numbers, and each ends where the
/// next begins.
pub proof fn law_runs_join(samples: Seq<(u64, u64)>)
    ensures
        forall|i: int|
            #![trigger coalesced(samples)[i]]
            0 < i < coalesced(samples).len() ==> coalesced(samples)[i].value != coalesced(
                samples,
            )[i - 1].value && coalesced(samples)[i - 1].t_end == coalesced(samples)[i].t_start,
    decreases samples.len(),
{
    if samples.len() > 0 {
        law_runs_join(samples.drop_last());
        let before = coalesced(samples.drop_last());
        let after = coalesced(samples);
        assert forall|i: int|
            #![trigger after[i]]
            0 < i < after.len() implies after[i].value != after[i - 1].value && after[i - 1].t_end
            == after[i].t_start by {
            if i < before.len() {
                assert(before[i].value != before[i - 1].value);
            }
        }
    }
}

/// The runs that a lane draws in `[t0, t1)`: cut to the window, without those that
/// nothing is left of.
pub open spec fn drawn(runs: Seq<LogicRun>, t0: u64, t1: u64) -> Seq<LogicRun>
    decreases runs.len(),
{
    if runs.len() == 0 {
        Seq::empty()
    } else {
        let r = runs.last();
        let s = if r.t_start > t0 { r.t_start } else { t0 };
        let e = if r.t_end < t1 { r.t_end } else { t1 };
        let before = drawn(runs.drop_last(), t0, t1);
        if e > s {
            before.push(LogicRun { t_start: s, t_end: e, ..r })
        } else {
            before
        }
    }
}

/// Cuts runs to a window.
pub fn clip_runs(runs: &Vec<LogicRun>, t0: u64, t1: u64) -> (r: Vec<LogicRun>)
    ensures
        r@ == drawn(runs@, t0, t1),
{
    let mut out: Vec<LogicRun> = Vec::new();
    let mut i: usize = 0;
    while i < runs.len()
        invariant
            i <= runs@.len(),
            out@ == drawn(runs@.take(i as int), t0, t1),
        decreases runs@.len() - i,
    {
        let run = runs[i];
        assert(runs@.take(i + 1).drop_last() =~= runs@.take(i as int));
        let s: u64 = if run.t_start > t0 {
            run.t_start
        } else {
            t0
        };
        let e: u64 = if run.t_end < t1 {
            run.t_end
        } else {
            t1
        };
        if e > s {
            out.push(LogicRun { t_start: s, t_end: e, ..run });
        }
        i = i + 1;
    }
    assert(runs@.take(runs@.len() as int) =~= runs@);
    out
}

/// The values that runs hold.
pub open spec fn values_of(runs: Seq<StateRun>) -> Set<u32> {
    runs.map_values(|r: StateRun| r.value).to_set()
}

/// How a state lane is drawn: with labels, or as a heatmap where it shows too many
/// different values.
pub fn lane_mode_for(runs: &Vec<StateRun>) -> (r: StateLaneMode)
    ensures
        r == (if values_of(runs@).len() > crate::drops::STATE_LABEL_TEXT_LIMIT {
            StateLaneMode::Heatmap
        } else {
            StateLaneMode::Labels
        }),
{
    let mut seen: HashSet<u32> = HashSet::new();
    let ghost vals = runs@.map_values(|r: StateRun| r.value);
    let mut i: usize = 0;
    assert(vals.take(0).to_set() =~= Set::empty());
    while i < runs.len()
        invariant
            i <= runs@.len(),
            vals == runs@.map_values(|r: StateRun| r.value),
            seen@ == vals.take(i as int).to_set(),
        decreases runs@.len() - i,
    {
        let v: u32 = runs[i].value;
        seen.insert(v);
        proof {
            let a = vals.take(i as int);
            let b = vals.take(i + 1);
            assert(b =~= a.push(v));
            assert forall|x: u32| #[trigger] b.to_set().contains(x) <==> a.to_set().insert(
                v,
            ).contains(x) by {
                if a.contains(x) {
                    let j = choose|j: int| 0 <= j < a.len() && a[j] == x;
                    assert(b[j] == x);
                }
                assert(b[i as int] == v);
                if b.contains(x) && x != v {
                    let j = choose|j: int| 0 <= j < b.len() && b[j] == x;
                    assert(a[j] == x);
                }
            }
            assert(b.to_set() =~= a.to_set().insert(v));
        }
        i = i + 1;
    }
    assert(vals.take(runs@.len() as int) =~= vals);
    state_lane_mode(seen.len())
}

/// The least number of runs, or `start` where that is less.
pub open spec fn least(runs: Seq<LogicRun>, start: i64) -> i64
    decreases runs.len(),
{
    if runs.len() == 0 {
        start
    } else {
        let m = least(runs.drop_last(), start);
        if runs.last().value < m {
            runs.last().value
        } else {
            m
        }
    }
}

/// The greatest number of runs, or `start` where that is greater.
pub open spec fn greatest(runs: Seq<LogicRun>, start: i64) -> i64
    decreases runs.len(),
{
    if runs.len() == 0 {
        start
    } else {
        let m = greatest(runs.drop_last(), start);
        if runs.last().value > m {
            runs.last().value
        } else {
            m
        }
    }
}

/// The range on which the colours of a numeric lane lie, given the bounds of all
/// values of the channel: those, so that colours stay when the view moves, or the
/// bounds of what is shown where they are not known.
pub open spec fn color_range(bounds: Option<(u64, u64)>, runs: Seq<LogicRun>) -> (i64, i64) {
    match bounds {
        Some((lo, hi)) => (int_of_double(lo) as i64, int_of_double(hi) as i64),
        None => (least(runs, i64::MAX), greatest(runs, i64::MIN)),
    }
}

/// The range for given bounds.
pub fn range_for(bounds: Option<(u64, u64)>, runs: &Vec<LogicRun>) -> (r: (i64, i64))
    ensures
        r == color_range(bounds, runs@),
{
    match bounds {
        Some((lo, hi)) => (i64_of_f64(lo), i64_of_f64(hi)),
        None => {
            let mut lo: i64 = i64::MAX;
            let mut hi: i64 = i64::MIN;
            let mut i: usize = 0;
            while i < runs.len()
                invariant
                    i <= runs@.len(),
                    lo == least(runs@.take(i as int), i64::MAX),
                    hi == greatest(runs@.take(i as int), i64::MIN),
                decreases runs@.len() - i,
            {
                let v: i64 = runs[i].value;
                assert(runs@.take(i + 1).drop_last() =~= runs@.take(i as int));
                if v < lo {
                    lo = v;
                }
                if v > hi {
                    hi = v;
                }
                i = i + 1;
            }
            assert(runs@.take(runs@.len() as int) =~= runs@);
            (lo, hi)
        },
    }
}

/// The range on which the colours of a lane lie.
pub fn lane_range(store: &MockStore, ch: ChannelId, runs: &Vec<LogicRun>) -> (r: (i64, i64))
    ensures
        r == color_range(store@.extremes(ch), runs@),
{
    range_for(store.value_bounds(ch), runs)
}

/// How far a value lies along a range, as a fraction; a value beside the range counts as
/// its end. Nothing where the range is empty.
pub fn heat_of(value: i64, lo: i64, hi: i64) -> (r: Option<(u64, u64)>)
    ensures
        r == (if lo >= hi {
            None
        } else if value < lo {
            Some((0u64, (hi - lo) as u64))
        } else if value > hi {
            Some(((hi - lo) as u64, (hi - lo) as u64))
        } else {
            Some(((value - lo) as u64, (hi - lo) as u64))
        }),
{
    if lo < hi {
        let value: i64 = if value < lo {
            lo
        } else if value > hi {
            hi
        } else {
            value
        };
        Some(((value as i128 - lo as i128) as u64, (hi as i128 - lo as i128) as u64))
    } else {
        None
    }
}

/// The text of a number in a radix.
pub open spec fn logic_text(v: int, radix: LabelRadix) -> Seq<char> {
    let sign = if v < 0 {
        "-"@
    } else {
        Seq::empty()
    };
    let mag = if v < 0 {
        (-v) as nat
    } else {
        v as nat
    };
    match radix {
        LabelRadix::Dec => sign + digits(mag, 10),
        LabelRadix::Hex => sign + "0x"@ + digits(mag, 16),
        LabelRadix::Bin => sign + "0b"@ + digits(mag, 2),
    }
}

/// The text of a number in a radix.
pub fn format_logic_value(v: i64, radix: LabelRadix) -> (r: String)
    ensures
        r@ == logic_text(v as int, radix),
{
    let mut out = String::new();
    if v < 0 {
        append_text(&mut out, "-");
    }
    let mag: u64 = if v < 0 {
        (-(v as i128)) as u64
    } else {
        v as u64
    };
    match radix {
        LabelRadix::Dec => {
            append_digits(&mut out, mag, 10);
        },
        LabelRadix::Hex => {
            append_text(&mut out, "0x");
            append_digits(&mut out, mag, 16);
        },
        LabelRadix::Bin => {
            append_text(&mut out, "0b");
            append_digits(&mut out, mag, 2);
        },
    }
    assert(out@ =~= logic_text(v as int, radix));
    out
}

/// The group of a lane; none where its channel is not known.
pub open spec fn lane_group(by_id: Map<ChannelId, ChannelInfo>, ch: ChannelId) -> Seq<char> {
    if by_id.contains_key(ch) {
        group_of(by_id[ch].path@)
    } else {
        Seq::empty()
    }
}

/// The path of a lane; empty where its channel is not known.
pub open spec fn lane_path(by_id: Map<ChannelId, ChannelInfo>, ch: ChannelId) -> Seq<char> {
    if by_id.contains_key(ch) {
        by_id[ch].path@
    } else {
        Seq::empty()
    }
}

/// Whether the groups hold all lanes in the order of their groups and paths, with
/// those that have none at the end, and no two neighbours are of the same group.
pub open spec fn are_lane_groups(
    lanes: Seq<LogicLane>,
    by_id: Map<ChannelId, ChannelInfo>,
    r: Seq<(String, Vec<usize>)>,
) -> bool {
    let groups = lanes.map_values(|l: LogicLane| lane_group(by_id, l.ch));
    let paths = lanes.map_values(|l: LogicLane| lane_path(by_id, l.ch));
    &&& exists|order: Seq<(usize, String)>|
        #[trigger] lists_lanes(order, groups, lane_keys(groups, paths, true)) && all_lanes(r)
            == order.map_values(|p: (usize, String)| (p.0, p.1@))
    &&& forall|g: int| 0 <= g < r.len() ==> (#[trigger] r[g]).1@.len() > 0
    &&& forall|g: int| 0 < g < r.len() ==> (#[trigger] r[g]).0@ != r[g - 1].0@
}

/// The lanes of a panel as they stand below one another, by group.
pub fn lane_groups(lanes: &Vec<LogicLane>, by_id: &HashMap<ChannelId, ChannelInfo>) -> (r: Vec<
    (String, Vec<usize>),
>)
    ensures
        are_lane_groups(lanes@, by_id@, r@),
{
    let mut resolved: Vec<(Option<&str>, &str)> = Vec::new();
    let mut i: usize = 0;
    while i < lanes.len()
        invariant
            i <= lanes@.len(),
            resolved@.len() == i,
            forall|j: int|
                0 <= j < i ==> crate::grouping::group_text((#[trigger] resolved@[j]).0)
                    == lane_group(by_id@, lanes@[j].ch) && resolved@[j].1@ == lane_path(
                    by_id@,
                    lanes@[j].ch,
                ),
        decreases lanes@.len() - i,
    {
        match by_id.get(&lanes[i].ch) {
            Some(info) => {
                resolved.push((Some(channel_group(info.path.as_str())), info.path.as_str()));
            },
            None => {
                proof {
                    reveal_strlit("");
                }
                resolved.push((None, ""));
                assert(""@ =~= Seq::<char>::empty());
            },
        }
        i = i + 1;
    }
    let order = group_then_name_order(resolved.as_slice());
    proof {
        assert(resolved@.map_values(
            |g: (Option<&str>, &str)| crate::grouping::group_text(g.0),
        ) =~= lanes@.map_values(|l: LogicLane| lane_group(by_id@, l.ch)));
        assert(resolved@.map_values(|g: (Option<&str>, &str)| g.1@) =~= lanes@.map_values(
            |l: LogicLane| lane_path(by_id@, l.ch),
        ));
    }
    collapse_groups(&order)
}

} // verus!
