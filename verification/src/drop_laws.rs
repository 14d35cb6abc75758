//! What moving and dropping channels does to the plots.

use vstd::prelude::*;

verus! {

use crate::drops::{
    drop_effect, holds_channels, is_target, lanes_with_all, lanes_with_drop, moved,
    only_changed, shows, traces_with_all, with_channel_dropped, DragPayload,
};
use crate::grouping::group_of;
use crate::panels::{
    fresh_mode, has_lane, is_lane_at, is_logic, joined_styles, lanes_with, without_channel,
    without_lanes, LabelRadix, LaneMode, LogicLane, PlotId, PlotKind, SignalStyle,
};
use crate::store::{ChannelId, ChannelInfo};

proof fn lemma_filter_has<A>(s: Seq<A>, p: spec_fn(A) -> bool, x: A)
    ensures
        s.filter(p).contains(x) <==> s.contains(x) && p(x),
{
    if s.contains(x) && p(x) {
        let i = choose|i: int| 0 <= i < s.len() && s[i] == x;
        s.lemma_filter_contains(p, i);
    }
    if s.filter(p).contains(x) {
        s.lemma_filter_contains_rev(p, x);
        let i = choose|i: int| 0 <= i < s.filter(p).len() && s.filter(p)[i] == x;
        s.lemma_filter_pred(p, i);
    }
}

proof fn lemma_channels_left(s: Seq<ChannelId>, x: ChannelId, c: ChannelId)
    ensures
        without_channel(s, x).contains(c) <==> s.contains(c) && c != x,
    decreases s.len(),
{
    reveal(Seq::filter);
    if s.len() > 0 {
        let r = s.drop_last();
        lemma_channels_left(r, x, c);
        let (a, b) = (without_channel(r, x), without_channel(s, x));
        assert(s =~= r.push(s.last()));
        assert(b =~= if s.last() != x {
            a.push(s.last())
        } else {
            a
        });
        if r.contains(c) {
            let i = choose|i: int| 0 <= i < r.len() && r[i] == c;
            assert(s[i] == c);
        }
        if s.contains(c) && c != s.last() {
            let i = choose|i: int| 0 <= i < s.len() && s[i] == c;
            assert(r[i] == c);
        }
        if a.contains(c) {
            let i = choose|i: int| 0 <= i < a.len() && a[i] == c;
            assert(b[i] == c);
        }
        if b.contains(c) {
            let i = choose|i: int| 0 <= i < b.len() && b[i] == c;
            if i < a.len() {
                assert(a[i] == c);
            }
        }
        if s.last() != x {
            assert(b[a.len() as int] == s.last());
        }
        assert(s[r.len() as int] == s.last());
    }
}

proof fn lemma_lanes_left(lanes: Seq<LogicLane>, id: ChannelId, c: ChannelId)
    ensures
        has_lane(without_lanes(lanes, id), c) <==> has_lane(lanes, c) && c != id,
{
    let p = |l: LogicLane| l.ch != id;
    let left = without_lanes(lanes, id);
    if has_lane(left, c) {
        let i = choose|i: int| 0 <= i < left.len() && (#[trigger] left[i]).ch == c;
        assert(left.contains(left[i]));
        lemma_filter_has(lanes, p, left[i]);
        let j = choose|j: int| 0 <= j < lanes.len() && lanes[j] == left[i];
        assert(lanes[j].ch == c);
    }
    if has_lane(lanes, c) && c != id {
        let i = choose|i: int| 0 <= i < lanes.len() && (#[trigger] lanes[i]).ch == c;
        lemma_filter_has(lanes, p, lanes[i]);
        assert(lanes.contains(lanes[i]));
        let j = choose|j: int| 0 <= j < left.len() && left[j] == lanes[i];
        assert(left[j].ch == c);
    }
}

proof fn lemma_lane_added(lanes: Seq<LogicLane>, info: ChannelInfo, c: ChannelId)
    ensures
        has_lane(lanes_with(lanes, info), c) <==> has_lane(lanes, c) || (is_logic(info) && c
            == info.id),
        lanes.is_prefix_of(lanes_with(lanes, info)),
{
    let out = lanes_with(lanes, info);
    if has_lane(lanes, c) {
        let i = choose|i: int| 0 <= i < lanes.len() && (#[trigger] lanes[i]).ch == c;
        assert(out[i].ch == c);
    }
    if is_logic(info) && !has_lane(lanes, info.id) {
        assert(out[lanes.len() as int].ch == info.id);
    }
    if has_lane(out, c) {
        let i = choose|i: int| 0 <= i < out.len() && (#[trigger] out[i]).ch == c;
        if i < lanes.len() {
            assert(lanes[i].ch == c);
        }
    }
}

/// Moving a channel moves that channel alone: the plot that it leaves keeps its others,
/// and the plot that it comes to has its others and the moved one; their titles stay.
pub proof fn law_moving_moves_one_channel(
    before: Map<u64, PlotKind>,
    after: Map<u64, PlotKind>,
    from: PlotId,
    to: PlotId,
    info: ChannelInfo,
    radix: Option<LabelRadix>,
    c: ChannelId,
)
    requires
        moved(before, after, from, to, info.id, info, radix),
        before.contains_key(from.0),
        holds_channels(before[from.0]),
        is_target(before, from, info, to.0),
    ensures
        shows(after[from.0], c) <==> shows(before[from.0], c) && c != info.id,
        shows(after[to.0], c) <==> shows(before[to.0], c) || c == info.id,
        after[from.0].title_of() == before[from.0].title_of(),
        after[to.0].title_of() == before[to.0].title_of(),
{
    let (a, b) = (before[from.0], after[from.0]);
    match (a, b) {
        (PlotKind::Scalar(p), PlotKind::Scalar(q)) => {
            lemma_channels_left(p.channels@, info.id, c);
        },
        (PlotKind::LogicAnalyser(p), PlotKind::LogicAnalyser(q)) => {
            lemma_lanes_left(p.lanes@, info.id, c);
        },
        _ => {},
    }
    let (a, b) = (before[to.0], after[to.0]);
    match (a, b) {
        (PlotKind::Scalar(p), PlotKind::Scalar(q)) => {
            if p.takes(info) {
                let s = p.channels@;
                if s.contains(c) {
                    let i = choose|i: int| 0 <= i < s.len() && s[i] == c;
                    assert(q.channels@[i] == c);
                }
                assert(q.channels@[s.len() as int] == info.id);
                if q.channels@.contains(c) {
                    let i = choose|i: int| 0 <= i < q.channels@.len() && q.channels@[i] == c;
                    if i < s.len() {
                        assert(s[i] == c);
                    }
                }
            }
        },
        (PlotKind::LogicAnalyser(p), PlotKind::LogicAnalyser(q)) => {
            let mid = lanes_with(p.lanes@, info);
            lemma_lane_added(p.lanes@, info, c);
            lemma_radix_keeps_lanes(
                mid,
                q.lanes@,
                info.id,
                crate::drops::kept_radix(before, from, radix),
                c,
            );
        },
        _ => {},
    }
}

proof fn lemma_radix_keeps_lanes(
    lanes: Seq<LogicLane>,
    out: Seq<LogicLane>,
    ch: ChannelId,
    radix: Option<LabelRadix>,
    c: ChannelId,
)
    requires
        crate::drops::lanes_with_radix(lanes, out, ch, radix),
    ensures
        has_lane(out, c) <==> has_lane(lanes, c),
        out.len() == lanes.len(),
{
    assert(out.len() == lanes.len());
    assert forall|k: int| 0 <= k < lanes.len() implies (#[trigger] out[k]).ch == lanes[k].ch by {}
    if has_lane(lanes, c) {
        let i = choose|i: int| 0 <= i < lanes.len() && (#[trigger] lanes[i]).ch == c;
        assert(out[i].ch == c);
    }
    if has_lane(out, c) {
        let i = choose|i: int| 0 <= i < out.len() && (#[trigger] out[i]).ch == c;
        assert(lanes[i].ch == c);
    }
}

/// A lane that moves from one logic analyser to another that does not have it keeps the
/// radix that it had; one that comes from another plot begins in hexadecimal.
pub proof fn law_moved_lane_keeps_its_radix(
    before: Map<u64, PlotKind>,
    after: Map<u64, PlotKind>,
    from: PlotId,
    to: PlotId,
    info: ChannelInfo,
    radix: Option<LabelRadix>,
)
    requires
        moved(before, after, from, to, info.id, info, radix),
        before.contains_key(from.0),
        is_target(before, from, info, to.0),
        before[to.0] is LogicAnalyser,
        !shows(before[to.0], info.id),
    ensures
        after[to.0] is LogicAnalyser,
        ({
            let old_lanes = before[to.0]->LogicAnalyser_0.lanes@;
            let lanes = after[to.0]->LogicAnalyser_0.lanes@;
            &&& lanes.len() == old_lanes.len() + 1
            &&& lanes.drop_last() == old_lanes
            &&& lanes.last().ch == info.id
            &&& lanes.last().mode == (if info.kind is State {
                LaneMode::Named
            } else {
                LaneMode::Numeric
            })
            &&& lanes.last().radix == (match (before[from.0], radix) {
                (PlotKind::LogicAnalyser(_), Some(x)) => x,
                _ => LabelRadix::Hex,
            })
        }),
{
    let p = before[to.0]->LogicAnalyser_0;
    let q = after[to.0]->LogicAnalyser_0;
    let mid = lanes_with(p.lanes@, info);
    let kept = crate::drops::kept_radix(before, from, radix);
    assert(mid == p.lanes@.push(
        LogicLane { ch: info.id, mode: fresh_mode(info.kind), radix: LabelRadix::Hex },
    ));
    assert(mid[p.lanes@.len() as int].ch == info.id);
    if kept is Some {
        assert(has_lane(mid, info.id));
        let i = choose|i: int| #[trigger]
            is_lane_at(mid, info.id, i) && q.lanes@ == mid.update(
                i,
                LogicLane { radix: kept->0, ..mid[i] },
            );
        assert(i == p.lanes@.len()) by {
            if i < p.lanes@.len() {
                assert(p.lanes@[i] == mid[i]);
                assert(has_lane(p.lanes@, info.id));
            }
        }
    }
    assert(q.lanes@.drop_last() =~= p.lanes@);
}

/// Whether no channel has two lanes.
pub open spec fn lanes_differ(lanes: Seq<LogicLane>) -> bool {
    forall|i: int, j: int|
        0 <= i < j < lanes.len() ==> (#[trigger] lanes[i]).ch != (#[trigger] lanes[j]).ch
}

proof fn lemma_differ_with(lanes: Seq<LogicLane>, info: ChannelInfo)
    requires
        lanes_differ(lanes),
    ensures
        lanes_differ(lanes_with(lanes, info)),
{
    let out = lanes_with(lanes, info);
    assert forall|i: int, j: int| 0 <= i < j < out.len() implies (#[trigger] out[i]).ch != (
    #[trigger] out[j]).ch by {
        assert(out[i] == lanes[i]);
        if j < lanes.len() {
            assert(out[j] == lanes[j]);
        }
    }
}

/// Dropping channels one by one onto a logic analyser leaves its lanes as they are and
/// adds one, behind them, for each channel that is known, can be a lane and is none yet.
pub proof fn law_dropped_channels_become_lanes(
    lanes: Seq<LogicLane>,
    ids: Seq<ChannelId>,
    by_id: Map<ChannelId, ChannelInfo>,
    n: nat,
    c: ChannelId,
)
    requires
        n <= ids.len(),
        forall|k: ChannelId| #[trigger] by_id.contains_key(k) ==> by_id[k].id == k,
    ensures
        lanes.is_prefix_of(lanes_with_all(lanes, ids, by_id, n)),
        has_lane(lanes_with_all(lanes, ids, by_id, n), c) <==> has_lane(lanes, c) || (
        ids.take(n as int).contains(c) && by_id.contains_key(c) && (by_id[c].kind is State
            || by_id[c].integer_storage)),
        lanes_differ(lanes) ==> lanes_differ(lanes_with_all(lanes, ids, by_id, n)),
    decreases n,
{
    if n > 0 {
        let m = (n - 1) as nat;
        law_dropped_channels_become_lanes(lanes, ids, by_id, m, c);
        let before = lanes_with_all(lanes, ids, by_id, m);
        let out = lanes_with_all(lanes, ids, by_id, n);
        let id = ids[m as int];
        assert(ids.take(n as int) =~= ids.take(m as int).push(id));
        if ids.take(m as int).contains(c) {
            let i = choose|i: int| 0 <= i < m && ids.take(m as int)[i] == c;
            assert(ids.take(n as int)[i] == c);
        }
        if ids.take(n as int).contains(c) && c != id {
            let i = choose|i: int| 0 <= i < n && ids.take(n as int)[i] == c;
            assert(ids.take(m as int)[i] == c);
        }
        assert(ids.take(n as int)[m as int] == id);
        if by_id.contains_key(id) {
            lemma_lane_added(before, by_id[id], c);
            if lanes_differ(before) {
                lemma_differ_with(before, by_id[id]);
            }
        }
    } else {
        assert(ids.take(0) =~= Seq::empty());
    }
}

/// A bitfield word that is dropped on a logic analyser becomes its bits: each of them
/// that is known has a lane, and the word itself gets none.
pub proof fn law_dropped_word_becomes_its_bits(
    lanes: Seq<LogicLane>,
    word: ChannelId,
    info: ChannelInfo,
    words: Map<ChannelId, Seq<ChannelId>>,
    by_id: Map<ChannelId, ChannelInfo>,
    c: ChannelId,
)
    requires
        words.contains_key(word),
        forall|k: ChannelId| #[trigger] by_id.contains_key(k) ==> by_id[k].id == k,
    ensures
        lanes.is_prefix_of(lanes_with_drop(lanes, word, info, words, by_id)),
        has_lane(lanes_with_drop(lanes, word, info, words, by_id), c) <==> has_lane(lanes, c) || (
        words[word].contains(c) && by_id.contains_key(c) && (by_id[c].kind is State
            || by_id[c].integer_storage)),
{
    let ids = words[word];
    law_dropped_channels_become_lanes(lanes, ids, by_id, ids.len(), c);
    assert(ids.take(ids.len() as int) =~= ids);
}

/// Dropping several channels onto a scalar plot leaves its channels as they are and adds,
/// behind them, each that is known, numeric and not there yet; the styles that there were
/// stay for the channels that there were.
pub proof fn law_dropped_channels_become_traces(
    channels: Seq<ChannelId>,
    styles: Map<ChannelId, SignalStyle>,
    ids: Seq<ChannelId>,
    by_id: Map<ChannelId, ChannelInfo>,
    n: nat,
    c: ChannelId,
)
    requires
        n <= ids.len(),
        forall|k: ChannelId| #[trigger] by_id.contains_key(k) ==> by_id[k].id == k,
    ensures
        channels.is_prefix_of(traces_with_all(channels, styles, ids, by_id, n).0),
        traces_with_all(channels, styles, ids, by_id, n).0.contains(c) <==> channels.contains(c)
            || (ids.take(n as int).contains(c) && by_id.contains_key(c) && by_id[c].kind is Scalar),
        channels.no_duplicates() ==> traces_with_all(
            channels,
            styles,
            ids,
            by_id,
            n,
        ).0.no_duplicates(),
        channels.contains(c) ==> (traces_with_all(
            channels,
            styles,
            ids,
            by_id,
            n,
        ).1.contains_key(c) <==> styles.contains_key(c)),
        channels.contains(c) && styles.contains_key(c) ==> traces_with_all(
            channels,
            styles,
            ids,
            by_id,
            n,
        ).1[c] == styles[c],
    decreases n,
{
    if n > 0 {
        let m = (n - 1) as nat;
        law_dropped_channels_become_traces(channels, styles, ids, by_id, m, c);
        let (before, s) = traces_with_all(channels, styles, ids, by_id, m);
        let out = traces_with_all(channels, styles, ids, by_id, n).0;
        let id = ids[m as int];
        assert(ids.take(n as int) =~= ids.take(m as int).push(id));
        if ids.take(m as int).contains(c) {
            let i = choose|i: int| 0 <= i < m && ids.take(m as int)[i] == c;
            assert(ids.take(n as int)[i] == c);
        }
        if ids.take(n as int).contains(c) && c != id {
            let i = choose|i: int| 0 <= i < n && ids.take(n as int)[i] == c;
            assert(ids.take(m as int)[i] == c);
        }
        assert(ids.take(n as int)[m as int] == id);
        if by_id.contains_key(id) && by_id[id].kind is Scalar && !before.contains(id) {
            assert(out == before.push(id));
            assert(out[before.len() as int] == id);
            if before.contains(c) {
                let i = choose|i: int| 0 <= i < before.len() && before[i] == c;
                assert(out[i] == c);
            }
            if out.contains(c) && c != id {
                let i = choose|i: int| 0 <= i < out.len() && out[i] == c;
                assert(before[i] == c);
            }
        }
    } else {
        assert(ids.take(0) =~= Seq::empty());
    }
}

/// A channel that joins a plot, and has no style of its own, is drawn like the first of
/// the plot.
pub proof fn law_joining_channel_takes_the_style(
    channels: Seq<ChannelId>,
    styles: Map<ChannelId, SignalStyle>,
    ch: ChannelId,
)
    requires
        channels.len() > 0,
        !channels.contains(ch),
        !styles.contains_key(ch),
    ensures
        ({
            let r = joined_styles(channels, styles, ch);
            let first = channels[0];
            &&& styles.contains_key(first) ==> r.contains_key(ch) && r[ch] == styles[first]
            &&& !styles.contains_key(first) ==> !r.contains_key(ch)
            &&& forall|k: ChannelId| k != ch ==> (#[trigger] r.contains_key(k)
                <==> styles.contains_key(k)) && (styles.contains_key(k) ==> r[k] == styles[k])
        }),
{
}

/// A plot that takes a channel shows it after it was dropped there.
pub proof fn law_dropped_channel_is_shown(
    a: PlotKind,
    b: PlotKind,
    info: ChannelInfo,
    words: Map<ChannelId, Seq<ChannelId>>,
    by_id: Map<ChannelId, ChannelInfo>,
    c: ChannelId,
)
    requires
        holds_channels(a),
        a.takes(info),
        !words.contains_key(info.id),
        with_channel_dropped(a, b, info.id, info, words, by_id),
    ensures
        shows(b, c) <==> shows(a, c) || c == info.id,
        b.title_of() == a.title_of(),
{
    match (a, b) {
        (PlotKind::Scalar(p), PlotKind::Scalar(q)) => {
            if p.takes(info) {
                let s = p.channels@;
                assert(q.channels@[s.len() as int] == info.id);
                if s.contains(c) {
                    let i = choose|i: int| 0 <= i < s.len() && s[i] == c;
                    assert(q.channels@[i] == c);
                }
                if q.channels@.contains(c) {
                    let i = choose|i: int| 0 <= i < q.channels@.len() && q.channels@[i] == c;
                    if i < s.len() {
                        assert(s[i] == c);
                    }
                }
            }
        },
        (PlotKind::LogicAnalyser(p), PlotKind::LogicAnalyser(q)) => {
            lemma_lane_added(p.lanes@, info, c);
        },
        _ => {},
    }
}

/// Which channels a plot takes: plots of values and of pairs take numbers and nothing
/// else, log views take texts and nothing else, and a logic analyser takes states and
/// whatever is stored as an integer.
pub proof fn law_plots_take_their_kinds(plot: PlotKind, ch: ChannelInfo)
    ensures
        plot is Scalar || plot is XY ==> (plot.takes(ch) <==> ch.kind is Scalar),
        plot is LogView ==> (plot.takes(ch) <==> ch.kind is Text),
        plot is LogicAnalyser ==> (plot.takes(ch) <==> ch.kind is State || ch.integer_storage),
{
}

/// A drop touches no other plot than the one it is dropped on, adds none and takes none
/// away. Where it asks for a plot to be opened, or drops on none, it leaves all as they
/// are.
pub proof fn law_drop_touches_one_plot(
    payload: DragPayload,
    pid: u64,
    before: Map<u64, PlotKind>,
    after: Map<u64, PlotKind>,
    xy_before: Option<ChannelId>,
    xy_after: Option<ChannelId>,
    words: Map<ChannelId, Seq<ChannelId>>,
    by_id: Map<ChannelId, ChannelInfo>,
    made: Option<PlotKind>,
)
    requires
        drop_effect(payload, pid, before, after, xy_before, xy_after, words, by_id, made),
    ensures
        after.dom() == before.dom(),
        forall|id: u64| id != pid && before.contains_key(id) ==> #[trigger] after[id] == before[id],
        made is Some ==> after == before,
        !before.contains_key(pid) ==> after == before,
        !(payload is XYSeed) ==> xy_after == xy_before,
{
    if only_changed(before, after, pid) {
        assert(after.dom() =~= before.dom());
        assert forall|id: u64| id != pid && before.contains_key(id) implies #[trigger] after[id]
            == before[id] by {
            assert(before.insert(pid, after[pid])[id] == before[id]);
        }
    }
}

/// The first of two seeds waits for the second. The second then asks for a plot with the
/// first along and itself up, and nothing waits any more; the same channel twice goes on
/// waiting.
pub proof fn law_two_seeds_make_a_pair(
    a: ChannelId,
    b: ChannelId,
    first_on: u64,
    second_on: u64,
    before: Map<u64, PlotKind>,
    between: Map<u64, PlotKind>,
    after: Map<u64, PlotKind>,
    waiting: Option<ChannelId>,
    left: Option<ChannelId>,
    words: Map<ChannelId, Seq<ChannelId>>,
    by_id: Map<ChannelId, ChannelInfo>,
    first: Option<PlotKind>,
    second: Option<PlotKind>,
)
    requires
        drop_effect(
            DragPayload::XYSeed(a),
            first_on,
            before,
            between,
            None,
            waiting,
            words,
            by_id,
            first,
        ),
        drop_effect(
            DragPayload::XYSeed(b),
            second_on,
            between,
            after,
            waiting,
            left,
            words,
            by_id,
            second,
        ),
    ensures
        after == before,
        first is None,
        a == b ==> second is None && left == Some(a),
        a != b ==> left is None && (second matches Some(PlotKind::XY(p)) && p.x == a && p.y == b
            && p.trail_ns is None),
{
}

/// A text that is dropped on a plot that does not take it asks for a log view of its
/// group: all channels of the group are columns, and that text is the one that is shown.
pub proof fn law_dropped_text_opens_its_log(
    ch: ChannelId,
    pid: u64,
    before: Map<u64, PlotKind>,
    after: Map<u64, PlotKind>,
    xy_before: Option<ChannelId>,
    xy_after: Option<ChannelId>,
    words: Map<ChannelId, Seq<ChannelId>>,
    by_id: Map<ChannelId, ChannelInfo>,
    made: Option<PlotKind>,
)
    requires
        drop_effect(
            DragPayload::Channel(ch),
            pid,
            before,
            after,
            xy_before,
            xy_after,
            words,
            by_id,
            made,
        ),
        by_id.contains_key(ch),
        before.contains_key(pid),
        !before[pid].takes(by_id[ch]),
    ensures
        by_id[ch].kind is Text ==> (made matches Some(PlotKind::LogView(p)) && {
            &&& p.visible@.len() == 1
            &&& 0 <= p.visible@[0] < p.columns@.len()
            &&& p.columns@[p.visible@[0] as int] == ch
            &&& p.columns@.no_duplicates()
            &&& p.group@ == group_of(by_id[ch].path@)
            &&& forall|k: ChannelId| #[trigger]
                p.columns@.contains(k) <==> by_id.contains_key(k) && group_of(by_id[k].path@)
                    == group_of(by_id[ch].path@)
            &&& forall|k: ChannelId| !(#[trigger] p.filters@.contains_key(k))
        }),
        !(by_id[ch].kind is Text) ==> made is None && after == before,
{
    if by_id[ch].kind is Text {
        let p = made->0->LogView_0;
        assert forall|k: ChannelId| !(#[trigger] p.filters@.contains_key(k)) by {
            assert(!p.filters@.dom().contains(k));
        }
    }
}

/// A group that is dropped asks for a log view whose columns are its channels, in their
/// order and all of them shown.
pub proof fn law_dropped_group_opens_its_log(
    name: String,
    channels: Vec<ChannelId>,
    pid: u64,
    before: Map<u64, PlotKind>,
    after: Map<u64, PlotKind>,
    xy_before: Option<ChannelId>,
    xy_after: Option<ChannelId>,
    words: Map<ChannelId, Seq<ChannelId>>,
    by_id: Map<ChannelId, ChannelInfo>,
    made: Option<PlotKind>,
)
    requires
        drop_effect(
            DragPayload::Group { name, channels },
            pid,
            before,
            after,
            xy_before,
            xy_after,
            words,
            by_id,
            made,
        ),
    ensures
        after == before,
        made matches Some(PlotKind::LogView(p)) && {
            &&& p.group@ == name@
            &&& p.columns@ == channels@
            &&& p.visible@.len() == channels@.len()
            &&& forall|i: int| 0 <= i < channels@.len() ==> #[trigger] p.visible@[i] == i as usize
        },
{
}

/// After several channels were dropped on it, a plot of values shows what it showed and
/// each of them that is known and a number.
pub proof fn law_dropped_channels_are_shown(
    chs: Vec<ChannelId>,
    pid: u64,
    before: Map<u64, PlotKind>,
    after: Map<u64, PlotKind>,
    xy_before: Option<ChannelId>,
    xy_after: Option<ChannelId>,
    words: Map<ChannelId, Seq<ChannelId>>,
    by_id: Map<ChannelId, ChannelInfo>,
    made: Option<PlotKind>,
    c: ChannelId,
)
    requires
        drop_effect(
            DragPayload::Channels(chs),
            pid,
            before,
            after,
            xy_before,
            xy_after,
            words,
            by_id,
            made,
        ),
        before.contains_key(pid),
        before[pid] is Scalar,
        forall|k: ChannelId| #[trigger] by_id.contains_key(k) ==> by_id[k].id == k,
    ensures
        made is None,
        after[pid] is Scalar,
        shows(after[pid], c) <==> shows(before[pid], c) || (chs@.contains(c) && by_id.contains_key(c)
            && by_id[c].kind is Scalar),
{
    let p = before[pid]->Scalar_0;
    law_dropped_channels_become_traces(p.channels@, p.styles@, chs@, by_id, chs@.len(), c);
    assert(chs@.take(chs@.len() as int) =~= chs@);
}

/// A lane that is added stands behind the others, shows its numbers in hex, and shows
/// names where the channel has states.
pub proof fn law_added_lane_comes_last(lanes: Seq<LogicLane>, ch: ChannelInfo)
    requires
        ch.kind is State || ch.integer_storage,
        !has_lane(lanes, ch.id),
    ensures
        ({
            let r = lanes_with(lanes, ch);
            &&& r.len() == lanes.len() + 1
            &&& lanes.is_prefix_of(r)
            &&& r.last().ch == ch.id
            &&& r.last().radix == LabelRadix::Hex
            &&& r.last().mode == LaneMode::Named <==> ch.kind is State
        }),
{
}

} // verus!
