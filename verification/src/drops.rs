//! Dragging channels: what a drag carries, which plots take it, and what a drop
//! or a move does.

use crate::grouping::{channel_group, fit_label, short_name};
use crate::panels::{
    LabelRadix, LogViewPanel, LogicAnalyserPanel, PlotId, PlotKind, PlotRegistry, ScalarPanel,
    XYPlot,
};
use crate::store::{ChannelId, ChannelInfo, ChannelKind, MockStore};
use crate::text::{append_text, same_text};
use std::collections::HashMap;
use vstd::prelude::*;

verus! {

use crate::grouping::{fitted_label, group_of, leaf_of};
use crate::panels::{
    has_lane, is_lane_at, joined_styles, lanes_with, without_channel, without_lanes, LogicLane,
    SignalStyle,
};

broadcast use vstd::std_specs::hash::group_hash_axioms;

/// What a drag from the channel tree carries.
#[derive(Clone, Debug)]
pub enum DragPayload {
    /// Single channel.
    Channel(ChannelId),
    /// Several selected channels.
    Channels(Vec<ChannelId>),
    /// A whole schema group.
    Group { name: String, channels: Vec<ChannelId> },
    /// One axis of an XY plot to be.
    XYSeed(ChannelId),
}

/// Hint for a plot's drop zone while a drag is in progress.
#[derive(Clone, Copy, Debug, PartialEq, Eq, Structural)]
pub enum DropTint {
    Accept,
    Reject,
}

/// Whether the plot takes the channel `c`, which must be known.
pub open spec fn takes_id(plot: PlotKind, by_id: Map<ChannelId, ChannelInfo>, c: ChannelId) -> bool {
    by_id.contains_key(c) && plot.takes(by_id[c])
}

/// How a drag tints a plot. Seeds and groups make plots of their own, and leave
/// the plot plain; so does a channel that is not known.
pub open spec fn tint(
    payload: DragPayload,
    plot: PlotKind,
    by_id: Map<ChannelId, ChannelInfo>,
) -> Option<DropTint> {
    match payload {
        DragPayload::Channel(ch) => if !by_id.contains_key(ch) {
            None
        } else if plot.takes(by_id[ch]) {
            Some(DropTint::Accept)
        } else {
            Some(DropTint::Reject)
        },
        DragPayload::Channels(chs) => if exists|i: int|
            0 <= i < chs@.len() && takes_id(plot, by_id, #[trigger] chs@[i]) {
            Some(DropTint::Accept)
        } else {
            Some(DropTint::Reject)
        },
        DragPayload::Group { .. } => None,
        DragPayload::XYSeed(_) => None,
    }
}

/// Decides how a drag in progress tints a plot's drop zone.
pub fn tint_for_drop(
    payload: &DragPayload,
    plot: &PlotKind,
    by_id: &HashMap<ChannelId, ChannelInfo>,
) -> (r: Option<DropTint>)
    ensures
        r == tint(*payload, *plot, by_id@),
{
    match payload {
        DragPayload::Channel(ch) => match by_id.get(ch) {
            None => None,
            Some(info) => if plot.accepts(info) {
                Some(DropTint::Accept)
            } else {
                Some(DropTint::Reject)
            },
        },
        DragPayload::Channels(chs) => {
            let mut any = false;
            let mut i: usize = 0;
            while i < chs.len()
                invariant
                    i <= chs@.len(),
                    any == exists|j: int|
                        0 <= j < i && takes_id(*plot, by_id@, #[trigger] chs@[j]),
                decreases chs@.len() - i,
            {
                if let Some(info) = by_id.get(&chs[i]) {
                    if plot.accepts(info) {
                        any = true;
                        assert(takes_id(*plot, by_id@, chs@[i as int]));
                    }
                }
                i = i + 1;
            }
            Some(
                if any {
                    DropTint::Accept
                } else {
                    DropTint::Reject
                },
            )
        },
        DragPayload::Group { .. } => None,
        DragPayload::XYSeed(_) => None,
    }
}

/// The panel `q` is `p` after the channel was added to it.
pub open spec fn scalar_added(p: ScalarPanel, q: ScalarPanel, info: ChannelInfo) -> bool {
    if p.takes(info) {
        &&& q.channels@ == p.channels@.push(info.id)
        &&& q.styles@ == joined_styles(p.channels@, p.styles@, info.id)
        &&& q.title == p.title
        &&& q.selected_signals == p.selected_signals
    } else {
        q == p
    }
}

/// The lanes with the radix of one channel's lane set.
pub open spec fn lanes_with_radix(
    lanes: Seq<LogicLane>,
    out: Seq<LogicLane>,
    ch: ChannelId,
    radix: Option<LabelRadix>,
) -> bool {
    match radix {
        Some(x) => if has_lane(lanes, ch) {
            exists|i: int| #[trigger]
                is_lane_at(lanes, ch, i) && out == lanes.update(
                    i,
                    LogicLane { radix: x, ..lanes[i] },
                )
        } else {
            out == lanes
        },
        None => out == lanes,
    }
}

/// The plot `b` is `a` after a channel was moved onto it.
pub open spec fn received(
    a: PlotKind,
    b: PlotKind,
    ch: ChannelId,
    info: ChannelInfo,
    radix: Option<LabelRadix>,
) -> bool {
    match (a, b) {
        (PlotKind::Scalar(p), PlotKind::Scalar(q)) => scalar_added(p, q, info),
        (PlotKind::LogicAnalyser(p), PlotKind::LogicAnalyser(q)) => {
            &&& q.title == p.title
            &&& lanes_with_radix(lanes_with(p.lanes@, info), q.lanes@, ch, radix)
        },
        _ => false,
    }
}

/// The plot `b` is `a` after a channel was taken off it.
pub open spec fn released(a: PlotKind, b: PlotKind, ch: ChannelId) -> bool {
    match (a, b) {
        (PlotKind::Scalar(p), PlotKind::Scalar(q)) => {
            &&& q.channels@ == without_channel(p.channels@, ch)
            &&& q.styles@ == p.styles@.remove(ch)
            &&& q.title == p.title
            &&& q.selected_signals == p.selected_signals
        },
        (PlotKind::LogicAnalyser(p), PlotKind::LogicAnalyser(q)) => {
            &&& q.title == p.title
            &&& q.lanes@ == without_lanes(p.lanes@, ch)
        },
        (PlotKind::LogView(_), _) => a == b,
        (PlotKind::XY(_), _) => a == b,
        _ => false,
    }
}

/// Whether the plots of a kind hold channels that come and go.
pub open spec fn holds_channels(plot: PlotKind) -> bool {
    plot is Scalar || plot is LogicAnalyser
}

fn receive(plot: &mut PlotKind, ch: ChannelId, info: &ChannelInfo, radix: Option<LabelRadix>)
    requires
        holds_channels(*old(plot)),
    ensures
        received(*old(plot), *final(plot), ch, *info, radix),
{
    match plot {
        PlotKind::Scalar(p) => {
            p.add(info);
        },
        PlotKind::LogicAnalyser(p) => {
            p.add(info);
            if let Some(x) = radix {
                if let Some(slot) = p.radix_for_mut(ch) {
                    *slot = x;
                }
            }
        },
        PlotKind::LogView(_) => {},
        PlotKind::XY(_) => {},
    }
}

fn release(plot: &mut PlotKind, ch: ChannelId)
    ensures
        released(*old(plot), *final(plot), ch),
{
    match plot {
        PlotKind::Scalar(p) => {
            p.remove(ch);
        },
        PlotKind::LogicAnalyser(p) => {
            p.remove(ch);
        },
        PlotKind::LogView(_) => {},
        PlotKind::XY(_) => {},
    }
}

/// The radix that a channel keeps when it leaves a plot: only lanes have one.
pub open spec fn kept_radix(
    plots: Map<u64, PlotKind>,
    from: PlotId,
    radix: Option<LabelRadix>,
) -> Option<LabelRadix> {
    if plots.contains_key(from.0) && plots[from.0] is LogicAnalyser {
        radix
    } else {
        None
    }
}

/// Whether a channel can be moved from the plot `from` to the plot `id`: an XY plot and a
/// log view take no channel off another plot.
pub open spec fn is_target(
    plots: Map<u64, PlotKind>,
    from: PlotId,
    info: ChannelInfo,
    id: u64,
) -> bool {
    plots.contains_key(id) && id != from.0 && holds_channels(plots[id]) && plots[id].takes(info)
}

/// The plots `after` are those of `before` after a channel was moved.
pub open spec fn moved(
    before: Map<u64, PlotKind>,
    after: Map<u64, PlotKind>,
    from: PlotId,
    to: PlotId,
    ch: ChannelId,
    info: ChannelInfo,
    radix: Option<LabelRadix>,
) -> bool {
    &&& after.dom() == before.dom()
    &&& received(before[to.0], after[to.0], ch, info, kept_radix(before, from, radix))
    &&& before.contains_key(from.0) ==> released(before[from.0], after[from.0], ch)
    &&& forall|id: u64|
        id != from.0 && id != to.0 && before.contains_key(id) ==> #[trigger] after[id]
            == before[id]
}

/// Whether channels can be moved onto a plot.
fn can_hold_channels(plot: &PlotKind) -> (r: bool)
    ensures
        r == holds_channels(*plot),
{
    match plot {
        PlotKind::Scalar(_) => true,
        PlotKind::LogicAnalyser(_) => true,
        PlotKind::LogView(_) => false,
        PlotKind::XY(_) => false,
    }
}

/// Moves a channel from one plot to another that takes it. A given radix is kept
/// where both are logic analysers. Says whether the channel was moved.
pub fn try_move_channel(
    plots: &mut PlotRegistry,
    from: PlotId,
    to: PlotId,
    ch: ChannelId,
    info: &ChannelInfo,
    radix: Option<LabelRadix>,
) -> (r: bool)
    ensures
        old(plots).inv() ==> final(plots).inv(),
        final(plots).next() == old(plots).next(),
        r == is_target(old(plots)@, from, *info, to.0),
        !r ==> final(plots)@ == old(plots)@,
        r ==> moved(old(plots)@, final(plots)@, from, to, ch, *info, radix),
{
    if from == to {
        return false;
    }
    let accepted = match plots.get(to) {
        Some(plot) => can_hold_channels(plot) && plot.accepts(info),
        None => false,
    };
    if !accepted {
        return false;
    }
    let kept = match plots.get(from) {
        Some(PlotKind::LogicAnalyser(_)) => radix,
        _ => None,
    };
    if let Some(plot) = plots.get_mut(to) {
        receive(plot, ch, info, kept);
    }
    if let Some(plot) = plots.get_mut(from) {
        release(plot, ch);
    }
    assert(plots@.dom() =~= old(plots)@.dom());
    true
}

/// Up to how many distinct values a state lane shows labels.
pub const STATE_LABEL_TEXT_LIMIT: usize = 16;

/// How a state lane is drawn.
#[derive(Clone, Copy, Debug, PartialEq, Eq, Structural)]
pub enum StateLaneMode {
    Labels,
    Heatmap,
}

/// Labels up to the limit of distinct values, a heatmap above it.
pub fn state_lane_mode(distinct: usize) -> (r: StateLaneMode)
    ensures
        r == (if distinct > STATE_LABEL_TEXT_LIMIT {
            StateLaneMode::Heatmap
        } else {
            StateLaneMode::Labels
        }),
{
    if distinct > STATE_LABEL_TEXT_LIMIT {
        StateLaneMode::Heatmap
    } else {
        StateLaneMode::Labels
    }
}

/// Collects the two channels of an XY plot from two drops.
#[derive(Clone, Copy, Debug, PartialEq, Eq, Structural)]
pub struct XYDragAccumulator {
    pub first: Option<ChannelId>,
}

impl Default for XYDragAccumulator {
    fn default() -> (r: Self)
        ensures
            r.first is None,
    {
        XYDragAccumulator { first: None }
    }
}

impl XYDragAccumulator {
    /// Takes a dropped channel. Two distinct ones make a pair, and the next drop
    /// starts over; the same one again changes nothing.
    pub fn feed(&mut self, ch: ChannelId) -> (r: Option<(ChannelId, ChannelId)>)
        ensures
            match old(self).first {
                None => r is None && final(self).first == Some(ch),
                Some(prev) => if prev == ch {
                    r is None && final(self).first == Some(prev)
                } else {
                    r == Some((prev, ch)) && final(self).first is None
                },
            },
    {
        match self.first {
            None => {
                self.first = Some(ch);
                None
            },
            Some(prev) => if prev == ch {
                None
            } else {
                self.first = None;
                Some((prev, ch))
            },
        }
    }

    /// Forgets the first channel.
    pub fn cancel(&mut self)
        ensures
            final(self).first is None,
    {
        self.first = None;
    }
}

/// The lanes after the known ones of the first `n` channels were added.
pub open spec fn lanes_with_all(
    lanes: Seq<LogicLane>,
    ids: Seq<ChannelId>,
    by_id: Map<ChannelId, ChannelInfo>,
    n: nat,
) -> Seq<LogicLane>
    decreases n,
{
    if n == 0 {
        lanes
    } else {
        let before = lanes_with_all(lanes, ids, by_id, (n - 1) as nat);
        if by_id.contains_key(ids[n - 1]) {
            lanes_with(before, by_id[ids[n - 1]])
        } else {
            before
        }
    }
}

/// The lanes after a channel was dropped: one for each bit of a bitfield word, one
/// for any other channel.
pub open spec fn lanes_with_drop(
    lanes: Seq<LogicLane>,
    ch: ChannelId,
    info: ChannelInfo,
    words: Map<ChannelId, Seq<ChannelId>>,
    by_id: Map<ChannelId, ChannelInfo>,
) -> Seq<LogicLane> {
    if words.contains_key(ch) {
        lanes_with_all(lanes, words[ch], by_id, words[ch].len())
    } else {
        lanes_with(lanes, info)
    }
}

/// Adds a channel to a logic analyser. A bitfield word becomes one lane per bit.
pub fn add_logic_lane(
    panel: &mut LogicAnalyserPanel,
    ch: ChannelId,
    info: &ChannelInfo,
    store: &MockStore,
    by_id: &HashMap<ChannelId, ChannelInfo>,
)
    ensures
        final(panel).title == old(panel).title,
        final(panel).lanes@ == lanes_with_drop(
            old(panel).lanes@,
            ch,
            *info,
            store@.words,
            by_id@,
        ),
{
    match store.bits_for_word(ch) {
        Some(bits) => {
            let mut i: usize = 0;
            while i < bits.len()
                invariant
                    i <= bits@.len(),
                    panel.title == old(panel).title,
                    panel.lanes@ == lanes_with_all(old(panel).lanes@, bits@, by_id@, i as nat),
                decreases bits@.len() - i,
            {
                if let Some(bi) = by_id.get(&bits[i]) {
                    panel.add(bi);
                }
                i = i + 1;
            }
        },
        None => {
            panel.add(info);
        },
    }
}

/// Whether the plot is a log view with all columns of a group visible.
pub open spec fn is_group_log(
    plot: PlotKind,
    title: Seq<char>,
    group: Seq<char>,
    channels: Seq<ChannelId>,
) -> bool {
    match plot {
        PlotKind::LogView(p) => {
            &&& p.title@ == title
            &&& p.group@ == group
            &&& p.columns@ == channels
            &&& p.visible@ == Seq::new(channels.len(), |i: int| i as usize)
            &&& p.filters@.dom().is_empty()
            &&& p.color_by is None
            &&& p.priority_by is None
            &&& p.max_rows == crate::panels::DEFAULT_MAX_ROWS
        },
        _ => false,
    }
}

/// A log view with all columns of a group visible.
pub fn log_view_from_group(title: &str, group: &str, channels: Vec<ChannelId>) -> (r: PlotKind)
    ensures
        is_group_log(r, title@, group@, channels@),
{
    let mut panel = LogViewPanel::new(title, group);
    panel.columns = channels;
    panel.visible = all_indices(panel.columns.len());
    PlotKind::LogView(panel)
}

fn all_indices(n: usize) -> (r: Vec<usize>)
    ensures
        r@ == Seq::new(n as nat, |i: int| i as usize),
{
    let mut out: Vec<usize> = Vec::new();
    let mut i: usize = 0;
    while i < n
        invariant
            i <= n,
            out@ == Seq::new(i as nat, |k: int| k as usize),
        decreases n - i,
    {
        out.push(i);
        i = i + 1;
        assert(out@ =~= Seq::new(i as nat, |k: int| k as usize));
    }
    assert(out@ =~= Seq::new(n as nat, |i: int| i as usize));
    out
}

/// Whether the channel `k` belongs to the group.
pub open spec fn in_group(
    by_id: Map<ChannelId, ChannelInfo>,
    group: Seq<char>,
    k: ChannelId,
) -> bool {
    by_id.contains_key(k) && group_of(by_id[k].path@) == group
}

/// The channels of a group, in no particular order.
pub fn channels_in_group(by_id: &HashMap<ChannelId, ChannelInfo>, group: &str) -> (r: Vec<
    ChannelId,
>)
    ensures
        r@.no_duplicates(),
        forall|k: ChannelId| #[trigger] r@.contains(k) <==> in_group(by_id@, group@, k),
{
    let mut out: Vec<ChannelId> = Vec::new();
    let ghost m = by_id@;
    for kv in it: by_id.iter()
        invariant
            m == by_id@,
            it.seq().no_duplicates(),
            forall|j: int|
                0 <= j < it.seq().len() ==> m.contains_key(*(#[trigger] it.seq()[j]).0)
                    && m[*it.seq()[j].0] == *it.seq()[j].1,
            out@.no_duplicates(),
            forall|x: int|
                0 <= x < out@.len() ==> in_group(m, group@, #[trigger] out@[x]) && exists|j: int|
                    0 <= j < it.index() && *(#[trigger] it.seq()[j]).0 == out@[x],
            forall|k: ChannelId| #[trigger]
                in_group(m, group@, k) ==> out@.contains(k) || exists|i: int|
                    it.index() <= i < it.seq().len() && it.seq()[i] == (&k, &m[k]),
    {
        let ghost before = out@;
        let mine = same_text(channel_group(kv.1.path.as_str()), group);
        if mine {
            proof {
                assert forall|x: int| 0 <= x < before.len() implies before[x] != *kv.0 by {
                    let j = choose|j: int|
                        0 <= j < it.index() && *(#[trigger] it.seq()[j]).0 == before[x];
                    if before[x] == *kv.0 {
                        assert(it.seq()[j] == it.seq()[it.index() as int]);
                    }
                }
            }
            out.push(*kv.0);
        }
        proof {
            assert forall|x: int| 0 <= x < out@.len() implies in_group(
                m,
                group@,
                #[trigger] out@[x],
            ) && exists|j: int|
                0 <= j < it.index() + 1 && *(#[trigger] it.seq()[j]).0 == out@[x] by {
                if x < before.len() {
                    assert(before[x] == out@[x]);
                } else {
                    assert(*it.seq()[it.index() as int].0 == out@[x]);
                }
            }
            assert forall|k: ChannelId| #[trigger] in_group(m, group@, k) implies out@.contains(k)
                || exists|i: int|
                it.index() + 1 <= i < it.seq().len() && it.seq()[i] == (&k, &m[k]) by {
                if before.contains(k) {
                    let x = choose|x: int| 0 <= x < before.len() && before[x] == k;
                    assert(out@[x] == k);
                } else {
                    let i = choose|i: int|
                        it.index() <= i < it.seq().len() && it.seq()[i] == (&k, &m[k]);
                    if i == it.index() {
                        assert(out@[before.len() as int] == k);
                    }
                }
            }
        }
    }
    out
}

/// The channels and styles of a scalar panel after the known ones of the first `n`
/// channels were added.
pub open spec fn traces_with_all(
    channels: Seq<ChannelId>,
    styles: Map<ChannelId, SignalStyle>,
    ids: Seq<ChannelId>,
    by_id: Map<ChannelId, ChannelInfo>,
    n: nat,
) -> (Seq<ChannelId>, Map<ChannelId, SignalStyle>)
    decreases n,
{
    if n == 0 {
        (channels, styles)
    } else {
        let (c, s) = traces_with_all(channels, styles, ids, by_id, (n - 1) as nat);
        let id = ids[n - 1];
        if by_id.contains_key(id) && by_id[id].kind is Scalar && !c.contains(by_id[id].id) {
            (c.push(by_id[id].id), joined_styles(c, s, by_id[id].id))
        } else {
            (c, s)
        }
    }
}

/// The lanes after the first `n` channels were dropped.
pub open spec fn lanes_with_drops(
    lanes: Seq<LogicLane>,
    ids: Seq<ChannelId>,
    words: Map<ChannelId, Seq<ChannelId>>,
    by_id: Map<ChannelId, ChannelInfo>,
    n: nat,
) -> Seq<LogicLane>
    decreases n,
{
    if n == 0 {
        lanes
    } else {
        let before = lanes_with_drops(lanes, ids, words, by_id, (n - 1) as nat);
        let id = ids[n - 1];
        if by_id.contains_key(id) {
            lanes_with_drop(before, id, by_id[id], words, by_id)
        } else {
            before
        }
    }
}

/// The plot `b` is `a` after a channel that it takes was dropped on it.
pub open spec fn with_channel_dropped(
    a: PlotKind,
    b: PlotKind,
    ch: ChannelId,
    info: ChannelInfo,
    words: Map<ChannelId, Seq<ChannelId>>,
    by_id: Map<ChannelId, ChannelInfo>,
) -> bool {
    match (a, b) {
        (PlotKind::Scalar(p), PlotKind::Scalar(q)) => scalar_added(p, q, info),
        (PlotKind::LogicAnalyser(p), PlotKind::LogicAnalyser(q)) => {
            &&& q.title == p.title
            &&& q.lanes@ == lanes_with_drop(p.lanes@, ch, info, words, by_id)
        },
        (PlotKind::LogView(_), _) => a == b,
        (PlotKind::XY(_), _) => a == b,
        _ => false,
    }
}

/// The plot `b` is `a` after several channels were dropped on it. Those that it
/// does not take are left out.
pub open spec fn with_channels_dropped(
    a: PlotKind,
    b: PlotKind,
    ids: Seq<ChannelId>,
    words: Map<ChannelId, Seq<ChannelId>>,
    by_id: Map<ChannelId, ChannelInfo>,
) -> bool {
    match (a, b) {
        (PlotKind::Scalar(p), PlotKind::Scalar(q)) => {
            &&& q.title == p.title
            &&& q.selected_signals == p.selected_signals
            &&& (q.channels@, q.styles@) == traces_with_all(
                p.channels@,
                p.styles@,
                ids,
                by_id,
                ids.len(),
            )
        },
        (PlotKind::LogicAnalyser(p), PlotKind::LogicAnalyser(q)) => {
            &&& q.title == p.title
            &&& q.lanes@ == lanes_with_drops(p.lanes@, ids, words, by_id, ids.len())
        },
        (PlotKind::LogView(_), _) => a == b,
        (PlotKind::XY(_), _) => a == b,
        _ => false,
    }
}

fn drop_channel(
    plot: &mut PlotKind,
    ch: ChannelId,
    info: &ChannelInfo,
    store: &MockStore,
    by_id: &HashMap<ChannelId, ChannelInfo>,
)
    ensures
        with_channel_dropped(*old(plot), *final(plot), ch, *info, store@.words, by_id@),
{
    match plot {
        PlotKind::Scalar(p) => {
            p.add(info);
        },
        PlotKind::LogicAnalyser(p) => {
            add_logic_lane(p, ch, info, store, by_id);
        },
        PlotKind::LogView(_) => {},
        PlotKind::XY(_) => {},
    }
}

fn add_traces(panel: &mut ScalarPanel, ids: &Vec<ChannelId>, by_id: &HashMap<ChannelId, ChannelInfo>)
    ensures
        final(panel).title == old(panel).title,
        final(panel).selected_signals == old(panel).selected_signals,
        (final(panel).channels@, final(panel).styles@) == traces_with_all(
            old(panel).channels@,
            old(panel).styles@,
            ids@,
            by_id@,
            ids@.len(),
        ),
{
    let mut i: usize = 0;
    while i < ids.len()
        invariant
            i <= ids@.len(),
            panel.title == old(panel).title,
            panel.selected_signals == old(panel).selected_signals,
            (panel.channels@, panel.styles@) == traces_with_all(
                old(panel).channels@,
                old(panel).styles@,
                ids@,
                by_id@,
                i as nat,
            ),
        decreases ids@.len() - i,
    {
        if let Some(info) = by_id.get(&ids[i]) {
            panel.add(info);
        }
        i = i + 1;
    }
}

fn add_lanes(
    panel: &mut LogicAnalyserPanel,
    ids: &Vec<ChannelId>,
    store: &MockStore,
    by_id: &HashMap<ChannelId, ChannelInfo>,
)
    ensures
        final(panel).title == old(panel).title,
        final(panel).lanes@ == lanes_with_drops(
            old(panel).lanes@,
            ids@,
            store@.words,
            by_id@,
            ids@.len(),
        ),
{
    let mut i: usize = 0;
    while i < ids.len()
        invariant
            i <= ids@.len(),
            panel.title == old(panel).title,
            panel.lanes@ == lanes_with_drops(
                old(panel).lanes@,
                ids@,
                store@.words,
                by_id@,
                i as nat,
            ),
        decreases ids@.len() - i,
    {
        if let Some(info) = by_id.get(&ids[i]) {
            add_logic_lane(panel, ids[i], info, store, by_id);
        }
        i = i + 1;
    }
}

fn drop_channels(
    plot: &mut PlotKind,
    ids: &Vec<ChannelId>,
    store: &MockStore,
    by_id: &HashMap<ChannelId, ChannelInfo>,
)
    ensures
        with_channels_dropped(*old(plot), *final(plot), ids@, store@.words, by_id@),
{
    match plot {
        PlotKind::Scalar(p) => {
            add_traces(p, ids, by_id);
        },
        PlotKind::LogicAnalyser(p) => {
            add_lanes(p, ids, store, by_id);
        },
        PlotKind::LogView(_) => {},
        PlotKind::XY(_) => {},
    }
}

/// Whether the plot is the log view for a text channel: all columns of its group,
/// in no particular order, of which only the channel's own is visible.
pub open spec fn is_text_log(
    plot: PlotKind,
    ch: ChannelId,
    info: ChannelInfo,
    by_id: Map<ChannelId, ChannelInfo>,
) -> bool {
    let group = group_of(info.path@);
    match plot {
        PlotKind::LogView(p) => {
            &&& p.title@ == group
            &&& p.group@ == group
            &&& p.columns@.no_duplicates()
            &&& forall|k: ChannelId| #[trigger]
                p.columns@.contains(k) <==> in_group(by_id, group, k)
            &&& p.visible@.len() == 1
            &&& p.visible@[0] < p.columns@.len()
            &&& p.columns@[p.visible@[0] as int] == ch
            &&& p.filters@.dom().is_empty()
            &&& p.color_by is None
            &&& p.priority_by is None
            &&& p.max_rows == crate::panels::DEFAULT_MAX_ROWS
        },
        _ => false,
    }
}

/// The log view for a text channel that was dropped where text cannot be shown.
pub fn text_log(ch: ChannelId, info: &ChannelInfo, by_id: &HashMap<ChannelId, ChannelInfo>) -> (r:
    PlotKind)
    requires
        by_id@.contains_key(ch),
        by_id@[ch] == *info,
    ensures
        is_text_log(r, ch, *info, by_id@),
{
    let group = channel_group(info.path.as_str());
    let mut panel = LogViewPanel::new(group, group);
    panel.columns = channels_in_group(by_id, group);
    assert(in_group(by_id@, group@, ch));
    assert(panel.columns@.contains(ch));
    let mut i: usize = 0;
    while i < panel.columns.len() && panel.columns[i] != ch
        invariant
            i <= panel.columns@.len(),
            panel.columns@.contains(ch),
            forall|j: int| 0 <= j < i ==> panel.columns@[j] != ch,
        decreases panel.columns@.len() - i,
    {
        i = i + 1;
    }
    let mut visible: Vec<usize> = Vec::new();
    visible.push(i);
    panel.visible = visible;
    PlotKind::LogView(panel)
}

/// The short name of a channel, or a question mark for an unknown one.
pub open spec fn short_name_of(by_id: Map<ChannelId, ChannelInfo>, ch: ChannelId) -> Seq<char> {
    if by_id.contains_key(ch) {
        leaf_of(by_id[ch].path@)
    } else {
        "?"@
    }
}

/// The title of an XY plot.
pub open spec fn xy_title(
    by_id: Map<ChannelId, ChannelInfo>,
    x: ChannelId,
    y: ChannelId,
) -> Seq<char> {
    "XY "@ + short_name_of(by_id, x) + " vs "@ + short_name_of(by_id, y)
}

fn append_short_name(out: &mut String, by_id: &HashMap<ChannelId, ChannelInfo>, ch: ChannelId)
    ensures
        final(out)@ == old(out)@ + short_name_of(by_id@, ch),
{
    match by_id.get(&ch) {
        Some(info) => {
            append_text(out, short_name(info.path.as_str()));
        },
        None => {
            append_text(out, "?");
        },
    }
}

/// The XY plot of two channels.
pub fn xy_plot(x: ChannelId, y: ChannelId, by_id: &HashMap<ChannelId, ChannelInfo>) -> (r: PlotKind)
    ensures
        match r {
            PlotKind::XY(p) => p.title@ == xy_title(by_id@, x, y) && p.x == x && p.y == y
                && p.trail_ns is None,
            _ => false,
        },
{
    let mut title = String::new();
    append_text(&mut title, "XY ");
    append_short_name(&mut title, by_id, x);
    append_text(&mut title, " vs ");
    append_short_name(&mut title, by_id, y);
    assert(title@ =~= xy_title(by_id@, x, y));
    PlotKind::XY(XYPlot { title, x, y, trail_ns: None })
}

/// The plots with one of them replaced.
pub open spec fn only_changed(
    before: Map<u64, PlotKind>,
    after: Map<u64, PlotKind>,
    id: u64,
) -> bool {
    before.contains_key(id) && after == before.insert(id, after[id])
}

/// What a drop on a plot changes, and which new plot it makes.
pub open spec fn drop_effect(
    payload: DragPayload,
    pid: u64,
    before: Map<u64, PlotKind>,
    after: Map<u64, PlotKind>,
    xy_before: Option<ChannelId>,
    xy_after: Option<ChannelId>,
    words: Map<ChannelId, Seq<ChannelId>>,
    by_id: Map<ChannelId, ChannelInfo>,
    made: Option<PlotKind>,
) -> bool {
    match payload {
        DragPayload::Channel(ch) => {
            &&& xy_after == xy_before
            &&& if by_id.contains_key(ch) && before.contains_key(pid) {
                if before[pid].takes(by_id[ch]) {
                    &&& made is None
                    &&& only_changed(before, after, pid)
                    &&& with_channel_dropped(before[pid], after[pid], ch, by_id[ch], words, by_id)
                } else if by_id[ch].kind is Text {
                    &&& after == before
                    &&& made matches Some(p) && is_text_log(p, ch, by_id[ch], by_id)
                } else {
                    after == before && made is None
                }
            } else {
                after == before && made is None
            }
        },
        DragPayload::Channels(chs) => {
            &&& xy_after == xy_before
            &&& made is None
            &&& if before.contains_key(pid) {
                &&& only_changed(before, after, pid)
                &&& with_channels_dropped(before[pid], after[pid], chs@, words, by_id)
            } else {
                after == before
            }
        },
        DragPayload::Group { name, channels } => {
            &&& xy_after == xy_before
            &&& after == before
            &&& made matches Some(p) && is_group_log(p, name@, name@, channels@)
        },
        DragPayload::XYSeed(ch) => {
            &&& after == before
            &&& match xy_before {
                Some(x) => if x == ch {
                    xy_after == Some(x) && made is None
                } else {
                    &&& xy_after is None
                    &&& made matches Some(PlotKind::XY(p)) && p.x == x && p.y == ch
                        && p.trail_ns is None && p.title@ == xy_title(by_id, x, ch)
                },
                None => xy_after == Some(ch) && made is None,
            }
        },
    }
}

/// Drops a payload on a plot. Gives the plot that is to be opened, if the drop
/// makes one.
pub fn drop_on_plot(
    payload: &DragPayload,
    pid: PlotId,
    plots: &mut PlotRegistry,
    xy: &mut XYDragAccumulator,
    store: &MockStore,
    by_id: &HashMap<ChannelId, ChannelInfo>,
) -> (made: Option<PlotKind>)
    ensures
        old(plots).inv() ==> final(plots).inv(),
        final(plots).next() == old(plots).next(),
        drop_effect(
            *payload,
            pid.0,
            old(plots)@,
            final(plots)@,
            old(xy).first,
            final(xy).first,
            store@.words,
            by_id@,
            made,
        ),
{
    let made = match payload {
        DragPayload::Channel(ch) => {
            match by_id.get(ch) {
                None => None,
                Some(info) => match plots.get_mut(pid) {
                    None => None,
                    Some(plot) => if plot.accepts(info) {
                        drop_channel(plot, *ch, info, store, by_id);
                        None
                    } else {
                        match info.kind {
                            ChannelKind::Text => Some(text_log(*ch, info, by_id)),
                            _ => None,
                        }
                    },
                },
            }
        },
        DragPayload::Channels(chs) => {
            if let Some(plot) = plots.get_mut(pid) {
                drop_channels(plot, chs, store, by_id);
            }
            None
        },
        DragPayload::Group { name, channels } => Some(
            log_view_from_group(name.as_str(), name.as_str(), channels.clone()),
        ),
        DragPayload::XYSeed(ch) => match xy.feed(*ch) {
            Some((x, y)) => Some(xy_plot(x, y, by_id)),
            None => None,
        },
    };
    proof {
        let before = old(plots)@;
        if before.contains_key(pid.0) {
            assert(plots@ =~= before.insert(pid.0, plots@[pid.0]));
            if plots@[pid.0] == before[pid.0] {
                assert(plots@ =~= before);
            }
        }
    }
    made
}

/// Characters of a plot's title that the menu of move targets shows.
pub const MOVE_MENU_TITLE_CHARS: usize = 24;

/// Whether the list holds targets in order of their numbers, each with its title cut
/// to the room there is.
pub open spec fn lists_targets(
    plots: Map<u64, PlotKind>,
    from: PlotId,
    info: ChannelInfo,
    r: Seq<(PlotId, String)>,
) -> bool {
    &&& forall|i: int, j: int| 0 <= i < j < r.len() ==> (#[trigger] r[i]).0.0 < (#[trigger] r[j]).0.0
    &&& forall|i: int|
        0 <= i < r.len() ==> is_target(plots, from, info, (#[trigger] r[i]).0.0) && r[i].1@
            == fitted_label(plots[r[i].0.0].title_of()@, MOVE_MENU_TITLE_CHARS as nat)
}

/// Whether the list holds the plot.
pub open spec fn lists_plot(r: Seq<(PlotId, String)>, id: u64) -> bool {
    exists|i: int| 0 <= i < r.len() && (#[trigger] r[i]).0.0 == id
}

/// Puts a plot into a list that is in order of numbers and does not hold it.
fn insert_target(r: &mut Vec<(PlotId, String)>, id: PlotId, title: String)
    requires
        forall|i: int, j: int|
            0 <= i < j < old(r)@.len() ==> (#[trigger] old(r)@[i]).0.0 < (#[trigger] old(r)@[j]).0.0,
        !lists_plot(old(r)@, id.0),
    ensures
        forall|i: int, j: int|
            0 <= i < j < final(r)@.len() ==> (#[trigger] final(r)@[i]).0.0 < (#[trigger] final(r)@[j]).0.0,
        forall|i: int|
            0 <= i < final(r)@.len() ==> (#[trigger] final(r)@[i]) == (id, title) || old(r)@.contains(final(r)@[i]),
        forall|k: u64| #[trigger]
            lists_plot(final(r)@, k) <==> lists_plot(old(r)@, k) || k == id.0,
{
    let ghost before = r@;
    let mut at: usize = r.len();
    while at > 0 && r[at - 1].0.0 > id.0
        invariant
            at <= r@.len(),
            r@ == before,
            forall|k: int| at <= k < before.len() ==> (#[trigger] before[k]).0.0 > id.0,
        decreases at,
    {
        at = at - 1;
    }
    assert(at > 0 ==> before[at - 1].0.0 < id.0);
    r.insert(at, (id, title));
    proof {
        let p = (id, title);
        let after = r@;
        assert(after == before.insert(at as int, p));
        assert forall|i: int| 0 <= i < after.len() implies (#[trigger] after[i]) == p
            || before.contains(after[i]) by {
            if i < at {
                assert(after[i] == before[i]);
            } else if i > at {
                assert(after[i] == before[i - 1]);
            }
        }
        assert forall|k: u64| #[trigger] lists_plot(after, k) <==> lists_plot(before, k) || k
            == id.0 by {
            if lists_plot(before, k) {
                let x = choose|x: int| 0 <= x < before.len() && (#[trigger] before[x]).0.0 == k;
                if x < at {
                    assert(after[x].0.0 == k);
                } else {
                    assert(after[x + 1].0.0 == k);
                }
            }
            assert(after[at as int].0.0 == id.0);
            if lists_plot(after, k) && k != id.0 {
                let x = choose|x: int| 0 <= x < after.len() && (#[trigger] after[x]).0.0 == k;
                if x < at {
                    assert(before[x].0.0 == k);
                } else {
                    assert(before[x - 1].0.0 == k);
                }
            }
        }
    }
}

/// The plots that a channel can be moved to, in order of their numbers, with titles
/// for a menu.
pub fn move_targets(plots: &PlotRegistry, self_id: PlotId, info: &ChannelInfo) -> (r: Vec<
    (PlotId, String),
>)
    ensures
        lists_targets(plots@, self_id, *info, r@),
        forall|id: u64| is_target(plots@, self_id, *info, id) <==> #[trigger] lists_plot(r@, id),
{
    let all = plots.iter();
    let mut out: Vec<(PlotId, String)> = Vec::new();
    let mut i: usize = 0;
    while i < all.len()
        invariant
            i <= all@.len(),
            all@.no_duplicates(),
            forall|id: u64, p: &PlotKind|
                all@.contains((PlotId(id), p)) <==> plots@.contains_key(id) && plots@[id] == *p,
            lists_targets(plots@, self_id, *info, out@),
            forall|id: u64| #[trigger]
                lists_plot(out@, id) <==> is_target(plots@, self_id, *info, id) && all@.take(
                    i as int,
                ).contains((PlotId(id), &plots@[id])),
        decreases all@.len() - i,
    {
        let (id, plot) = all[i];
        let ghost done = all@.take(i as int);
        proof {
            assert(all@.contains((PlotId(id.0), plot)));
            assert(all@[i as int] == (id, &plots@[id.0]));
            assert(all@.take(i + 1) =~= done.push(all@[i as int]));
            assert forall|x: (PlotId, &PlotKind)|
                #[trigger] all@.take(i + 1).contains(x) <==> done.contains(x) || x
                    == all@[i as int] by {
                let next = all@.take(i + 1);
                if done.contains(x) {
                    let k = choose|k: int| 0 <= k < done.len() && done[k] == x;
                    assert(next[k] == x);
                }
                assert(next[i as int] == all@[i as int]);
                if next.contains(x) && x != all@[i as int] {
                    let k = choose|k: int| 0 <= k < next.len() && next[k] == x;
                    assert(done[k] == x);
                }
            }
            if done.contains(all@[i as int]) {
                let k = choose|k: int| 0 <= k < done.len() && done[k] == all@[i as int];
                assert(all@[k] == all@[i as int]);
            }
        }
        if id.0 != self_id.0 && can_hold_channels(plot) && plot.accepts(info) {
            let ghost before = out@;
            insert_target(&mut out, id, fit_label(plot.title(), MOVE_MENU_TITLE_CHARS));
            assert forall|k: int| 0 <= k < out@.len() implies is_target(
                plots@,
                self_id,
                *info,
                (#[trigger] out@[k]).0.0,
            ) && out@[k].1@ == fitted_label(
                plots@[out@[k].0.0].title_of()@,
                MOVE_MENU_TITLE_CHARS as nat,
            ) by {
                if before.contains(out@[k]) {
                    let j = choose|j: int| 0 <= j < before.len() && before[j] == out@[k];
                    assert(before[j].0.0 == out@[k].0.0);
                }
            }
        }
        i = i + 1;
    }
    proof {
        assert(all@.take(all@.len() as int) =~= all@);
        assert forall|id: u64| is_target(plots@, self_id, *info, id) <==> #[trigger] lists_plot(
            out@,
            id,
        ) by {
            if is_target(plots@, self_id, *info, id) {
                assert(all@.contains((PlotId(id), &plots@[id])));
            }
        }
    }
    out
}

/// Whether a plot shows a channel as one of its own.
pub open spec fn shows(plot: PlotKind, ch: ChannelId) -> bool {
    match plot {
        PlotKind::Scalar(p) => p.channels@.contains(ch),
        PlotKind::LogicAnalyser(p) => has_lane(p.lanes@, ch),
        PlotKind::LogView(_) => false,
        PlotKind::XY(_) => false,
    }
}

proof fn lemma_left_out(s: Seq<ChannelId>, x: ChannelId)
    ensures
        !without_channel(s, x).contains(x),
    decreases s.len(),
{
    reveal(Seq::filter);
    if s.len() > 0 {
        lemma_left_out(s.drop_last(), x);
        let head = without_channel(s.drop_last(), x);
        if without_channel(s, x).contains(x) {
            let i = choose|i: int|
                0 <= i < without_channel(s, x).len() && without_channel(s, x)[i] == x;
            assert(without_channel(s, x) == (if s.last() != x {
                head.push(s.last())
            } else {
                head
            }));
            if i < head.len() {
                assert(head[i] == x);
            }
        }
    }
}

/// A moved channel is on its new plot, and no longer on the old one.
pub proof fn law_moved_channel_changes_plots(
    before: Map<u64, PlotKind>,
    after: Map<u64, PlotKind>,
    from: PlotId,
    to: PlotId,
    info: ChannelInfo,
    radix: Option<LabelRadix>,
)
    requires
        is_target(before, from, info, to.0),
        moved(before, after, from, to, info.id, info, radix),
    ensures
        shows(after[to.0], info.id),
        before.contains_key(from.0) ==> !shows(after[from.0], info.id),
{
    let radix = kept_radix(before, from, radix);
    let ch = info.id;
    match (before[to.0], after[to.0]) {
        (PlotKind::Scalar(p), PlotKind::Scalar(q)) => {
            if p.takes(info) {
                assert(q.channels@[q.channels@.len() - 1] == ch);
            }
        },
        (PlotKind::LogicAnalyser(p), PlotKind::LogicAnalyser(q)) => {
            let lanes = lanes_with(p.lanes@, info);
            if !has_lane(p.lanes@, ch) {
                assert(lanes[lanes.len() - 1].ch == ch);
            }
            assert(has_lane(lanes, ch));
            if let Some(x) = radix {
                let i = choose|i: int| #[trigger]
                    is_lane_at(lanes, ch, i) && q.lanes@ == lanes.update(
                        i,
                        LogicLane { radix: x, ..lanes[i] },
                    );
                assert(q.lanes@[i].ch == ch);
            }
        },
        _ => {},
    }
    if before.contains_key(from.0) {
        match (before[from.0], after[from.0]) {
            (PlotKind::Scalar(p), PlotKind::Scalar(q)) => {
                lemma_left_out(p.channels@, ch);
            },
            (PlotKind::LogicAnalyser(p), PlotKind::LogicAnalyser(q)) => {
                assert forall|i: int| 0 <= i < q.lanes@.len() implies (#[trigger] q.lanes@[i]).ch
                    != ch by {
                    p.lanes@.lemma_filter_pred(|l: LogicLane| l.ch != ch, i);
                }
            },
            _ => {},
        }
    }
}

/// The tint tells what a drop of one channel does: a plot that is tinted as accepting
/// gets the channel and no plot is made; one that is tinted as rejecting stays as it
/// is, and so do all others.
pub proof fn law_tint_tells_the_drop(
    ch: ChannelId,
    pid: u64,
    before: Map<u64, PlotKind>,
    after: Map<u64, PlotKind>,
    xy_before: Option<ChannelId>,
    xy_after: Option<ChannelId>,
    words: Map<ChannelId, Seq<ChannelId>>,
    by_id: Map<ChannelId, ChannelInfo>,
    made: Option<PlotKind>,
)
    requires
        before.contains_key(pid),
        drop_effect(
            DragPayload::Channel(ch),
            pid,
            before,
            after,
            xy_before,
            xy_after,
            words,
            by_id,
            made,
        ),
    ensures
        match tint(DragPayload::Channel(ch), before[pid], by_id) {
            Some(DropTint::Accept) => {
                &&& made is None
                &&& only_changed(before, after, pid)
                &&& with_channel_dropped(before[pid], after[pid], ch, by_id[ch], words, by_id)
            },
            Some(DropTint::Reject) => after == before,
            None => after == before && made is None,
        },
{
}

} // verus!
