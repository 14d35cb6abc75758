//! Plot panes: what each kind of plot holds, which channels it takes, and the
//! registry that owns them.

use crate::store::{ChannelId, ChannelInfo, ChannelKind};
use std::collections::hash_map::Entry;
use std::collections::{BTreeSet, HashMap};
use vstd::prelude::*;

verus! {

broadcast use vstd::std_specs::hash::group_hash_axioms;

/// Stable identifier for a plot pane. The dock stores these, not the plots, so
/// plots survive being moved between docks and tabs.
#[derive(Clone, Copy, Debug, PartialEq, Eq, Hash, PartialOrd, Ord, Structural)]
pub struct PlotId(pub u64);

/// Radix of the values shown in a logic-analyser lane.
#[derive(Clone, Copy, Debug, PartialEq, Eq, Structural)]
pub enum LabelRadix {
    Dec,
    Hex,
    Bin,
}

impl Default for LabelRadix {
    fn default() -> (r: Self)
        ensures
            r == LabelRadix::Hex,
    {
        LabelRadix::Hex
    }
}

/// How a lane of a logic analyser is drawn.
#[derive(Clone, Copy, Debug, PartialEq, Eq, Structural)]
pub enum LaneMode {
    /// Coloured blocks with the channel's labels. For state channels.
    Named,
    /// Heatmap blocks with the value in the lane's radix.
    Numeric,
}

impl Default for LaneMode {
    fn default() -> (r: Self)
        ensures
            r == LaneMode::Named,
    {
        LaneMode::Named
    }
}

impl LaneMode {
    /// Whether the mode needs a channel with labels.
    pub fn requires_labels(self) -> (r: bool)
        ensures
            r == (self == LaneMode::Named),
    {
        match self {
            LaneMode::Named => true,
            LaneMode::Numeric => false,
        }
    }
}

/// Whether the channel carries labels, so that it can be drawn by name.
pub fn channel_has_labels(ch: &ChannelInfo) -> (r: bool)
    ensures
        r == (ch.kind is State),
{
    match ch.kind {
        ChannelKind::State { .. } => true,
        _ => false,
    }
}

#[derive(Clone, Copy, Debug, PartialEq, Eq, Structural)]
pub struct LogicLane {
    pub ch: ChannelId,
    pub mode: LaneMode,
    pub radix: LabelRadix,
}

/// How a scalar signal is drawn.
#[derive(Clone, Copy, Debug, PartialEq, Eq, Structural)]
pub enum LineStyle {
    /// Solid line.
    Line,
    /// Staircase.
    Step,
    /// Dots only.
    Points,
    /// Solid line and dots.
    PointsLine,
}

impl Default for LineStyle {
    fn default() -> (r: Self)
        ensures
            r == LineStyle::Line,
    {
        LineStyle::Line
    }
}

/// Coarse line-width preset.
#[derive(Clone, Copy, Debug, PartialEq, Eq, Structural)]
pub enum LineWidth {
    Thin,
    Medium,
    Thick,
}

impl Default for LineWidth {
    fn default() -> (r: Self)
        ensures
            r == LineWidth::Medium,
    {
        LineWidth::Medium
    }
}

/// Per-signal render style.
#[derive(Clone, Copy, Debug, PartialEq, Eq, Structural)]
pub struct SignalStyle {
    pub line: LineStyle,
    pub width: LineWidth,
    pub envelope: bool,
}

/// The style of a signal without one of its own: a staircase without envelope.
pub open spec fn default_style() -> SignalStyle {
    SignalStyle { line: LineStyle::Step, width: LineWidth::Medium, envelope: false }
}

impl Default for SignalStyle {
    fn default() -> (r: Self)
        ensures
            r == default_style(),
    {
        SignalStyle { line: LineStyle::Step, width: LineWidth::Medium, envelope: false }
    }
}

/// Continuous lines over one y-axis.
#[derive(Clone, Debug)]
pub struct ScalarPanel {
    pub title: String,
    pub channels: Vec<ChannelId>,
    /// Styles of the channels that have one of their own.
    pub styles: HashMap<ChannelId, SignalStyle>,
    /// Signals that the user selected.
    pub selected_signals: BTreeSet<ChannelId>,
}

/// Stacked lanes of integer values.
#[derive(Clone, Debug)]
pub struct LogicAnalyserPanel {
    pub title: String,
    pub lanes: Vec<LogicLane>,
}

/// Parametric plot of one scalar over another.
#[derive(Clone, Debug)]
pub struct XYPlot {
    pub title: String,
    pub x: ChannelId,
    pub y: ChannelId,
    /// Only the last so many nanoseconds; all that is visible where absent.
    pub trail_ns: Option<u64>,
}

/// What a column of a log view must hold for a row to be shown.
#[derive(Clone, Debug)]
pub enum ColumnFilter {
    /// Text that contains the needle.
    Text { needle: String, case_sensitive: bool },
    /// A number within the bounds, which are doubles.
    Range { min: Option<u64>, max: Option<u64> },
    /// One of a set of enum values.
    EnumSet { allowed: BTreeSet<u32> },
}

/// Rows of log entries.
#[derive(Clone, Debug)]
pub struct LogViewPanel {
    pub title: String,
    /// The schema group that the columns come from.
    pub group: String,
    pub columns: Vec<ChannelId>,
    /// Indices of the columns that are shown, in display order.
    pub visible: Vec<usize>,
    pub filters: HashMap<ChannelId, ColumnFilter>,
    pub color_by: Option<ChannelId>,
    pub priority_by: Option<ChannelId>,
    pub max_rows: usize,
}

/// Rows that a new log view shows at most.
pub const DEFAULT_MAX_ROWS: usize = 1000;

impl LogViewPanel {
    pub fn new(title: &str, group: &str) -> (r: Self)
        ensures
            r.title@ == title@,
            r.group@ == group@,
            r.columns@ == Seq::<ChannelId>::empty(),
            r.visible@ == Seq::<usize>::empty(),
            r.filters@ == Map::<ChannelId, ColumnFilter>::empty(),
            r.color_by is None,
            r.priority_by is None,
            r.max_rows == DEFAULT_MAX_ROWS,
    {
        LogViewPanel {
            title: title.to_owned(),
            group: group.to_owned(),
            columns: Vec::new(),
            visible: Vec::new(),
            filters: HashMap::new(),
            color_by: None,
            priority_by: None,
            max_rows: DEFAULT_MAX_ROWS,
        }
    }
}

/// The channels but for `x`.
pub open spec fn without_channel(s: Seq<ChannelId>, x: ChannelId) -> Seq<ChannelId> {
    s.filter(|y: ChannelId| y != x)
}

/// The lanes but for those of the channel.
pub open spec fn without_lanes(lanes: Seq<LogicLane>, id: ChannelId) -> Seq<LogicLane> {
    lanes.filter(|l: LogicLane| l.ch != id)
}

/// A copy of `s` without `x`.
fn without(s: &Vec<ChannelId>, x: ChannelId) -> (r: Vec<ChannelId>)
    ensures
        r@ == without_channel(s@, x),
{
    let mut out: Vec<ChannelId> = Vec::new();
    let mut i: usize = 0;
    proof {
        reveal(Seq::filter);
    }
    while i < s.len()
        invariant
            i <= s@.len(),
            out@ == without_channel(s@.take(i as int), x),
        decreases s@.len() - i,
    {
        proof {
            reveal(Seq::filter);
            assert(s@.take(i + 1).drop_last() =~= s@.take(i as int));
        }
        if s[i] != x {
            out.push(s[i]);
        }
        i = i + 1;
    }
    assert(s@.take(s@.len() as int) =~= s@);
    out
}

/// Whether `s` holds `x`.
pub fn contains_channel(s: &Vec<ChannelId>, x: ChannelId) -> (r: bool)
    ensures
        r == s@.contains(x),
{
    let mut i: usize = 0;
    while i < s.len()
        invariant
            i <= s@.len(),
            forall|j: int| 0 <= j < i ==> s@[j] != x,
        decreases s@.len() - i,
    {
        if s[i] == x {
            return true;
        }
        i = i + 1;
    }
    false
}

/// The styles after a channel joined: it takes over the style of the first one.
pub open spec fn joined_styles(
    channels: Seq<ChannelId>,
    styles: Map<ChannelId, SignalStyle>,
    ch: ChannelId,
) -> Map<ChannelId, SignalStyle> {
    if channels.len() > 0 && styles.contains_key(channels[0]) {
        styles.insert(ch, styles[channels[0]])
    } else {
        styles
    }
}

impl ScalarPanel {
    pub fn new(title: &str) -> (r: Self)
        ensures
            r.title@ == title@,
            r.channels@ == Seq::<ChannelId>::empty(),
            r.styles@ == Map::<ChannelId, SignalStyle>::empty(),
            r.selected_signals@ == Set::<ChannelId>::empty(),
    {
        ScalarPanel {
            title: title.to_owned(),
            channels: Vec::new(),
            styles: HashMap::new(),
            selected_signals: BTreeSet::new(),
        }
    }

    /// Whether the panel takes the channel as a new one.
    pub open spec fn takes(&self, ch: ChannelInfo) -> bool {
        ch.kind is Scalar && !self.channels@.contains(ch.id)
    }

    /// Adds a scalar channel that is not there yet. Says whether it did. The new
    /// channel takes over the style of the first one.
    pub fn add(&mut self, ch: &ChannelInfo) -> (r: bool)
        ensures
            r == old(self).takes(*ch),
            !r ==> *final(self) == *old(self),
            r ==> {
                &&& final(self).channels@ == old(self).channels@.push(ch.id)
                &&& final(self).styles@ == joined_styles(
                    old(self).channels@,
                    old(self).styles@,
                    ch.id,
                )
                &&& final(self).title == old(self).title
                &&& final(self).selected_signals == old(self).selected_signals
            },
    {
        match ch.kind {
            ChannelKind::Scalar => {},
            _ => {
                return false;
            },
        }
        if contains_channel(&self.channels, ch.id) {
            return false;
        }
        if self.channels.len() > 0 {
            let first = self.channels[0];
            let inherited: Option<SignalStyle> = match self.styles.get(&first) {
                Some(style) => Some(*style),
                None => None,
            };
            if let Some(style) = inherited {
                self.styles.insert(ch.id, style);
            }
        }
        self.channels.push(ch.id);
        true
    }

    /// Removes a channel and its style.
    pub fn remove(&mut self, id: ChannelId)
        ensures
            final(self).channels@ == without_channel(old(self).channels@, id),
            final(self).styles@ == old(self).styles@.remove(id),
            final(self).title == old(self).title,
            final(self).selected_signals == old(self).selected_signals,
    {
        self.channels = without(&self.channels, id);
        self.styles.remove(&id);
    }

    /// The style of a channel: its own, or the default.
    pub open spec fn style_of(&self, ch: ChannelId) -> SignalStyle {
        if self.styles@.contains_key(ch) {
            self.styles@[ch]
        } else {
            default_style()
        }
    }

    /// The style of a channel: its own, or the default.
    pub fn style_for(&self, ch: ChannelId) -> (r: SignalStyle)
        ensures
            r == self.style_of(ch),
    {
        match self.styles.get(&ch) {
            Some(s) => *s,
            None => SignalStyle::default(),
        }
    }

    /// The style of a channel for editing. A channel without one gets the default.
    pub fn style_for_mut(&mut self, ch: ChannelId) -> (r: &mut SignalStyle)
        ensures
            *r == old(self).style_of(ch),
            final(self).styles@ == old(self).styles@.insert(ch, *final(r)),
            final(self).channels == old(self).channels,
            final(self).title == old(self).title,
            final(self).selected_signals == old(self).selected_signals,
    {
        self.styles.entry(ch).or_insert(SignalStyle::default())
    }

    /// Every style that was set, in no particular order.
    pub fn styles_iter(&self) -> (r: Vec<(ChannelId, SignalStyle)>)
        ensures
            r@.no_duplicates(),
            r@.to_set() == self.styles@.kv_pairs(),
    {
        let mut out: Vec<(ChannelId, SignalStyle)> = Vec::new();
        let ghost m = self.styles@;
        for kv in it: self.styles.iter()
            invariant
                m == self.styles@,
                out@.len() == it.index(),
                it.seq().no_duplicates(),
                forall|j: int|
                    0 <= j < it.seq().len() ==> m.contains_key(*(#[trigger] it.seq()[j]).0)
                        && m[*it.seq()[j].0] == *it.seq()[j].1,
                forall|j: int|
                    0 <= j < it.index() ==> #[trigger] out@[j] == (*it.seq()[j].0, *it.seq()[j].1),
                forall|k: ChannelId| #[trigger]
                    m.contains_key(k) ==> out@.contains((k, m[k])) || exists|i: int|
                        it.index() <= i < it.seq().len() && it.seq()[i] == (&k, &m[k]),
        {
            let ghost before = out@;
            out.push((*kv.0, *kv.1));
            proof {
                assert forall|k: ChannelId| #[trigger] m.contains_key(k) implies out@.contains(
                    (k, m[k]),
                ) || exists|i: int|
                    it.index() + 1 <= i < it.seq().len() && it.seq()[i] == (&k, &m[k]) by {
                    if before.contains((k, m[k])) {
                        let j = choose|j: int| 0 <= j < before.len() && before[j] == (k, m[k]);
                        assert(out@[j] == (k, m[k]));
                    } else {
                        let i = choose|i: int|
                            it.index() <= i < it.seq().len() && it.seq()[i] == (&k, &m[k]);
                        if i == it.index() {
                            assert(out@[i] == (k, m[k]));
                        }
                    }
                }
            }
        }
        assert(out@.to_set() =~= m.kv_pairs()) by {
            assert forall|p: (ChannelId, SignalStyle)|
                out@.to_set().contains(p) <==> m.kv_pairs().contains(p) by {
                if m.contains_key(p.0) {
                    assert(out@.contains((p.0, m[p.0])));
                }
            }
        }
        out
    }

    pub fn is_empty(&self) -> (r: bool)
        ensures
            r == (self.channels@.len() == 0),
    {
        self.channels.len() == 0
    }
}

/// Whether a logic analyser takes the channel: state channels and integers.
pub open spec fn is_logic(ch: ChannelInfo) -> bool {
    ch.kind is State || ch.integer_storage
}

/// Whether a channel can be a lane of a logic analyser.
pub fn accepts_logic(ch: &ChannelInfo) -> (r: bool)
    ensures
        r == is_logic(*ch),
{
    channel_has_labels(ch) || ch.integer_storage
}

/// The mode of a new lane: named for state channels, numeric for the rest.
pub open spec fn fresh_mode(kind: ChannelKind) -> LaneMode {
    if kind is State {
        LaneMode::Named
    } else {
        LaneMode::Numeric
    }
}

/// The mode of a new lane: named for state channels, numeric for the rest.
pub fn default_lane_mode(kind: &ChannelKind, _integer_storage: bool) -> (r: LaneMode)
    ensures
        r == fresh_mode(*kind),
{
    match kind {
        ChannelKind::State { .. } => LaneMode::Named,
        _ => LaneMode::Numeric,
    }
}

/// Whether one of the lanes shows the channel.
pub open spec fn has_lane(lanes: Seq<LogicLane>, id: ChannelId) -> bool {
    exists|i: int| 0 <= i < lanes.len() && (#[trigger] lanes[i]).ch == id
}

/// The index of the first lane of the channel.
pub open spec fn is_lane_at(lanes: Seq<LogicLane>, id: ChannelId, i: int) -> bool {
    &&& 0 <= i < lanes.len()
    &&& lanes[i].ch == id
    &&& forall|j: int| 0 <= j < i ==> (#[trigger] lanes[j]).ch != id
}

/// The lanes after a channel was added: unchanged if it is no lane, or is one
/// already.
pub open spec fn lanes_with(lanes: Seq<LogicLane>, ch: ChannelInfo) -> Seq<LogicLane> {
    if is_logic(ch) && !has_lane(lanes, ch.id) {
        lanes.push(LogicLane { ch: ch.id, mode: fresh_mode(ch.kind), radix: LabelRadix::Hex })
    } else {
        lanes
    }
}

impl LogicAnalyserPanel {
    pub fn new(title: &str) -> (r: Self)
        ensures
            r.title@ == title@,
            r.lanes@ == Seq::<LogicLane>::empty(),
    {
        LogicAnalyserPanel { title: title.to_owned(), lanes: Vec::new() }
    }

    fn find_lane(&self, id: ChannelId) -> (r: Option<usize>)
        ensures
            match r {
                Some(i) => is_lane_at(self.lanes@, id, i as int),
                None => !has_lane(self.lanes@, id),
            },
    {
        let mut i: usize = 0;
        while i < self.lanes.len()
            invariant
                i <= self.lanes@.len(),
                forall|j: int| 0 <= j < i ==> (#[trigger] self.lanes@[j]).ch != id,
            decreases self.lanes@.len() - i,
        {
            if self.lanes[i].ch == id {
                return Some(i);
            }
            i = i + 1;
        }
        None
    }

    /// Adds a lane for a state channel or an integer that has none yet. Says
    /// whether it did.
    pub fn add(&mut self, ch: &ChannelInfo) -> (r: bool)
        ensures
            r == (is_logic(*ch) && !has_lane(old(self).lanes@, ch.id)),
            final(self).lanes@ == lanes_with(old(self).lanes@, *ch),
            final(self).title == old(self).title,
    {
        if !accepts_logic(ch) {
            return false;
        }
        if self.find_lane(ch.id).is_some() {
            return false;
        }
        let mode = default_lane_mode(&ch.kind, ch.integer_storage);
        self.lanes.push(LogicLane { ch: ch.id, mode, radix: LabelRadix::Hex });
        true
    }

    /// Removes the lanes of a channel.
    pub fn remove(&mut self, id: ChannelId)
        ensures
            final(self).lanes@ == without_lanes(old(self).lanes@, id),
            final(self).title == old(self).title,
    {
        let mut out: Vec<LogicLane> = Vec::new();
        let mut i: usize = 0;
        let ghost keep = |l: LogicLane| l.ch != id;
        proof {
            reveal(Seq::filter);
            assert(self.lanes@.take(0).filter(keep) =~= out@);
        }
        while i < self.lanes.len()
            invariant
                i <= self.lanes@.len(),
                self.lanes == old(self).lanes,
                self.title == old(self).title,
                keep == (|l: LogicLane| l.ch != id),
                out@ == self.lanes@.take(i as int).filter(keep),
            decreases self.lanes@.len() - i,
        {
            proof {
                reveal(Seq::filter);
                assert(self.lanes@.take(i + 1).drop_last() =~= self.lanes@.take(i as int));
            }
            if self.lanes[i].ch != id {
                out.push(self.lanes[i]);
            }
            i = i + 1;
        }
        assert(self.lanes@.take(self.lanes@.len() as int) =~= self.lanes@);
        self.lanes = out;
    }

    /// The radix of a channel's lane for editing, where it has one.
    pub fn radix_for_mut(&mut self, id: ChannelId) -> (r: Option<&mut LabelRadix>)
        ensures
            final(self).title == old(self).title,
            match r {
                Some(x) => exists|i: int| #[trigger]
                    is_lane_at(old(self).lanes@, id, i) && *x == old(self).lanes@[i].radix
                        && final(self).lanes@ == old(self).lanes@.update(
                        i,
                        LogicLane { radix: *final(x), ..old(self).lanes@[i] },
                    ),
                None => !has_lane(old(self).lanes@, id) && *final(self) == *old(self),
            },
    {
        match self.find_lane(id) {
            Some(i) => Some(&mut self.lanes[i].radix),
            None => None,
        }
    }

    /// The mode of a channel's lane for editing, where it has one.
    pub fn mode_for_mut(&mut self, id: ChannelId) -> (r: Option<&mut LaneMode>)
        ensures
            final(self).title == old(self).title,
            match r {
                Some(x) => exists|i: int| #[trigger]
                    is_lane_at(old(self).lanes@, id, i) && *x == old(self).lanes@[i].mode
                        && final(self).lanes@ == old(self).lanes@.update(
                        i,
                        LogicLane { mode: *final(x), ..old(self).lanes@[i] },
                    ),
                None => !has_lane(old(self).lanes@, id) && *final(self) == *old(self),
            },
    {
        match self.find_lane(id) {
            Some(i) => Some(&mut self.lanes[i].mode),
            None => None,
        }
    }

    pub fn is_empty(&self) -> (r: bool)
        ensures
            r == (self.lanes@.len() == 0),
    {
        self.lanes.len() == 0
    }
}

/// One plot pane.
#[derive(Clone, Debug)]
pub enum PlotKind {
    /// Lines over a shared y-axis. Takes scalars.
    Scalar(ScalarPanel),
    /// Stacked lanes. Takes state channels and integers.
    LogicAnalyser(LogicAnalyserPanel),
    /// Log rows. Takes text.
    LogView(LogViewPanel),
    /// One scalar over another.
    XY(XYPlot),
}

impl PlotKind {
    /// The plot's title.
    pub open spec fn title_of(self) -> String {
        match self {
            PlotKind::Scalar(p) => p.title,
            PlotKind::LogicAnalyser(p) => p.title,
            PlotKind::LogView(p) => p.title,
            PlotKind::XY(p) => p.title,
        }
    }

    /// The plot under another title.
    pub open spec fn titled(self, title: String) -> PlotKind {
        match self {
            PlotKind::Scalar(p) => PlotKind::Scalar(ScalarPanel { title, ..p }),
            PlotKind::LogicAnalyser(p) => PlotKind::LogicAnalyser(
                LogicAnalyserPanel { title, ..p },
            ),
            PlotKind::LogView(p) => PlotKind::LogView(LogViewPanel { title, ..p }),
            PlotKind::XY(p) => PlotKind::XY(XYPlot { title, ..p }),
        }
    }

    /// Whether the plot takes the channel.
    pub open spec fn takes(self, ch: ChannelInfo) -> bool {
        match self {
            PlotKind::Scalar(_) => ch.kind is Scalar,
            PlotKind::LogicAnalyser(_) => is_logic(ch),
            PlotKind::LogView(_) => ch.kind is Text,
            PlotKind::XY(_) => ch.kind is Scalar,
        }
    }

    pub fn title(&self) -> (r: &str)
        ensures
            r@ == self.title_of()@,
    {
        match self {
            PlotKind::Scalar(p) => p.title.as_str(),
            PlotKind::LogicAnalyser(p) => p.title.as_str(),
            PlotKind::LogView(p) => p.title.as_str(),
            PlotKind::XY(p) => p.title.as_str(),
        }
    }

    pub fn title_mut(&mut self) -> (r: &mut String)
        ensures
            *r == old(self).title_of(),
            *final(self) == old(self).titled(*final(r)),
    {
        match self {
            PlotKind::Scalar(p) => &mut p.title,
            PlotKind::LogicAnalyser(p) => &mut p.title,
            PlotKind::LogView(p) => &mut p.title,
            PlotKind::XY(p) => &mut p.title,
        }
    }

    /// Whether dropping the channel onto the plot is meaningful.
    pub fn accepts(&self, ch: &ChannelInfo) -> (r: bool)
        ensures
            r == self.takes(*ch),
    {
        let scalar = match ch.kind {
            ChannelKind::Scalar => true,
            _ => false,
        };
        let text = match ch.kind {
            ChannelKind::Text => true,
            _ => false,
        };
        match self {
            PlotKind::Scalar(_) => scalar,
            PlotKind::LogicAnalyser(_) => accepts_logic(ch),
            PlotKind::LogView(_) => text,
            PlotKind::XY(_) => scalar,
        }
    }
}

/// Owner of the plots. The dock layout stores their ids.
#[derive(Debug)]
pub struct PlotRegistry {
    plots: HashMap<u64, PlotKind>,
    next_id: u64,
}

impl View for PlotRegistry {
    type V = Map<u64, PlotKind>;

    closed spec fn view(&self) -> Map<u64, PlotKind> {
        self.plots@
    }
}

impl PlotRegistry {
    /// The number of the next plot.
    pub closed spec fn next(&self) -> u64 {
        self.next_id
    }

    /// No plot has a number that is still to be given out.
    pub open spec fn inv(&self) -> bool {
        forall|id: u64| #[trigger] self@.contains_key(id) ==> id < self.next()
    }

    pub fn new() -> (r: Self)
        ensures
            r.inv(),
            r@ == Map::<u64, PlotKind>::empty(),
            r.next() == 0,
    {
        PlotRegistry { plots: HashMap::new(), next_id: 0 }
    }

    /// Takes over a plot under a number that no plot ever had.
    pub fn insert(&mut self, kind: PlotKind) -> (id: PlotId)
        requires
            old(self).inv(),
            old(self).next() < u64::MAX,
        ensures
            final(self).inv(),
            id.0 == old(self).next(),
            !old(self)@.contains_key(id.0),
            final(self)@ == old(self)@.insert(id.0, kind),
            final(self).next() == old(self).next() + 1,
    {
        let id: u64 = self.next_id;
        self.next_id = self.next_id + 1;
        self.plots.insert(id, kind);
        assert forall|k: u64| #[trigger] self@.contains_key(k) implies k < self.next() by {
            if k != id {
                assert(old(self)@.contains_key(k));
            }
        }
        PlotId(id)
    }

    /// Whether there are numbers left for two more plots.
    pub fn has_room(&self) -> (r: bool)
        ensures
            r == (self.next() < u64::MAX - 1),
    {
        self.next_id < u64::MAX - 1
    }

    /// Gives a plot back, where there is one with that number.
    pub fn remove(&mut self, id: PlotId) -> (r: Option<PlotKind>)
        requires
            old(self).inv(),
        ensures
            final(self).inv(),
            final(self)@ == old(self)@.remove(id.0),
            final(self).next() == old(self).next(),
            match r {
                Some(p) => old(self)@.contains_key(id.0) && p == old(self)@[id.0],
                None => !old(self)@.contains_key(id.0),
            },
    {
        self.plots.remove(&id.0)
    }

    pub fn get(&self, id: PlotId) -> (r: Option<&PlotKind>)
        ensures
            match r {
                Some(p) => self@.contains_key(id.0) && *p == self@[id.0],
                None => !self@.contains_key(id.0),
            },
    {
        self.plots.get(&id.0)
    }

    /// A plot for editing.
    pub fn get_mut(&mut self, id: PlotId) -> (r: Option<&mut PlotKind>)
        ensures
            old(self).inv() ==> final(self).inv(),
            final(self).next() == old(self).next(),
            match r {
                Some(p) => {
                    &&& old(self)@.contains_key(id.0)
                    &&& *p == old(self)@[id.0]
                    &&& final(self)@ == old(self)@.insert(id.0, *final(p))
                },
                None => !old(self)@.contains_key(id.0) && final(self)@ == old(self)@,
            },
    {
        proof {
            let before = old(self)@;
            assert forall|v: PlotKind, k: u64|
                old(self).inv() && before.contains_key(id.0) && #[trigger] before.insert(
                    id.0,
                    v,
                ).contains_key(k) implies k < old(self).next() by {
                if k != id.0 {
                    assert(before.contains_key(k));
                }
            }
        }
        match self.plots.entry(id.0) {
            Entry::Occupied(e) => Some(e.into_mut()),
            Entry::Vacant(_) => None,
        }
    }

    pub fn len(&self) -> (r: usize)
        ensures
            r == self@.dom().len(),
    {
        self.plots.len()
    }

    pub fn is_empty(&self) -> (r: bool)
        ensures
            r == self@.dom().is_empty(),
    {
        let n: usize = self.plots.len();
        proof {
            if self@.dom().len() == 0 {
                assert(self@.dom().is_empty());
            }
        }
        n == 0
    }

    /// The numbers of all plots, in no particular order.
    pub fn iter_ids(&self) -> (r: Vec<PlotId>)
        ensures
            r@.no_duplicates(),
            forall|id: u64| #[trigger] r@.contains(PlotId(id)) <==> self@.contains_key(id),
    {
        let all = self.iter();
        let mut out: Vec<PlotId> = Vec::new();
        let mut i: usize = 0;
        while i < all.len()
            invariant
                i <= all@.len(),
                all@.no_duplicates(),
                forall|id: u64, p: &PlotKind|
                    all@.contains((PlotId(id), p)) <==> self@.contains_key(id) && self@[id] == *p,
                out@.len() == i,
                forall|j: int| 0 <= j < i ==> #[trigger] out@[j] == all@[j].0,
            decreases all@.len() - i,
        {
            out.push(all[i].0);
            i = i + 1;
        }
        proof {
            assert forall|j: int| 0 <= j < all@.len() implies self@.contains_key(
                (#[trigger] out@[j]).0,
            ) && self@[out@[j].0] == *all@[j].1 by {
                assert(all@.contains((PlotId(all@[j].0.0), all@[j].1)));
            }
            assert(out@.no_duplicates()) by {
                assert forall|a: int, b: int|
                    0 <= a < b < out@.len() implies out@[a] != out@[b] by {
                    if out@[a] == out@[b] {
                        assert(*all@[a].1 == *all@[b].1);
                        assert(all@[a] == all@[b]);
                    }
                }
            }
            assert forall|id: u64| #[trigger] out@.contains(PlotId(id)) <==> self@.contains_key(
                id,
            ) by {
                if self@.contains_key(id) {
                    assert(all@.contains((PlotId(id), &self@[id])));
                    let j = choose|j: int|
                        0 <= j < all@.len() && all@[j] == (PlotId(id), &self@[id]);
                    assert(out@[j] == PlotId(id));
                }
            }
        }
        out
    }

    /// All plots with their numbers, in no particular order.
    pub fn iter(&self) -> (r: Vec<(PlotId, &PlotKind)>)
        ensures
            r@.no_duplicates(),
            forall|id: u64, p: &PlotKind|
                r@.contains((PlotId(id), p)) <==> self@.contains_key(id) && self@[id] == *p,
    {
        let mut out: Vec<(PlotId, &PlotKind)> = Vec::new();
        let ghost m = self.plots@;
        for kv in it: self.plots.iter()
            invariant
                m == self.plots@,
                out@.len() == it.index(),
                it.seq().no_duplicates(),
                forall|j: int|
                    0 <= j < it.seq().len() ==> m.contains_key(*(#[trigger] it.seq()[j]).0)
                        && m[*it.seq()[j].0] == *it.seq()[j].1,
                forall|j: int|
                    0 <= j < it.index() ==> #[trigger] out@[j] == (
                        PlotId(*it.seq()[j].0),
                        it.seq()[j].1,
                    ),
                forall|k: u64| #[trigger]
                    m.contains_key(k) ==> out@.contains((PlotId(k), &m[k])) || exists|i: int|
                        it.index() <= i < it.seq().len() && it.seq()[i] == (&k, &m[k]),
        {
            let ghost before = out@;
            out.push((PlotId(*kv.0), kv.1));
            proof {
                assert forall|k: u64| #[trigger] m.contains_key(k) implies out@.contains(
                    (PlotId(k), &m[k]),
                ) || exists|i: int|
                    it.index() + 1 <= i < it.seq().len() && it.seq()[i] == (&k, &m[k]) by {
                    if before.contains((PlotId(k), &m[k])) {
                        let j = choose|j: int|
                            0 <= j < before.len() && before[j] == (PlotId(k), &m[k]);
                        assert(out@[j] == (PlotId(k), &m[k]));
                    } else {
                        let i = choose|i: int|
                            it.index() <= i < it.seq().len() && it.seq()[i] == (&k, &m[k]);
                        if i == it.index() {
                            assert(out@[i] == (PlotId(k), &m[k]));
                        }
                    }
                }
            }
        }
        out
    }
}

impl Default for PlotRegistry {
    fn default() -> (r: Self)
        ensures
            r.inv(),
            r@ == Map::<u64, PlotKind>::empty(),
            r.next() == 0,
    {
        PlotRegistry::new()
    }
}

} // verus!
