//! Making the plots of a layout from the channels that are there.

use crate::layout::{ApplyReport, Layout, LogicLaneSpec, PlotSpec};
use crate::panels::{
    accepts_logic, default_lane_mode, LaneMode, LogicAnalyserPanel, PlotId, PlotKind,
    PlotRegistry, ScalarPanel, SignalStyle, XYPlot,
};
use crate::store::{ChannelId, ChannelInfo, ChannelKind};
use crate::text::{append_text, same_text};
use vstd::prelude::*;

verus! {

use crate::layout::{
    lane_specs_of, noted, styles_of, texts_of, LaneSpecView, PlotSpecView,
};
use crate::panels::{
    fresh_mode, has_lane, is_lane_at, is_logic, lanes_with, ColumnFilter, LogicLane,
};

broadcast use vstd::std_specs::hash::group_hash_axioms;

/// What a plot says.
#[verifier::ext_equal]
pub enum PlotView {
    Scalar {
        title: Seq<char>,
        channels: Seq<ChannelId>,
        styles: Map<ChannelId, SignalStyle>,
        selected: Set<ChannelId>,
    },
    LogicAnalyser { title: Seq<char>, lanes: Seq<LogicLane> },
    LogView {
        title: Seq<char>,
        group: Seq<char>,
        columns: Seq<ChannelId>,
        visible: Seq<usize>,
        filters: Map<ChannelId, ColumnFilter>,
        color_by: Option<ChannelId>,
        priority_by: Option<ChannelId>,
        max_rows: usize,
    },
    XY { title: Seq<char>, x: ChannelId, y: ChannelId, trail_ns: Option<u64> },
}

/// What a plot says.
pub open spec fn plot_view(k: PlotKind) -> PlotView {
    match k {
        PlotKind::Scalar(p) => PlotView::Scalar {
            title: p.title@,
            channels: p.channels@,
            styles: p.styles@,
            selected: p.selected_signals@,
        },
        PlotKind::LogicAnalyser(p) => PlotView::LogicAnalyser { title: p.title@, lanes: p.lanes@ },
        PlotKind::LogView(p) => PlotView::LogView {
            title: p.title@,
            group: p.group@,
            columns: p.columns@,
            visible: p.visible@,
            filters: p.filters@,
            color_by: p.color_by,
            priority_by: p.priority_by,
            max_rows: p.max_rows,
        },
        PlotKind::XY(p) => PlotView::XY { title: p.title@, x: p.x, y: p.y, trail_ns: p.trail_ns },
    }
}

/// What plots say.
pub open spec fn plots_view(m: Map<u64, PlotKind>) -> Map<u64, PlotView> {
    m.map_values(|k: PlotKind| plot_view(k))
}

/// The channel with the path; of several the last.
pub open spec fn lookup(channels: Seq<ChannelInfo>, path: Seq<char>) -> Option<ChannelInfo>
    decreases channels.len(),
{
    if channels.len() == 0 {
        None
    } else if channels.last().path@ == path {
        Some(channels.last())
    } else {
        lookup(channels.drop_last(), path)
    }
}

fn find_channel<'a>(channels: &'a [ChannelInfo], path: &str) -> (r: Option<&'a ChannelInfo>)
    ensures
        match r {
            Some(c) => lookup(channels@, path@) == Some(*c),
            None => lookup(channels@, path@) is None,
        },
{
    let mut k: usize = channels.len();
    assert(channels@.take(k as int) =~= channels@);
    while k > 0 && !same_text(channels[k - 1].path.as_str(), path)
        invariant
            k <= channels@.len(),
            lookup(channels@, path@) == lookup(channels@.take(k as int), path@),
        decreases k,
    {
        assert(channels@.take(k as int).drop_last() =~= channels@.take(k - 1));
        k = k - 1;
    }
    if k > 0 {
        assert(channels@.take(k as int).last() == channels@[k - 1]);
        Some(&channels[k - 1])
    } else {
        None
    }
}

/// The scalar channels of the paths, each once, and the missing paths after those of
/// them that no scalar channel has.
pub open spec fn scalars_of(
    channels: Seq<ChannelInfo>,
    paths: Seq<Seq<char>>,
    missing: Seq<Seq<char>>,
) -> (Seq<ChannelId>, Seq<Seq<char>>)
    decreases paths.len(),
{
    if paths.len() == 0 {
        (Seq::empty(), missing)
    } else {
        let (c, m) = scalars_of(channels, paths.drop_last(), missing);
        match lookup(channels, paths.last()) {
            Some(info) => if info.kind is Scalar {
                (
                    if c.contains(info.id) {
                        c
                    } else {
                        c.push(info.id)
                    },
                    m,
                )
            } else {
                (c, noted(m, paths.last()))
            },
            None => (c, noted(m, paths.last())),
        }
    }
}

/// The styles of the paths that a channel has; where only scalars count, of the
/// scalar ones.
pub open spec fn styles_for(
    channels: Seq<ChannelInfo>,
    styles: Seq<(Seq<char>, SignalStyle)>,
    scalars_only: bool,
) -> Map<ChannelId, SignalStyle>
    decreases styles.len(),
{
    if styles.len() == 0 {
        Map::empty()
    } else {
        let before = styles_for(channels, styles.drop_last(), scalars_only);
        match lookup(channels, styles.last().0) {
            Some(info) => if scalars_only && !(info.kind is Scalar) {
                before
            } else {
                before.insert(info.id, styles.last().1)
            },
            None => before,
        }
    }
}

/// The lanes for the state channels of the paths, whether there was any, and the
/// missing paths.
pub open spec fn states_of(
    channels: Seq<ChannelInfo>,
    paths: Seq<Seq<char>>,
    missing: Seq<Seq<char>>,
) -> (Seq<LogicLane>, bool, Seq<Seq<char>>)
    decreases paths.len(),
{
    if paths.len() == 0 {
        (Seq::empty(), false, missing)
    } else {
        let (l, any, m) = states_of(channels, paths.drop_last(), missing);
        match lookup(channels, paths.last()) {
            Some(info) => if info.kind is State {
                (lanes_with(l, info), true, m)
            } else {
                (l, any, noted(m, paths.last()))
            },
            None => (l, any, noted(m, paths.last())),
        }
    }
}

/// The mode that a saved lane gets: its own, but named lanes need labels.
pub open spec fn restored_mode(info: ChannelInfo, mode: LaneMode) -> LaneMode {
    if mode == LaneMode::Named && !(info.kind is State) {
        fresh_mode(info.kind)
    } else {
        mode
    }
}

/// The lanes for saved lanes, and the missing paths.
pub open spec fn lanes_of(
    channels: Seq<ChannelInfo>,
    specs: Seq<LaneSpecView>,
    missing: Seq<Seq<char>>,
) -> (Seq<LogicLane>, Seq<Seq<char>>)
    decreases specs.len(),
{
    if specs.len() == 0 {
        (Seq::empty(), missing)
    } else {
        let (l, m) = lanes_of(channels, specs.drop_last(), missing);
        let s = specs.last();
        match lookup(channels, s.ch_path) {
            Some(info) => if !is_logic(info) {
                (l, noted(m, s.ch_path))
            } else if has_lane(l, info.id) {
                (l, m)
            } else {
                (
                    l.push(
                        LogicLane {
                            ch: info.id,
                            radix: s.radix,
                            mode: restored_mode(info, s.mode),
                        },
                    ),
                    m,
                )
            },
            None => (l, noted(m, s.ch_path)),
        }
    }
}

/// The state of applying a layout.
#[verifier::ext_equal]
pub struct AppliedView {
    pub plots: Map<u64, PlotView>,
    pub next: u64,
    /// For each saved plot the one made of it.
    pub ids: Seq<Option<PlotId>>,
    /// Plots made beside another, which comes first.
    pub companions: Seq<(PlotId, PlotId)>,
    pub missing: Seq<Seq<char>>,
    pub dropped: nat,
}

impl AppliedView {
    pub open spec fn start() -> AppliedView {
        AppliedView {
            plots: Map::empty(),
            next: 0,
            ids: Seq::empty(),
            companions: Seq::empty(),
            missing: Seq::empty(),
            dropped: 0,
        }
    }

    /// One more plot, made of the next saved one.
    pub open spec fn with_plot(self, p: PlotView) -> AppliedView {
        AppliedView {
            plots: self.plots.insert(self.next, p),
            next: (self.next + 1) as u64,
            ids: self.ids.push(Some(PlotId(self.next))),
            ..self
        }
    }

    /// One more plot beside the last one.
    pub open spec fn with_companion(self, p: PlotView) -> AppliedView {
        AppliedView {
            plots: self.plots.insert(self.next, p),
            next: (self.next + 1) as u64,
            companions: self.companions.push((PlotId((self.next - 1) as u64), PlotId(self.next))),
            ..self
        }
    }

    /// The state after one more saved plot.
    pub open spec fn step(self, channels: Seq<ChannelInfo>, spec: PlotSpecView) -> AppliedView {
        match spec {
            PlotSpecView::TimeSeries { title, scalars, states, styles } => {
                let (c, m) = scalars_of(channels, scalars, self.missing);
                let first = (AppliedView { missing: m, ..self }).with_plot(
                    PlotView::Scalar {
                        title,
                        channels: c,
                        styles: styles_for(channels, styles, true),
                        selected: Set::empty(),
                    },
                );
                let (lanes, any, m2) = states_of(channels, states, m);
                let noted_all = AppliedView { missing: m2, ..first };
                if any {
                    noted_all.with_companion(
                        PlotView::LogicAnalyser { title: title + " (states)"@, lanes },
                    )
                } else {
                    noted_all
                }
            },
            PlotSpecView::Scalar { title, channels: paths, styles } => {
                let (c, m) = scalars_of(channels, paths, self.missing);
                (AppliedView { missing: m, ..self }).with_plot(
                    PlotView::Scalar {
                        title,
                        channels: c,
                        styles: styles_for(channels, styles, false),
                        selected: Set::empty(),
                    },
                )
            },
            PlotSpecView::StateChart { title, lanes: paths } => {
                let (lanes, _any, m) = states_of(channels, paths, self.missing);
                (AppliedView { missing: m, ..self }).with_plot(
                    PlotView::LogicAnalyser { title, lanes },
                )
            },
            PlotSpecView::LogicAnalyser { title, lanes: specs } => {
                let (lanes, m) = lanes_of(channels, specs, self.missing);
                (AppliedView { missing: m, ..self }).with_plot(
                    PlotView::LogicAnalyser { title, lanes },
                )
            },
            PlotSpecView::Xy { title, x, y, trail_ns } => {
                let xi = lookup(channels, x);
                let yi = lookup(channels, y);
                let x_ok = xi is Some && xi->0.kind is Scalar;
                let y_ok = yi is Some && yi->0.kind is Scalar;
                if x_ok && y_ok {
                    self.with_plot(PlotView::XY { title, x: xi->0.id, y: yi->0.id, trail_ns })
                } else {
                    let m = if x_ok {
                        self.missing
                    } else {
                        noted(self.missing, x)
                    };
                    AppliedView {
                        missing: if y_ok {
                            m
                        } else {
                            noted(m, y)
                        },
                        ids: self.ids.push(None),
                        dropped: self.dropped + 1,
                        ..self
                    }
                }
            },
        }
    }
}

/// The state after saved plots.
pub open spec fn applied(specs: Seq<PlotSpecView>, channels: Seq<ChannelInfo>) -> AppliedView
    decreases specs.len(),
{
    if specs.len() == 0 {
        AppliedView::start()
    } else {
        applied(specs.drop_last(), channels).step(channels, specs.last())
    }
}

/// The plots made of a layout, and what was left out.
pub struct Applied {
    pub registry: PlotRegistry,
    pub ids: Vec<Option<PlotId>>,
    pub companions: Vec<(PlotId, PlotId)>,
    pub report: ApplyReport,
}

impl View for Applied {
    type V = AppliedView;

    open spec fn view(&self) -> AppliedView {
        AppliedView {
            plots: plots_view(self.registry@),
            next: self.registry.next(),
            ids: self.ids@,
            companions: self.companions@,
            missing: texts_of(self.report.missing_paths@),
            dropped: self.report.dropped_plots as nat,
        }
    }
}

fn add_scalars(
    p: &mut ScalarPanel,
    channels: &[ChannelInfo],
    paths: &Vec<String>,
    report: &mut ApplyReport,
)
    requires
        old(p).channels@.len() == 0,
        old(p).styles@ == Map::<ChannelId, SignalStyle>::empty(),
    ensures
        (final(p).channels@, texts_of(final(report).missing_paths@)) == scalars_of(
            channels@,
            texts_of(paths@),
            texts_of(old(report).missing_paths@),
        ),
        final(p).styles@ == Map::<ChannelId, SignalStyle>::empty(),
        final(p).title == old(p).title,
        final(p).selected_signals == old(p).selected_signals,
        final(report).dropped_plots == old(report).dropped_plots,
{
    let ghost all = texts_of(paths@);
    let ghost start = texts_of(report.missing_paths@);
    let mut i: usize = 0;
    assert(p.channels@ =~= Seq::empty());
    while i < paths.len()
        invariant
            i <= paths@.len(),
            all == texts_of(paths@),
            (p.channels@, texts_of(report.missing_paths@)) == scalars_of(
                channels@,
                all.take(i as int),
                start,
            ),
            p.styles@ == Map::<ChannelId, SignalStyle>::empty(),
            p.title == old(p).title,
            p.selected_signals == old(p).selected_signals,
            report.dropped_plots == old(report).dropped_plots,
        decreases paths@.len() - i,
    {
        let path = paths[i].as_str();
        proof {
            assert(all.take(i + 1).drop_last() =~= all.take(i as int));
            assert(all.take(i + 1).last() == path@);
        }
        match find_channel(channels, path) {
            Some(info) => match info.kind {
                ChannelKind::Scalar => {
                    p.add(info);
                },
                _ => {
                    report.add_missing(path);
                },
            },
            None => {
                report.add_missing(path);
            },
        }
        i = i + 1;
    }
    assert(all.take(paths@.len() as int) =~= all);
}

fn set_styles(
    p: &mut ScalarPanel,
    channels: &[ChannelInfo],
    styles: &Vec<(String, SignalStyle)>,
    scalars_only: bool,
)
    requires
        old(p).styles@ == Map::<ChannelId, SignalStyle>::empty(),
    ensures
        final(p).styles@ == styles_for(channels@, styles_of(styles@), scalars_only),
        final(p).channels == old(p).channels,
        final(p).title == old(p).title,
        final(p).selected_signals == old(p).selected_signals,
{
    let ghost all = styles_of(styles@);
    let mut i: usize = 0;
    while i < styles.len()
        invariant
            i <= styles@.len(),
            all == styles_of(styles@),
            p.styles@ == styles_for(channels@, all.take(i as int), scalars_only),
            p.channels == old(p).channels,
            p.title == old(p).title,
            p.selected_signals == old(p).selected_signals,
        decreases styles@.len() - i,
    {
        proof {
            assert(all.take(i + 1).drop_last() =~= all.take(i as int));
            assert(all.take(i + 1).last() == (styles@[i as int].0@, styles@[i as int].1));
        }
        match find_channel(channels, styles[i].0.as_str()) {
            Some(info) => {
                let scalar = match info.kind {
                    ChannelKind::Scalar => true,
                    _ => false,
                };
                if !scalars_only || scalar {
                    *p.style_for_mut(info.id) = styles[i].1;
                }
            },
            None => {},
        }
        i = i + 1;
    }
    assert(all.take(styles@.len() as int) =~= all);
}

fn add_states(
    p: &mut LogicAnalyserPanel,
    channels: &[ChannelInfo],
    paths: &Vec<String>,
    report: &mut ApplyReport,
) -> (any: bool)
    requires
        old(p).lanes@.len() == 0,
    ensures
        (final(p).lanes@, any, texts_of(final(report).missing_paths@)) == states_of(
            channels@,
            texts_of(paths@),
            texts_of(old(report).missing_paths@),
        ),
        final(p).title == old(p).title,
        final(report).dropped_plots == old(report).dropped_plots,
{
    let ghost all = texts_of(paths@);
    let ghost start = texts_of(report.missing_paths@);
    let mut any = false;
    let mut i: usize = 0;
    assert(p.lanes@ =~= Seq::empty());
    while i < paths.len()
        invariant
            i <= paths@.len(),
            all == texts_of(paths@),
            (p.lanes@, any, texts_of(report.missing_paths@)) == states_of(
                channels@,
                all.take(i as int),
                start,
            ),
            p.title == old(p).title,
            report.dropped_plots == old(report).dropped_plots,
        decreases paths@.len() - i,
    {
        let path = paths[i].as_str();
        proof {
            assert(all.take(i + 1).drop_last() =~= all.take(i as int));
            assert(all.take(i + 1).last() == path@);
        }
        match find_channel(channels, path) {
            Some(info) => match info.kind {
                ChannelKind::State { .. } => {
                    p.add(info);
                    any = true;
                },
                _ => {
                    report.add_missing(path);
                },
            },
            None => {
                report.add_missing(path);
            },
        }
        i = i + 1;
    }
    assert(all.take(paths@.len() as int) =~= all);
    any
}

/// Adds a lane as it was saved. The panel has none for the channel yet.
fn add_saved_lane(p: &mut LogicAnalyserPanel, info: &ChannelInfo, spec: &LogicLaneSpec)
    requires
        is_logic(*info),
        !has_lane(old(p).lanes@, info.id),
    ensures
        final(p).lanes@ == old(p).lanes@.push(
            LogicLane {
                ch: info.id,
                radix: spec.radix,
                mode: restored_mode(*info, spec.mode),
            },
        ),
        final(p).title == old(p).title,
{
    let ghost before = p.lanes@;
    p.add(info);
    let ghost n = before.len() as int;
    proof {
        assert(p.lanes@[n].ch == info.id);
        assert forall|j: int| 0 <= j < n implies (#[trigger] p.lanes@[j]).ch != info.id by {
            assert(p.lanes@[j] == before[j]);
        }
        assert forall|j: int| is_lane_at(p.lanes@, info.id, j) implies j == n by {}
    }
    let ghost with_lane = p.lanes@;
    match p.radix_for_mut(info.id) {
        Some(r) => {
            *r = spec.radix;
        },
        None => {
            assert(false);
        },
    }
    assert(p.lanes@ =~= before.push(LogicLane { radix: spec.radix, ..with_lane[n] }));
    proof {
        assert(p.lanes@[n].ch == info.id);
        assert forall|j: int| 0 <= j < n implies (#[trigger] p.lanes@[j]).ch != info.id by {
            assert(p.lanes@[j] == before[j]);
        }
    }
    let named = match spec.mode {
        LaneMode::Named => true,
        LaneMode::Numeric => false,
    };
    let state = match info.kind {
        ChannelKind::State { .. } => true,
        _ => false,
    };
    let mode = if named && !state {
        default_lane_mode(&info.kind, info.integer_storage)
    } else {
        spec.mode
    };
    match p.mode_for_mut(info.id) {
        Some(m) => {
            *m = mode;
        },
        None => {
            assert(false);
        },
    }
    assert(p.lanes@ =~= before.push(
        LogicLane { ch: info.id, radix: spec.radix, mode: restored_mode(*info, spec.mode) },
    ));
}

fn shows_channel(lanes: &Vec<LogicLane>, id: ChannelId) -> (r: bool)
    ensures
        r == has_lane(lanes@, id),
{
    let mut i: usize = 0;
    while i < lanes.len() && lanes[i].ch != id
        invariant
            i <= lanes@.len(),
            forall|j: int| 0 <= j < i ==> (#[trigger] lanes@[j]).ch != id,
        decreases lanes@.len() - i,
    {
        i = i + 1;
    }
    assert(i < lanes@.len() ==> lanes@[i as int].ch == id);
    i < lanes.len()
}

fn add_lanes(
    p: &mut LogicAnalyserPanel,
    channels: &[ChannelInfo],
    specs: &Vec<LogicLaneSpec>,
    report: &mut ApplyReport,
)
    requires
        old(p).lanes@.len() == 0,
    ensures
        (final(p).lanes@, texts_of(final(report).missing_paths@)) == lanes_of(
            channels@,
            lane_specs_of(specs@),
            texts_of(old(report).missing_paths@),
        ),
        final(p).title == old(p).title,
        final(report).dropped_plots == old(report).dropped_plots,
{
    let ghost all = lane_specs_of(specs@);
    let ghost start = texts_of(report.missing_paths@);
    let mut i: usize = 0;
    assert(p.lanes@ =~= Seq::empty());
    while i < specs.len()
        invariant
            i <= specs@.len(),
            all == lane_specs_of(specs@),
            (p.lanes@, texts_of(report.missing_paths@)) == lanes_of(
                channels@,
                all.take(i as int),
                start,
            ),
            p.title == old(p).title,
            report.dropped_plots == old(report).dropped_plots,
        decreases specs@.len() - i,
    {
        let spec = &specs[i];
        let path = spec.ch_path.as_str();
        proof {
            assert(all.take(i + 1).drop_last() =~= all.take(i as int));
            assert(all.take(i + 1).last() == (LaneSpecView {
                ch_path: path@,
                radix: spec.radix,
                mode: spec.mode,
            }));
        }
        match find_channel(channels, path) {
            Some(info) => {
                if !accepts_logic(info) {
                    report.add_missing(path);
                } else if !shows_channel(&p.lanes, info.id) {
                    add_saved_lane(p, info, spec);
                }
            },
            None => {
                report.add_missing(path);
            },
        }
        i = i + 1;
    }
    assert(all.take(specs@.len() as int) =~= all);
}

proof fn lemma_plots_insert(m: Map<u64, PlotKind>, id: u64, k: PlotKind)
    ensures
        plots_view(m.insert(id, k)) == plots_view(m).insert(id, plot_view(k)),
{
    assert(plots_view(m.insert(id, k)) =~= plots_view(m).insert(id, plot_view(k)));
}

impl Applied {
    fn push_plot(&mut self, kind: PlotKind) -> (id: PlotId)
        requires
            old(self).registry.inv(),
            old(self)@.next < u64::MAX,
        ensures
            final(self).registry.inv(),
            id.0 == old(self)@.next,
            final(self)@ == old(self)@.with_plot(plot_view(kind)),
    {
        proof {
            lemma_plots_insert(self.registry@, self.registry.next(), kind);
        }
        let id = self.registry.insert(kind);
        self.ids.push(Some(id));
        id
    }

    /// Applies one saved plot.
    fn apply_spec(&mut self, channels: &[ChannelInfo], spec: &PlotSpec)
        requires
            old(self).registry.inv(),
            old(self)@.next < u64::MAX - 1,
            old(self).report.dropped_plots < usize::MAX,
        ensures
            final(self).registry.inv(),
            final(self)@ == old(self)@.step(channels@, spec@),
            final(self)@.next <= old(self)@.next + 2,
            final(self)@.dropped <= old(self)@.dropped + 1,
    {
        match spec {
            PlotSpec::TimeSeries { title, scalars, states, styles } => {
                let mut sp = ScalarPanel::new(title.as_str());
                add_scalars(&mut sp, channels, scalars, &mut self.report);
                set_styles(&mut sp, channels, styles, true);
                let scalar_id = self.push_plot(PlotKind::Scalar(sp));
                let mut name = title.clone();
                append_text(&mut name, " (states)");
                let mut chart = LogicAnalyserPanel::new(name.as_str());
                let any = add_states(&mut chart, channels, states, &mut self.report);
                if any {
                    let kind = PlotKind::LogicAnalyser(chart);
                    proof {
                        lemma_plots_insert(self.registry@, self.registry.next(), kind);
                    }
                    let state_id = self.registry.insert(kind);
                    self.companions.push((scalar_id, state_id));
                }
            },
            PlotSpec::Scalar { title, channels: paths, styles } => {
                let mut p = ScalarPanel::new(title.as_str());
                add_scalars(&mut p, channels, paths, &mut self.report);
                set_styles(&mut p, channels, styles, false);
                self.push_plot(PlotKind::Scalar(p));
            },
            PlotSpec::StateChart { title, lanes } => {
                let mut p = LogicAnalyserPanel::new(title.as_str());
                add_states(&mut p, channels, lanes, &mut self.report);
                self.push_plot(PlotKind::LogicAnalyser(p));
            },
            PlotSpec::LogicAnalyser { title, lanes } => {
                let mut p = LogicAnalyserPanel::new(title.as_str());
                add_lanes(&mut p, channels, lanes, &mut self.report);
                self.push_plot(PlotKind::LogicAnalyser(p));
            },
            PlotSpec::Xy { title, x, y, trail_ns } => {
                let xi = scalar_channel(channels, x.as_str());
                let yi = scalar_channel(channels, y.as_str());
                match (xi, yi) {
                    (Some(x), Some(y)) => {
                        self.push_plot(
                            PlotKind::XY(
                                XYPlot { title: title.clone(), x, y, trail_ns: *trail_ns },
                            ),
                        );
                    },
                    _ => {
                        if xi.is_none() {
                            self.report.add_missing(x.as_str());
                        }
                        if yi.is_none() {
                            self.report.add_missing(y.as_str());
                        }
                        self.report.dropped_plots = self.report.dropped_plots + 1;
                        self.ids.push(None);
                    },
                }
            },
        }
    }

    /// The tabs where no dock was saved: all plots made of saved ones, or a first one
    /// where there are none.
    pub fn fallback_tabs(&self) -> (r: Vec<PlotId>)
        ensures
            r@ == (if surviving(self@.ids).len() == 0 {
                seq![PlotId(0)]
            } else {
                surviving(self@.ids)
            }),
    {
        let mut out: Vec<PlotId> = Vec::new();
        let mut i: usize = 0;
        while i < self.ids.len()
            invariant
                i <= self.ids@.len(),
                out@ == surviving(self.ids@.take(i as int)),
            decreases self.ids@.len() - i,
        {
            assert(self.ids@.take(i + 1).drop_last() =~= self.ids@.take(i as int));
            match self.ids[i] {
                Some(id) => {
                    out.push(id);
                },
                None => {},
            }
            i = i + 1;
        }
        assert(self.ids@.take(self.ids@.len() as int) =~= self.ids@);
        if out.len() == 0 {
            out.push(PlotId(0));
            assert(out@ =~= seq![PlotId(0)]);
        }
        out
    }
}

/// The plots that were made.
pub open spec fn surviving(ids: Seq<Option<PlotId>>) -> Seq<PlotId>
    decreases ids.len(),
{
    if ids.len() == 0 {
        Seq::empty()
    } else {
        let before = surviving(ids.drop_last());
        match ids.last() {
            Some(id) => before.push(id),
            None => before,
        }
    }
}

fn scalar_channel(channels: &[ChannelInfo], path: &str) -> (r: Option<ChannelId>)
    ensures
        match r {
            Some(id) => lookup(channels@, path@) matches Some(info) && info.kind is Scalar && id
                == info.id,
            None => !(lookup(channels@, path@) matches Some(info) && info.kind is Scalar),
        },
{
    match find_channel(channels, path) {
        Some(info) => match info.kind {
            ChannelKind::Scalar => Some(info.id),
            _ => None,
        },
        None => None,
    }
}

/// What saved plots say.
pub open spec fn specs_view(v: Seq<PlotSpec>) -> Seq<PlotSpecView> {
    v.map_values(|s: PlotSpec| s@)
}

/// Makes the plots of a layout from the channels that are there. Channels that are
/// not there, or are of another kind, are left out and noted.
pub fn apply(layout: &Layout, channels: &[ChannelInfo]) -> (r: Applied)
    requires
        2 * layout.plots@.len() < u64::MAX,
        layout.plots@.len() < usize::MAX,
    ensures
        r.registry.inv(),
        r@ == applied(specs_view(layout.plots@), channels@),
{
    let ghost all = specs_view(layout.plots@);
    let mut out = Applied {
        registry: PlotRegistry::new(),
        ids: Vec::new(),
        companions: Vec::new(),
        report: ApplyReport::new(),
    };
    let mut i: usize = 0;
    assert(out@ =~= AppliedView::start());
    while i < layout.plots.len()
        invariant
            i <= layout.plots@.len(),
            2 * layout.plots@.len() < u64::MAX,
            layout.plots@.len() < usize::MAX,
            all == specs_view(layout.plots@),
            out.registry.inv(),
            out@ == applied(all.take(i as int), channels@),
            out@.next <= 2 * i,
            out@.dropped <= i,
        decreases layout.plots@.len() - i,
    {
        proof {
            assert(all.take(i + 1).drop_last() =~= all.take(i as int));
            assert(all.take(i + 1).last() == layout.plots@[i as int]@);
        }
        out.apply_spec(channels, &layout.plots[i]);
        i = i + 1;
    }
    assert(all.take(layout.plots@.len() as int) =~= all);
    out
}

} // verus!
