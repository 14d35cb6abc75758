use std::collections::HashMap;

use btelem::docks::dock_tabs;
use btelem::layout::{
    default_y_frac, file_name_for, format_apply_suffix, lane_mode_numeric_default,
    migrate_chains_to_links, slug, upgrade, version_supported, ApplyReport, Layout, LinkSpec,
    LogicLaneSpec, MarkerSpec, PlotSpec, SCHEMA_VERSION,
};
use btelem::layout_apply::apply;
use btelem::layout_laws::restore_markers;
use btelem::layout_save::{capture, spec_from_kind};
use btelem::markers::{MarkerSet, HALF};
use btelem::panels::{
    LabelRadix, LaneMode, LineStyle, LineWidth, LogViewPanel, LogicAnalyserPanel, LogicLane,
    PlotId, PlotKind, PlotRegistry, ScalarPanel, SignalStyle, XYPlot,
};
use btelem::store::{ChannelId, ChannelInfo, ChannelKind};
use egui_dock::DockState;

fn ch_scalar(id: ChannelId, path: &str) -> ChannelInfo {
    ChannelInfo {
        id,
        path: path.into(),
        kind: ChannelKind::Scalar,
        integer_storage: false,
    }
}

fn ch_state(id: ChannelId, path: &str) -> ChannelInfo {
    ChannelInfo {
        id,
        path: path.into(),
        kind: ChannelKind::State { labels: vec!["a".to_string(), "b".to_string()] },
        integer_storage: true,
    }
}

fn ch_scalar_int(id: ChannelId, path: &str) -> ChannelInfo {
    ChannelInfo {
        id,
        path: path.into(),
        kind: ChannelKind::Scalar,
        integer_storage: true,
    }
}

fn layout(version: u32, plots: Vec<PlotSpec>) -> Layout {
    Layout { version, name: "t".into(), plots, markers: vec![], links: vec![] }
}

fn by_id(chs: &[ChannelInfo]) -> HashMap<ChannelId, ChannelInfo> {
    chs.iter().map(|c| (c.id, c.clone())).collect()
}

const THICK_STEP: SignalStyle =
    SignalStyle { line: LineStyle::Step, width: LineWidth::Thick, envelope: false };

#[test]
fn slug_is_filename_safe() {
    assert_eq!(slug("My Layout / v2"), "my-layout-v2");
    assert_eq!(slug("imu_overview"), "imu_overview");
    assert_eq!(slug("  ✨ "), "untitled");
    assert_eq!(slug(""), "untitled");
    assert_eq!(slug("--- ___ ---"), "___");
}

#[test]
fn capture_then_apply_round_trips_plots_and_styles() {
    let chs = vec![
        ch_scalar(0, "imu.accel.x"),
        ch_scalar(1, "imu.accel.y"),
        ch_state(2, "fsm.mode"),
    ];
    let by_id = by_id(&chs);
    let mut reg = PlotRegistry::new();
    let mut sp = ScalarPanel::new("imu");
    for c in chs.iter().filter(|c| matches!(c.kind, ChannelKind::Scalar)) {
        sp.add(c);
    }
    *sp.style_for_mut(0) = THICK_STEP;
    let scalar_pid = reg.insert(PlotKind::Scalar(sp));

    let mut chart = LogicAnalyserPanel::new("fsm");
    chart.add(&chs[2]);
    let state_pid = reg.insert(PlotKind::LogicAnalyser(chart));

    let dock = DockState::new(vec![scalar_pid.0, state_pid.0]);
    let snap = capture("imu overview", &reg, &dock_tabs(&dock), &by_id, &MarkerSet::new());
    assert_eq!(snap.layout.name, "imu overview");
    assert_eq!(snap.layout.plots.len(), 2);
    assert_eq!(snap.layout.version, SCHEMA_VERSION);
    assert_eq!(snap.order, vec![scalar_pid, state_pid]);
    assert_eq!(snap.places, vec![Some(0), Some(1)]);

    let got = apply(&snap.layout, &chs);
    assert_eq!(got.report, ApplyReport::new());

    let mut got_scalar = false;
    let mut got_state = false;
    for id in got.registry.iter_ids() {
        match got.registry.get(id).unwrap() {
            PlotKind::Scalar(p) => {
                assert_eq!(p.title, "imu");
                assert_eq!(p.channels, vec![0, 1]);
                assert_eq!(p.style_for(0), THICK_STEP);
                got_scalar = true;
            }
            PlotKind::LogicAnalyser(p) => {
                assert_eq!(p.lanes.len(), 1);
                assert_eq!(p.lanes[0].ch, 2);
                assert_eq!(p.lanes[0].mode, LaneMode::Named);
                got_state = true;
            }
            PlotKind::XY(_) => panic!("unexpected XY"),
            PlotKind::LogView(_) => panic!("unexpected log view"),
        }
    }
    assert!(got_scalar && got_state);
}

#[test]
fn apply_drops_unknown_channels_and_counts_them() {
    let chs = vec![ch_scalar(0, "imu.accel.x")];
    let snap = layout(
        SCHEMA_VERSION,
        vec![
            PlotSpec::Scalar {
                title: "ts".into(),
                channels: vec!["imu.accel.x".into(), "imu.accel.z".into()],
                styles: vec![],
            },
            PlotSpec::LogicAnalyser {
                title: "la".into(),
                lanes: vec![LogicLaneSpec {
                    ch_path: "nope.state".into(),
                    radix: LabelRadix::Hex,
                    mode: LaneMode::Named,
                }],
            },
            PlotSpec::Xy {
                title: "xy".into(),
                x: "imu.accel.x".into(),
                y: "missing.y".into(),
                trail_ns: None,
            },
        ],
    );
    let got = apply(&snap, &chs);
    assert_eq!(got.report.missing_count(), 3);
    assert_eq!(got.report.dropped_plots, 1);
    assert_eq!(got.registry.iter_ids().len(), 2);
}

#[test]
fn legacy_timeseries_layout_migrates_to_scalar_and_logic_analyser() {
    let layout = layout(
        1,
        vec![PlotSpec::TimeSeries {
            title: "combined".into(),
            scalars: vec!["imu.accel.x".into(), "imu.accel.y".into()],
            states: vec!["fsm.mode".into()],
            styles: vec![("imu.accel.x".into(), THICK_STEP)],
        }],
    );
    assert_eq!(layout.version, 1);

    let chs = vec![
        ch_scalar(0, "imu.accel.x"),
        ch_scalar(1, "imu.accel.y"),
        ch_state(2, "fsm.mode"),
    ];
    let got = apply(&layout, &chs);
    assert_eq!(got.report.missing_count(), 0);
    assert_eq!(got.report.dropped_plots, 0);
    assert_eq!(got.companions, vec![(PlotId(0), PlotId(1))]);

    let mut got_scalar = false;
    let mut got_state = false;
    for id in got.registry.iter_ids() {
        match got.registry.get(id).unwrap() {
            PlotKind::Scalar(p) => {
                assert_eq!(p.title, "combined");
                assert_eq!(p.channels, vec![0, 1]);
                assert_eq!(p.style_for(0).line, LineStyle::Step);
                assert!(!p.style_for(0).envelope);
                got_scalar = true;
            }
            PlotKind::LogicAnalyser(p) => {
                assert!(p.title.contains("combined"));
                assert_eq!(p.lanes.len(), 1);
                assert_eq!(p.lanes[0].ch, 2);
                assert_eq!(p.lanes[0].mode, LaneMode::Named);
                got_state = true;
            }
            PlotKind::XY(_) => panic!("unexpected XY"),
            PlotKind::LogView(_) => panic!("unexpected log view"),
        }
    }
    assert!(got_scalar, "scalar half should have been produced");
    assert!(got_state, "state half should have been produced");
}

#[test]
fn legacy_timeseries_with_no_states_only_produces_scalar() {
    let layout = layout(
        1,
        vec![PlotSpec::TimeSeries {
            title: "s".into(),
            scalars: vec!["a.x".into()],
            states: vec![],
            styles: vec![],
        }],
    );
    let chs = vec![ch_scalar(0, "a.x")];
    let got = apply(&layout, &chs);
    assert_eq!(got.registry.iter_ids().len(), 1);
    let only = got.registry.iter_ids()[0];
    assert!(matches!(got.registry.get(only), Some(PlotKind::Scalar(_))));
}

#[test]
fn v3_mixed_mode_lanes_round_trip() {
    let chs = vec![ch_state(0, "fsm.mode"), ch_scalar_int(1, "flags")];
    let by_id = by_id(&chs);
    let mut reg = PlotRegistry::new();
    let mut la = LogicAnalyserPanel::new("mixed");
    la.add(&chs[0]);
    la.add(&chs[1]);
    *la.radix_for_mut(1).unwrap() = LabelRadix::Bin;
    let pid = reg.insert(PlotKind::LogicAnalyser(la));

    let dock = DockState::new(vec![pid.0]);
    let snap = capture("mixed", &reg, &dock_tabs(&dock), &by_id, &MarkerSet::new());
    assert_eq!(snap.layout.version, SCHEMA_VERSION);

    let got = apply(&snap.layout, &chs);
    let pid2 = got.registry.iter_ids()[0];
    match got.registry.get(pid2).unwrap() {
        PlotKind::LogicAnalyser(p) => {
            assert_eq!(p.lanes.len(), 2);
            let by_ch: HashMap<ChannelId, &LogicLane> =
                p.lanes.iter().map(|l| (l.ch, l)).collect();
            assert_eq!(by_ch[&0].mode, LaneMode::Named);
            assert_eq!(by_ch[&1].mode, LaneMode::Numeric);
            assert_eq!(by_ch[&1].radix, LabelRadix::Bin);
        }
        _ => panic!("expected LogicAnalyser"),
    }
}

#[test]
fn v2_layout_migrates_logic_analyser_to_stairs_and_state_chart_to_state() {
    let layout = layout(
        2,
        vec![
            PlotSpec::LogicAnalyser {
                title: "flags".into(),
                lanes: vec![LogicLaneSpec {
                    ch_path: "flags".into(),
                    radix: LabelRadix::Hex,
                    mode: lane_mode_numeric_default(),
                }],
            },
            PlotSpec::StateChart { title: "fsm".into(), lanes: vec!["fsm.mode".into()] },
        ],
    );
    assert_eq!(layout.version, 2);

    let chs = vec![ch_scalar_int(0, "flags"), ch_state(1, "fsm.mode")];
    let got = apply(&layout, &chs);
    assert_eq!(got.report.missing_count(), 0);
    assert_eq!(got.report.dropped_plots, 0);

    let mut got_stairs = false;
    let mut got_state = false;
    for id in got.registry.iter_ids() {
        match got.registry.get(id).unwrap() {
            PlotKind::LogicAnalyser(p) if p.title == "flags" => {
                assert_eq!(p.lanes.len(), 1);
                assert_eq!(p.lanes[0].mode, LaneMode::Numeric);
                got_stairs = true;
            }
            PlotKind::LogicAnalyser(p) if p.title == "fsm" => {
                assert_eq!(p.lanes.len(), 1);
                assert_eq!(p.lanes[0].mode, LaneMode::Named);
                got_state = true;
            }
            _ => panic!("unexpected plot kind in migration result"),
        }
    }
    assert!(got_stairs, "v2 logic_analyser should migrate to Stairs lanes");
    assert!(got_state, "v2 state_chart should migrate to State lanes");
}

#[test]
fn markers_round_trip_through_layout() {
    let mut ms = MarkerSet::new();
    let a = ms.add(1_000, [255, 0, 0]);
    let b = ms.add(2_000, [0, 255, 0]);
    ms.link(a, b, vec![]);
    ms.add(3_000, [0, 0, 255]);

    let reg = PlotRegistry::new();
    let dock: DockState<u64> = DockState::new(vec![]);
    let snap = capture("markers", &reg, &dock_tabs(&dock), &HashMap::new(), &ms).layout;
    assert_eq!(snap.markers.len(), 3);
    assert_eq!(snap.links.len(), 1);
    assert_eq!(snap.links[0].a_index, 0);
    assert_eq!(snap.links[0].b_index, 1);

    let mut ms2 = MarkerSet::new();
    restore_markers(&mut ms2, &snap, &[]);
    assert_eq!(ms2.markers.len(), 3);
    assert_eq!(ms2.links.len(), 1);
    assert_eq!(ms2.links[0].a, ms2.markers[0].id);
    assert_eq!(ms2.links[0].b, ms2.markers[1].id);
}

#[test]
fn v3_layout_without_markers_loads_with_empty_markers() {
    let old = upgrade(layout(3, vec![]));
    assert_eq!(old.version, 3);
    assert!(old.markers.is_empty());
}

#[test]
fn file_names_stand_for_themselves() {
    for name in ["My Layout / v2", "  ✨ ", "a--b", "ÄÖ x", "Z"] {
        let s = slug(name);
        assert_eq!(slug(&s), s);
        assert!(s.chars().all(|c| matches!(c, 'a'..='z' | '0'..='9' | '_' | '-')));
    }
    assert_eq!(file_name_for("Imu Overview"), "imu-overview.json");
}

#[test]
fn versions_up_to_the_present_load() {
    assert!(!version_supported(0));
    for v in 1..=SCHEMA_VERSION {
        assert!(version_supported(v));
    }
    assert!(!version_supported(SCHEMA_VERSION + 1));
}

fn marker(t_ns: u64, chain: Option<u64>) -> MarkerSpec {
    MarkerSpec { t_ns, label: format!("at {t_ns}"), color: [1, 2, 3], chain }
}

#[test]
fn chains_become_links() {
    let markers =
        vec![marker(1, Some(7)), marker(2, None), marker(3, Some(7)), marker(4, Some(8)), marker(5, Some(7))];
    let links = migrate_chains_to_links(&markers);
    let ends: Vec<(usize, usize)> = links.iter().map(|l| (l.a_index, l.b_index)).collect();
    assert_eq!(ends, [(0, 2), (2, 4)]);
    assert!(links.iter().all(|l| l.y_frac == default_y_frac() && l.signal_paths.is_empty()));

    let mut old = layout(4, vec![]);
    old.markers = markers;
    let new = upgrade(old);
    assert_eq!(new.version, SCHEMA_VERSION);
    assert_eq!(new.links.len(), 2);
    assert_eq!(default_y_frac(), HALF);
    assert_eq!(f32::from_bits(HALF), 0.5);
}

#[test]
fn links_keep_their_signals() {
    let chs = vec![ch_scalar(4, "a.x"), ch_scalar(9, "b.y")];
    let by_id = by_id(&chs);
    let mut ms = MarkerSet::new();
    let a = ms.add(1, [0; 3]);
    let b = ms.add(2, [0; 3]);
    ms.link(a, b, vec![9, 4, 77]);
    let snap = capture("s", &PlotRegistry::new(), &vec![], &by_id, &ms).layout;
    assert_eq!(snap.links[0].signal_paths, ["b.y", "a.x"]);
    assert_eq!(snap.links[0].signals_resolved(&chs), vec![9, 4]);
    assert_eq!(snap.links[0].signals_resolved(&chs[..1]), vec![4]);
    let mut back = MarkerSet::new();
    restore_markers(&mut back, &snap, &chs);
    assert_eq!(back.links[0].signals, vec![9, 4]);
    let lost = LinkSpec { a_index: 0, b_index: 9, y_frac: HALF, signal_paths: vec![] };
    let mut broken = layout(5, vec![]);
    broken.markers = vec![marker(1, None)];
    broken.links = vec![lost];
    restore_markers(&mut back, &broken, &chs);
    assert!(back.links.is_empty());
}

#[test]
fn log_views_are_not_saved() {
    let mut reg = PlotRegistry::new();
    let log = reg.insert(PlotKind::LogView(LogViewPanel::new("log", "g")));
    let s = reg.insert(PlotKind::Scalar(ScalarPanel::new("s")));
    let snap = capture("x", &reg, &vec![log, s, log], &HashMap::new(), &MarkerSet::new());
    assert_eq!(snap.order, vec![log, s]);
    assert_eq!(snap.places, vec![None, Some(0)]);
    assert_eq!(snap.layout.plots.len(), 1);
    assert!(spec_from_kind(reg.get(log).unwrap(), &HashMap::new()).is_none());
}

#[test]
fn plots_without_tabs_come_last() {
    let mut reg = PlotRegistry::new();
    let a = reg.insert(PlotKind::Scalar(ScalarPanel::new("a")));
    let b = reg.insert(PlotKind::Scalar(ScalarPanel::new("b")));
    let snap = capture("x", &reg, &vec![b], &HashMap::new(), &MarkerSet::new());
    assert_eq!(snap.order, vec![b, a]);
    assert_eq!(
        snap.layout.plots[1],
        PlotSpec::Scalar { title: "a".into(), channels: vec![], styles: vec![] }
    );
}

#[test]
fn xy_plots_need_two_scalars() {
    let chs = vec![ch_scalar(0, "a"), ch_scalar(1, "b"), ch_state(2, "m")];
    let spec = |x: &str, y: &str| PlotSpec::Xy {
        title: "t".into(),
        x: x.into(),
        y: y.into(),
        trail_ns: Some(5),
    };
    let got = apply(&layout(5, vec![spec("a", "b"), spec("a", "m")]), &chs);
    assert_eq!(got.ids, vec![Some(PlotId(0)), None]);
    assert_eq!(got.report.missing_paths, ["m"]);
    assert_eq!(got.fallback_tabs(), vec![PlotId(0)]);
    assert_eq!(apply(&layout(5, vec![]), &chs).fallback_tabs(), vec![PlotId(0)]);
    match got.registry.get(PlotId(0)) {
        Some(PlotKind::XY(XYPlot { x, y, trail_ns, .. })) => {
            assert_eq!((*x, *y, *trail_ns), (0, 1, Some(5)));
        }
        other => panic!("{other:?}"),
    }
}

#[test]
fn named_lanes_need_labels() {
    let chs = vec![ch_scalar_int(0, "n"), ch_scalar(1, "f")];
    let lane = |p: &str| LogicLaneSpec {
        ch_path: p.into(),
        radix: LabelRadix::Dec,
        mode: LaneMode::Named,
    };
    let spec = PlotSpec::LogicAnalyser {
        title: "l".into(),
        lanes: vec![lane("n"), lane("n"), lane("f")],
    };
    let got = apply(&layout(5, vec![spec]), &chs);
    assert_eq!(got.report.missing_paths, ["f"]);
    match got.registry.get(PlotId(0)) {
        Some(PlotKind::LogicAnalyser(p)) => {
            assert_eq!(p.lanes.len(), 1);
            assert_eq!(p.lanes[0].mode, LaneMode::Numeric);
            assert_eq!(p.lanes[0].radix, LabelRadix::Dec);
        }
        other => panic!("{other:?}"),
    }
}

#[test]
fn suffix_names_the_first_missing_paths() {
    let mut r = ApplyReport::new();
    assert_eq!(format_apply_suffix(&r, " (", ")"), "");
    r.add_missing("imu.gyro.x");
    r.add_missing("imu.gyro.x");
    assert_eq!(format_apply_suffix(&r, " (", ")"), " (1 unknown channel(s): imu.gyro.x)");
    r.add_missing("imu.gyro.y");
    assert_eq!(
        format_apply_suffix(&r, " (", ")"),
        " (2 unknown channel(s): imu.gyro.x, imu.gyro.y)"
    );
    r.add_missing("imu.gyro.z");
    assert_eq!(
        format_apply_suffix(&r, " \u{2014} ", ""),
        " \u{2014} 3 unknown channel(s): imu.gyro.x, imu.gyro.y, +1 more"
    );
    r.add_missing("w");
    r.dropped_plots = 2;
    assert_eq!(
        format_apply_suffix(&r, " \u{2014} ", ""),
        " \u{2014} 4 unknown channel(s): imu.gyro.x, imu.gyro.y, +2 more; 2 plot(s) dropped"
    );
    let only = ApplyReport { missing_paths: vec![], dropped_plots: 1 };
    assert_eq!(format_apply_suffix(&only, "<", ">"), "<1 plot(s) dropped>");
}
