use std::collections::HashMap;

use btelem::camera::{compute_view, Camera, TimeBase};
use btelem::connection::{Connection, Protocol};
use btelem::drops::{
    move_targets, state_lane_mode, tint_for_drop, try_move_channel, DragPayload, DropTint,
    StateLaneMode, XYDragAccumulator, STATE_LABEL_TEXT_LIMIT,
};
use btelem::grouping::{
    channel_group, fit_label, group_by_struct, group_order, group_then_name_order, matches_query,
    strip_group_prefix,
};
use btelem::markers::MarkerSet;
use btelem::panels::{
    LabelRadix, LaneMode, LineStyle, LineWidth, LogViewPanel, LogicAnalyserPanel, PlotKind,
    PlotRegistry, ScalarPanel, SignalStyle, XYPlot,
};
use btelem::rate::RateEstimator;
use btelem::store::{ChannelInfo, ChannelKind};

/// The camera's free bounds in nanoseconds.
fn free_ns(cam: &Camera) -> Option<(u64, u64)> {
    cam.free_bounds_s.map(|(a, b)| {
        let ns = |s: u64| (f64::from_bits(s).max(0.0) * 1e9) as u64;
        (ns(a), ns(b))
    })
}

/// The camera's window, scaled.
fn scaled(cam: &Camera, factor: f64) -> u64 {
    (cam.window_ns as f64 * factor).to_bits()
}

fn per_second(r: &RateEstimator) -> f64 {
    r.rate().map_or(0.0, |(count, ns)| count as f64 / (ns as f64 / 1e9))
}

fn ch(id: u32, path: &str, kind: ChannelKind) -> ChannelInfo {
    let integer_storage = matches!(kind, ChannelKind::State { .. });
    ChannelInfo {
        id,
        path: path.to_string(),
        kind,
        integer_storage,
    }
}
fn scalar(id: u32, path: &str) -> ChannelInfo {
    ch(id, path, ChannelKind::Scalar)
}
fn scalar_int(id: u32, path: &str) -> ChannelInfo {
    let mut c = ch(id, path, ChannelKind::Scalar);
    c.integer_storage = true;
    c
}
fn state(id: u32, path: &str) -> ChannelInfo {
    ch(
        id,
        path,
        ChannelKind::State {
            labels: vec!["A".to_string(), "B".to_string()],
        },
    )
}

// ---- compute_view ----

#[test]
fn follow_locks_right_edge() {
    let cam = Camera {
        mode: TimeBase::Follow,
        window_ns: 10_000_000_000,
        free_bounds_s: None,
    };
    let v = compute_view(&cam, free_ns(&cam), Some((0, 100_000_000_000)));
    assert_eq!(v, Some((90_000_000_000, 100_000_000_000)));
}

#[test]
fn follow_shows_full_window_even_when_data_is_short() {
    // Window is wider than history — left edge should go to 0
    // (window_ns > latest, saturating_sub) so the user sees blank
    // space before the data starts rather than the axis
    // collapsing onto the data span.
    let cam = Camera {
        mode: TimeBase::Follow,
        window_ns: 1_000_000_000_000,
        free_bounds_s: None,
    };
    assert_eq!(compute_view(&cam, free_ns(&cam), Some((1, 50))), Some((0, 50)));
}

#[test]
fn free_uses_explicit_bounds() {
    let cam = Camera {
        mode: TimeBase::Pan,
        window_ns: 10_000_000_000,
        free_bounds_s: Some((1.0f64.to_bits(), 2.0f64.to_bits())),
    };
    let v = compute_view(&cam, free_ns(&cam), Some((0, 100)));
    assert_eq!(v, Some((1_000_000_000, 2_000_000_000)));
}

#[test]
fn timebase_toggles() {
    assert_eq!(TimeBase::Follow.toggle(), TimeBase::Pan);
    assert_eq!(TimeBase::Pan.toggle(), TimeBase::Follow);
}

#[test]
fn no_data_no_view() {
    let cam = Camera::default();
    assert!(compute_view(&cam, free_ns(&cam), None).is_none());
}

// ---- camera ----

#[test]
fn reset_returns_to_follow() {
    let mut cam = Camera {
        mode: TimeBase::Pan,
        window_ns: 1,
        free_bounds_s: Some((1.0f64.to_bits(), 2.0f64.to_bits())),
    };
    cam.reset();
    assert_eq!(cam.mode, TimeBase::Follow);
    assert!(cam.free_bounds_s.is_none());
}

#[test]
fn zoom_window_changes_size_and_clamps() {
    let mut cam = Camera::default(); // 10s
    cam.zoom_window(scaled(&cam, 2.0), None);
    assert_eq!(cam.window_ns, 20_000_000_000);
    cam.zoom_window(scaled(&cam, 0.0), None); // would underflow
    assert!(cam.window_ns >= 1_000_000); // 1ms floor
    cam.zoom_window(scaled(&cam, 1e30), None); // would overflow
    assert!(cam.window_ns <= 3_600_000_000_000); // 1h ceiling
}

#[test]
fn zoom_window_clamps_to_data_span_when_supplied() {
    let mut cam = Camera {
        window_ns: 5_000_000_000, // 5s
        ..Camera::default()
    };
    // Data only covers 2s — zooming out past that should be capped.
    cam.zoom_window(scaled(&cam, 100.0), Some(2_000_000_000));
    assert_eq!(cam.window_ns, 2_000_000_000);
    // And further zoom-out doesn't grow past the cap.
    cam.zoom_window(scaled(&cam, 2.0), Some(2_000_000_000));
    assert_eq!(cam.window_ns, 2_000_000_000);
    // Zoom-in still works (factor < 1).
    cam.zoom_window(scaled(&cam, 0.5), Some(2_000_000_000));
    assert_eq!(cam.window_ns, 1_000_000_000);
}

// ---- grouping / search ----

#[test]
fn grouping_splits_on_first_dot() {
    let cs = [
        scalar(1, "imu.accel[0]"),
        scalar(2, "imu.accel[1]"),
        scalar(3, "sensor.temp"),
        state(4, "status.state"),
    ];
    let g = group_by_struct(&cs);
    let keys: Vec<&str> = g.iter().map(|e| e.0.as_str()).collect();
    assert_eq!(keys, vec!["imu", "sensor", "status"]);
    assert_eq!(g[0].1.len(), 2);
}

#[test]
fn search_is_case_insensitive_substring() {
    assert!(matches_query("Imu.Accel[0]", "accel"));
    assert!(matches_query("foo", ""));
    assert!(!matches_query("foo", "bar"));
}

// ---- ScalarPanel ----

#[test]
fn scalar_panel_dedupes_and_rejects_states() {
    let mut p = ScalarPanel::new("p1");
    let s = scalar(10, "x.y");
    let st = state(20, "x.s");
    assert!(p.add(&s));
    assert!(!p.add(&s), "duplicate scalar must be rejected");
    assert!(!p.add(&st), "state must be rejected by ScalarPanel");
    assert_eq!(p.channels, vec![10]);
    p.remove(10);
    assert!(p.channels.is_empty());
}

// ---- SignalStyle / ScalarPanel.styles ----

#[test]
fn signal_style_default_is_step_no_envelope() {
    let d = SignalStyle::default();
    assert_eq!(d.line, LineStyle::Step);
    assert_eq!(d.width, LineWidth::Medium);
    assert!(!d.envelope, "envelope off by default");
}

#[test]
fn style_for_returns_default_when_absent() {
    let p = ScalarPanel::new("p");
    assert_eq!(p.style_for(42), SignalStyle::default());
}

#[test]
fn style_for_mut_inserts_default_then_overwrites() {
    let mut p = ScalarPanel::new("p");
    {
        let s = p.style_for_mut(7);
        s.line = LineStyle::Line;
        s.envelope = true;
    }
    let stored = p.style_for(7);
    assert_eq!(stored.line, LineStyle::Line);
    assert!(stored.envelope);
    // Width left at default.
    assert_eq!(stored.width, LineWidth::Medium);
}

#[test]
fn removing_channel_clears_its_style() {
    let mut p = ScalarPanel::new("p");
    let s = scalar(99, "ch");
    p.add(&s);
    p.style_for_mut(99).line = LineStyle::Points;
    assert!(p.styles.contains_key(&99));
    p.remove(99);
    assert!(!p.styles.contains_key(&99));
    assert_eq!(p.style_for(99), SignalStyle::default());
}

#[test]
fn new_trace_inherits_first_channel_style() {
    let mut p = ScalarPanel::new("p");
    let a = scalar(1, "a");
    let b = scalar(2, "b");
    p.add(&a);
    // Override first channel's style.
    *p.style_for_mut(1) = SignalStyle {
        line: LineStyle::Line,
        width: LineWidth::Thick,
        envelope: true,
    };
    // Second channel inherits first's style.
    p.add(&b);
    let inherited = p.style_for(2);
    assert_eq!(inherited.line, LineStyle::Line);
    assert_eq!(inherited.width, LineWidth::Thick);
    assert!(inherited.envelope);
}

#[test]
fn first_trace_gets_default_style_no_inherit() {
    let mut p = ScalarPanel::new("p");
    let a = scalar(1, "a");
    p.add(&a);
    // No explicit style on first channel → no override stored.
    assert!(!p.styles.contains_key(&1));
    assert_eq!(p.style_for(1), SignalStyle::default());
}

// ---- PlotKind / accepts ----

#[test]
fn scalar_plot_only_accepts_scalars() {
    let p = PlotKind::Scalar(ScalarPanel::new("s"));
    assert!(p.accepts(&scalar(1, "a.b")));
    assert!(!p.accepts(&state(2, "a.s")));
}

#[test]
fn xy_only_accepts_scalars() {
    let xy = PlotKind::XY(XYPlot {
        title: "xy".into(),
        x: 1,
        y: 2,
        trail_ns: None,
    });
    assert!(xy.accepts(&scalar(1, "a.b")));
    assert!(!xy.accepts(&state(2, "a.s")));
    assert_eq!(xy.title(), "xy");
}

// ---- LogicAnalyserPanel ----

#[test]
fn logic_analyser_accepts_integers_and_states() {
    let p = PlotKind::LogicAnalyser(LogicAnalyserPanel::new("la"));
    // integer-storage scalar (u32 etc.) is accepted
    assert!(p.accepts(&scalar_int(1, "flags")));
    // state channel (enum / bool / bit) is accepted
    assert!(p.accepts(&state(2, "fsm")));
    // float-storage scalar is rejected
    assert!(!p.accepts(&scalar(3, "imu.x")));
}

#[test]
fn logic_analyser_add_state_defaults_to_named_mode() {
    let mut p = LogicAnalyserPanel::new("la");
    let st = state(2, "fsm");
    assert!(p.add(&st));
    assert_eq!(p.lanes.len(), 1);
    assert_eq!(p.lanes[0].mode, LaneMode::Named);
}

#[test]
fn logic_analyser_add_integer_scalar_defaults_to_numeric() {
    let mut p = LogicAnalyserPanel::new("la");
    let c = scalar_int(7, "flags");
    assert!(p.add(&c));
    assert_eq!(p.lanes[0].mode, LaneMode::Numeric);
    assert_eq!(p.lanes[0].radix, LabelRadix::Hex);
}

#[test]
fn logic_analyser_add_rejects_duplicates() {
    let mut p = LogicAnalyserPanel::new("la");
    let c = scalar_int(7, "flags");
    assert!(p.add(&c));
    assert!(!p.add(&c), "duplicate must be rejected");
    assert_eq!(p.lanes.len(), 1);
}

#[test]
fn logic_analyser_add_rejects_float() {
    let mut p = LogicAnalyserPanel::new("la");
    let f = scalar(8, "imu.x"); // float-storage scalar
    assert!(!p.add(&f));
    assert!(p.lanes.is_empty());
}

#[test]
fn logic_analyser_remove_drops_lane() {
    let mut p = LogicAnalyserPanel::new("la");
    let a = scalar_int(1, "a");
    let b = scalar_int(2, "b");
    p.add(&a);
    p.add(&b);
    p.remove(1);
    assert_eq!(p.lanes.len(), 1);
    assert_eq!(p.lanes[0].ch, 2);
}

#[test]
fn logic_analyser_radix_for_mut_finds_lane() {
    let mut p = LogicAnalyserPanel::new("la");
    let a = scalar_int(1, "a");
    p.add(&a);
    *p.radix_for_mut(1).unwrap() = LabelRadix::Bin;
    assert_eq!(p.lanes[0].radix, LabelRadix::Bin);
    assert!(p.radix_for_mut(99).is_none());
}

#[test]
fn logic_analyser_mode_for_mut_toggles() {
    let mut p = LogicAnalyserPanel::new("la");
    let st = state(5, "fsm");
    p.add(&st);
    assert_eq!(p.lanes[0].mode, LaneMode::Named);
    *p.mode_for_mut(5).unwrap() = LaneMode::Numeric;
    assert_eq!(p.lanes[0].mode, LaneMode::Numeric);
    assert!(p.mode_for_mut(99).is_none());
}

// ---- PlotRegistry ----

#[test]
fn registry_assigns_unique_ids_and_owns_plots() {
    let mut r = PlotRegistry::new();
    let a = r.insert(PlotKind::Scalar(ScalarPanel::new("a")));
    let b = r.insert(PlotKind::Scalar(ScalarPanel::new("b")));
    assert_ne!(a, b);
    assert_eq!(r.len(), 2);
    assert_eq!(r.get(a).unwrap().title(), "a");
    r.remove(a);
    assert!(r.get(a).is_none());
    assert_eq!(r.len(), 1);
}

// ---- XY drag accumulator ----

#[test]
fn xy_accumulator_pairs_two_distinct_drops() {
    let mut acc = XYDragAccumulator::default();
    assert!(acc.feed(1).is_none());
    assert_eq!(acc.feed(2), Some((1, 2)));
    assert!(acc.first.is_none(), "should reset after pairing");
}

#[test]
fn xy_accumulator_ignores_duplicate_first_drop() {
    let mut acc = XYDragAccumulator::default();
    acc.feed(7);
    assert!(acc.feed(7).is_none());
    assert_eq!(acc.first, Some(7));
    assert_eq!(acc.feed(8), Some((7, 8)));
}

#[test]
fn fit_label_passthrough() {
    assert_eq!(fit_label("RUN", 10), "RUN");
    assert_eq!(fit_label("RUN", 3), "RUN");
}

#[test]
fn fit_label_truncates_with_ellipsis() {
    assert_eq!(fit_label("POWER_ON", 5), "POWE…");
    assert_eq!(fit_label("POWER_ON", 2), "P…");
}

#[test]
fn fit_label_too_narrow_yields_empty() {
    assert_eq!(fit_label("POWER_ON", 1), "");
    assert_eq!(fit_label("POWER_ON", 0), "");
}

#[test]
fn xy_accumulator_can_be_cancelled() {
    let mut acc = XYDragAccumulator::default();
    acc.feed(1);
    acc.cancel();
    assert!(acc.first.is_none());
}

// ---- MarkerSet ----

#[test]
fn marker_add_assigns_unique_ids() {
    let mut s = MarkerSet::new();
    let a = s.add(100, [1, 1, 1]);
    let b = s.add(200, [2, 2, 2]);
    assert_ne!(a, b);
    assert_eq!(s.len(), 2);
}

#[test]
fn marker_link_creates_link() {
    let mut s = MarkerSet::new();
    let a = s.add(100, [0; 3]);
    let b = s.add(200, [0; 3]);
    let lid = s.link(a, b, vec![]);
    assert_eq!(s.links.len(), 1);
    let link = s.get_link(lid).unwrap();
    assert_eq!(link.a, a);
    assert_eq!(link.b, b);
}

#[test]
fn marker_add_linked_creates_chain_of_links() {
    let mut s = MarkerSet::new();
    let a = s.add(0, [0; 3]);
    let (b, l1) = s.add_linked_to(a, 10, [0; 3], vec![]).unwrap();
    let (c, l2) = s.add_linked_to(b, 20, [0; 3], vec![]).unwrap();
    assert_eq!(s.links.len(), 2);
    assert_eq!(s.get_link(l1).unwrap().a, a);
    assert_eq!(s.get_link(l1).unwrap().b, b);
    assert_eq!(s.get_link(l2).unwrap().a, b);
    assert_eq!(s.get_link(l2).unwrap().b, c);
}

#[test]
fn marker_remove_cleans_up_links() {
    let mut s = MarkerSet::new();
    let a = s.add(0, [0; 3]);
    let (b, _l) = s.add_linked_to(a, 10, [0; 3], vec![]).unwrap();
    s.remove(a);
    assert!(s.get(a).is_none());
    // Link should have been removed since marker a is gone.
    assert!(s.links.is_empty());
    // Marker b should still exist.
    assert!(s.get(b).is_some());
}

#[test]
fn marker_remove_preserves_unrelated_links() {
    let mut s = MarkerSet::new();
    let a = s.add(0, [0; 3]);
    let (b, _l1) = s.add_linked_to(a, 10, [0; 3], vec![]).unwrap();
    let (c, l2) = s.add_linked_to(b, 20, [0; 3], vec![]).unwrap();
    s.remove(a);
    // Only the a-b link should be removed; b-c link should remain.
    assert_eq!(s.links.len(), 1);
    assert_eq!(s.links[0].id, l2);
    assert_eq!(s.links[0].a, b);
    assert_eq!(s.links[0].b, c);
}

#[test]
fn marker_link_pairs_returns_all_links() {
    let mut s = MarkerSet::new();
    let a = s.add(0, [0; 3]);
    let (b, _) = s.add_linked_to(a, 10, [0; 3], vec![]).unwrap();
    let (c, _) = s.add_linked_to(b, 20, [0; 3], vec![]).unwrap();
    let pairs: Vec<(u64, u64)> =
        s.link_pairs().iter().map(|(x, y, _)| (x.id, y.id)).collect();
    assert_eq!(pairs, vec![(a, b), (b, c)]);
}

#[test]
fn marker_remove_clears_selection_if_selected() {
    let mut s = MarkerSet::new();
    let a = s.add(0, [0; 3]);
    s.select(Some(a));
    s.remove(a);
    assert_eq!(s.selected, None);
}

#[test]
fn marker_select_ignores_unknown_id() {
    let mut s = MarkerSet::new();
    s.select(Some(999));
    assert_eq!(s.selected, None);
}

#[test]
fn marker_link_method() {
    let mut s = MarkerSet::new();
    let a = s.add(0, [0; 3]);
    let b = s.add(10, [0; 3]);
    let lid = s.link(a, b, vec![]);
    let link = s.get_link(lid).unwrap();
    assert_eq!(link.a, a);
    assert_eq!(link.b, b);
}

#[test]
fn marker_many_links_from_one_marker() {
    let mut s = MarkerSet::new();
    let a = s.add(0, [0; 3]);
    let b = s.add(10, [0; 3]);
    let c = s.add(20, [0; 3]);
    let l1 = s.link(a, b, vec![]);
    let l2 = s.link(a, c, vec![]);
    assert_ne!(l1, l2);
    let links: Vec<u64> = s.links_for(a).iter().map(|l| l.id).collect();
    assert!(links.contains(&l1));
    assert!(links.contains(&l2));
}

#[test]
fn marker_unlink_removes_specific_link() {
    let mut s = MarkerSet::new();
    let a = s.add(0, [0; 3]);
    let b = s.add(10, [0; 3]);
    let c = s.add(20, [0; 3]);
    let l1 = s.link(a, b, vec![]);
    let l2 = s.link(a, c, vec![]);
    s.unlink(l1);
    assert!(s.get_link(l1).is_none());
    assert!(s.get_link(l2).is_some());
    assert_eq!(s.links.len(), 1);
}

// ---- Connection ----

#[test]
fn connection_parses_plain_host_port() {
    let c = Connection::parse("10.0.0.5:7000").unwrap();
    assert_eq!(c.protocol, Protocol::Tcp);
    assert_eq!(c.host, "10.0.0.5");
    assert_eq!(c.port, 7000);
}

#[test]
fn connection_parses_protocol_prefix() {
    let c = Connection::parse("udp://1.2.3.4:9").unwrap();
    assert_eq!(c.protocol, Protocol::Udp);
    let s = Connection::parse("serial:///dev/ttyUSB0").unwrap();
    assert_eq!(s.protocol, Protocol::Serial);
    assert_eq!(s.host, "/dev/ttyUSB0");
}

#[test]
fn connection_pretty_round_trips_protocol() {
    let c = Connection {
        host: "h".into(),
        port: 1,
        protocol: Protocol::Udp,
    };
    assert_eq!(c.pretty(), "udp://h:1");
}

// ---- RateEstimator ----

#[test]
fn rate_estimator_computes_count_per_sec() {
    let mut r = RateEstimator::new(10_000_000_000);
    let t0 = 5_000_000_000;
    r.push(t0, 0);
    r.push(t0 + 1_000_000_000, 100);
    let rate = per_second(&r);
    assert!(rate > 99.0 && rate < 101.0, "got {rate}");
}

// ---- try_move_channel ----

#[test]
fn move_channel_between_compatible_scalar_plots() {
    let mut r = PlotRegistry::new();
    let s = scalar(7, "x.y");
    let mut src = ScalarPanel::new("src");
    src.add(&s);
    let from = r.insert(PlotKind::Scalar(src));
    let to = r.insert(PlotKind::Scalar(ScalarPanel::new("dst")));

    assert!(try_move_channel(&mut r, from, to, s.id, &s, None));

    match r.get(from).unwrap() {
        PlotKind::Scalar(p) => assert!(p.channels.is_empty(), "source must be cleared"),
        _ => panic!(),
    }
    match r.get(to).unwrap() {
        PlotKind::Scalar(p) => assert_eq!(p.channels, vec![s.id]),
        _ => panic!(),
    }
}

#[test]
fn move_channel_rejected_by_incompatible_target() {
    let mut r = PlotRegistry::new();
    let s = scalar(1, "x");
    let mut src = ScalarPanel::new("src");
    src.add(&s);
    let from = r.insert(PlotKind::Scalar(src));
    // LogicAnalyser doesn't accept float-storage scalars.
    let to = r.insert(PlotKind::LogicAnalyser(LogicAnalyserPanel::new("dst")));
    assert!(!try_move_channel(&mut r, from, to, s.id, &s, None));
    match r.get(from).unwrap() {
        PlotKind::Scalar(p) => assert_eq!(p.channels, vec![s.id], "source preserved"),
        _ => panic!(),
    }
}

#[test]
fn move_channel_logic_to_logic_keeps_radix() {
    let mut r = PlotRegistry::new();
    let c = scalar_int(3, "flags");
    let mut src = LogicAnalyserPanel::new("src");
    src.add(&c);
    let from = r.insert(PlotKind::LogicAnalyser(src));
    let to = r.insert(PlotKind::LogicAnalyser(LogicAnalyserPanel::new("dst")));
    assert!(try_move_channel(
        &mut r,
        from,
        to,
        c.id,
        &c,
        Some(LabelRadix::Bin)
    ));
    match r.get(to).unwrap() {
        PlotKind::LogicAnalyser(p) => assert_eq!(p.lanes[0].radix, LabelRadix::Bin),
        _ => panic!(),
    }
}

// ---- tint_for_drop ----

#[test]
fn tint_accept_for_compatible_single_channel() {
    let s = scalar(1, "x");
    let mut by_id = HashMap::new();
    by_id.insert(s.id, s.clone());
    let plot = PlotKind::Scalar(ScalarPanel::new("p"));
    assert_eq!(
        tint_for_drop(&DragPayload::Channel(s.id), &plot, &by_id),
        Some(DropTint::Accept)
    );
}

#[test]
fn tint_reject_for_incompatible_single_channel() {
    let st = state(2, "s");
    let mut by_id = HashMap::new();
    by_id.insert(st.id, st.clone());
    let plot = PlotKind::Scalar(ScalarPanel::new("p"));
    assert_eq!(
        tint_for_drop(&DragPayload::Channel(st.id), &plot, &by_id),
        Some(DropTint::Reject)
    );
}

#[test]
fn tint_multi_drag_accepts_if_any_channel_matches() {
    let s = scalar(1, "x");
    let st = state(2, "s");
    let mut by_id = HashMap::new();
    by_id.insert(s.id, s.clone());
    by_id.insert(st.id, st.clone());
    let plot = PlotKind::Scalar(ScalarPanel::new("p"));
    let payload = DragPayload::Channels(vec![st.id, s.id]);
    assert_eq!(tint_for_drop(&payload, &plot, &by_id), Some(DropTint::Accept));
    let payload = DragPayload::Channels(vec![st.id]);
    assert_eq!(tint_for_drop(&payload, &plot, &by_id), Some(DropTint::Reject));
}

#[test]
fn tint_xyseed_returns_none_for_existing_plot() {
    let s = scalar(1, "x");
    let mut by_id = HashMap::new();
    by_id.insert(s.id, s.clone());
    let plot = PlotKind::Scalar(ScalarPanel::new("p"));
    assert_eq!(tint_for_drop(&DragPayload::XYSeed(s.id), &plot, &by_id), None);
}

// ---- state_lane_mode ----

#[test]
fn state_lane_mode_boundary() {
    // Exactly at the limit stays Labels.
    assert_eq!(state_lane_mode(STATE_LABEL_TEXT_LIMIT), StateLaneMode::Labels);
    // One past flips to Heatmap.
    assert_eq!(
        state_lane_mode(STATE_LABEL_TEXT_LIMIT + 1),
        StateLaneMode::Heatmap
    );
    // Sanity points either side.
    assert_eq!(state_lane_mode(0), StateLaneMode::Labels);
    assert_eq!(state_lane_mode(16), StateLaneMode::Labels);
    assert_eq!(state_lane_mode(17), StateLaneMode::Heatmap);
    assert_eq!(state_lane_mode(1000), StateLaneMode::Heatmap);
}

#[test]
fn rate_estimator_drops_samples_outside_window() {
    let mut r = RateEstimator::new(1_000_000_000);
    let t0 = 5_000_000_000;
    r.push(t0, 0);
    r.push(t0 + 500_000_000, 50);
    r.push(t0 + 1_200_000_000, 200);
    // First sample (1.2s old) is evicted; window now spans 0.5..1.2s.
    let rate = per_second(&r);
    assert!((rate - 214.0).abs() < 5.0, "got {rate}"); // 150 over 0.7s
}

// ---- channel_group / strip_group_prefix / group_order ----

#[test]
fn channel_group_basic() {
    assert_eq!(channel_group("motor_1.temperature"), "motor_1");
    assert_eq!(channel_group("flags.f.bit_a"), "flags");
}

#[test]
fn channel_group_edge_cases() {
    assert_eq!(channel_group(""), "");
    assert_eq!(channel_group("nodot"), "nodot");
    assert_eq!(channel_group(".leading"), "");
    assert_eq!(channel_group("trailing."), "trailing");
    assert_eq!(channel_group("a.b.c.d"), "a");
}

#[test]
fn strip_group_prefix_basic() {
    assert_eq!(strip_group_prefix("motor_1.temperature"), "temperature");
    assert_eq!(strip_group_prefix("flags.f.bit_a"), "f.bit_a");
}

#[test]
fn strip_group_prefix_edge_cases() {
    assert_eq!(strip_group_prefix(""), "");
    assert_eq!(strip_group_prefix("nodot"), "nodot");
    assert_eq!(strip_group_prefix(".leading"), "leading");
    assert_eq!(strip_group_prefix("trailing."), "");
    assert_eq!(strip_group_prefix("a.b.c.d"), "b.c.d");
}

#[test]
fn group_order_groups_and_keeps_stable() {
    // Mixed schemas in non-grouped input order; expect stable grouping.
    let chans = [
        scalar(1, "motor_1.temperature"),
        scalar(2, "motor_2.temperature"),
        scalar(3, "motor_1.rpm"),
        scalar(4, "motor_2.rpm"),
        scalar(5, "motor_1.gear"),
    ];
    let groups: Vec<Option<&str>> =
        chans.iter().map(|c| Some(channel_group(&c.path))).collect();
    let order = group_order(&groups);
    let idx: Vec<usize> = order.iter().map(|(i, _)| *i).collect();
    // motor_1 lanes come first (indices 0, 2, 4 in the given order),
    // then motor_2 lanes (1, 3).
    assert_eq!(idx, vec![0, 2, 4, 1, 3]);
    let keys: Vec<&str> = order.iter().map(|(_, k)| k.as_str()).collect();
    assert_eq!(keys, vec!["motor_1", "motor_1", "motor_1", "motor_2", "motor_2"]);
}

#[test]
fn group_order_unresolved_goes_to_end() {
    let groups = vec![Some("b"), None, Some("a"), Some("a"), None];
    let order = group_order(&groups);
    let idx: Vec<usize> = order.iter().map(|(i, _)| *i).collect();
    // "a" group first (stable: idx 2 then 3), then "b" (idx 0), then
    // unresolved (stable: idx 1 then 4).
    assert_eq!(idx, vec![2, 3, 0, 1, 4]);
}

#[test]
fn group_then_name_order_sorts_by_path_within_group() {
    // Drag order intentionally interleaved; expect sort by group,
    // then by full path within group.
    let resolved = vec![
        (Some("motor_1"), "motor_1.rpm"),
        (Some("motor_2"), "motor_2.temperature"),
        (Some("motor_1"), "motor_1.gear"),
        (Some("motor_1"), "motor_1.temperature"),
        (Some("motor_2"), "motor_2.rpm"),
    ];
    let order = group_then_name_order(&resolved);
    let idx: Vec<usize> = order.iter().map(|(i, _)| *i).collect();
    // motor_1: gear (2), rpm (0), temperature (3); motor_2: rpm (4), temperature (1).
    assert_eq!(idx, vec![2, 0, 3, 4, 1]);
}

#[test]
fn group_then_name_order_unresolved_goes_to_end() {
    let resolved = vec![
        (Some("b"), "b.x"),
        (None, ""),
        (Some("a"), "a.z"),
        (Some("a"), "a.y"),
    ];
    let order = group_then_name_order(&resolved);
    let idx: Vec<usize> = order.iter().map(|(i, _)| *i).collect();
    // a.y (3), a.z (2), b.x (0), unresolved (1).
    assert_eq!(idx, vec![3, 2, 0, 1]);
}


#[test]
fn missing_parts_of_an_address_are_the_defaults() {
    let c = Connection::parse("example.org").unwrap();
    assert_eq!((c.host.as_str(), c.port, c.protocol), ("example.org", 4040, Protocol::Tcp));
    let c = Connection::parse("udp://:9").unwrap();
    assert_eq!((c.host.as_str(), c.port, c.protocol), ("127.0.0.1", 9, Protocol::Udp));
    let c = Connection::parse("h:").unwrap();
    assert_eq!((c.host.as_str(), c.port), ("h", 4040));
    assert_eq!(Connection::parse("").unwrap(), Connection::default());
    let c = Connection::parse("fe80::1:80").unwrap();
    assert_eq!((c.host.as_str(), c.port), ("fe80::1", 80));
}

#[test]
fn bad_ports_are_named() {
    for port in ["x", "65536", "-1", "+", "1 ", "\"\n"] {
        let fault = port.parse::<u16>().unwrap_err();
        assert_eq!(
            Connection::parse(&format!("h:{port}")),
            Err(format!("bad port {port:?}: {fault}"))
        );
    }
    assert_eq!(Connection::parse("h:+80").unwrap().port, 80);
    assert_eq!(Connection::parse("h:00080").unwrap().port, 80);
}

#[test]
fn pretty_forms_parse_back() {
    for text in ["tcp://a:1", "udp://b.c:65535", "serial:///dev/ttyUSB0"] {
        let c = Connection::parse(text).unwrap();
        assert_eq!(c.pretty(), text);
    }
}

#[test]
fn move_channel_from_scalar_forgets_radix() {
    let mut r = PlotRegistry::new();
    let c = scalar_int(3, "flags");
    let mut src = ScalarPanel::new("src");
    src.add(&c);
    let from = r.insert(PlotKind::Scalar(src));
    let to = r.insert(PlotKind::LogicAnalyser(LogicAnalyserPanel::new("dst")));
    assert!(try_move_channel(&mut r, from, to, c.id, &c, Some(LabelRadix::Bin)));
    match r.get(to).unwrap() {
        PlotKind::LogicAnalyser(p) => assert_eq!(p.lanes[0].radix, LabelRadix::Hex),
        _ => panic!(),
    }
    match r.get(from).unwrap() {
        PlotKind::Scalar(p) => assert!(p.channels.is_empty()),
        _ => panic!(),
    }
}

#[test]
fn move_channel_onto_xy_or_log_is_refused() {
    let mut r = PlotRegistry::new();
    let c = scalar(7, "x.y");
    let mut src = ScalarPanel::new("src");
    src.add(&c);
    let from = r.insert(PlotKind::Scalar(src));
    let xy = r.insert(PlotKind::XY(XYPlot { title: "xy".into(), x: 1, y: 2, trail_ns: None }));
    let log = r.insert(PlotKind::LogView(LogViewPanel::new("log", "x")));
    for to in [xy, log] {
        assert!(!try_move_channel(&mut r, from, to, 7, &c, None));
    }
    match r.get(from).unwrap() {
        PlotKind::Scalar(p) => assert_eq!(p.channels, vec![7]),
        _ => panic!(),
    }
    assert!(move_targets(&r, from, &c).is_empty());
    let other = r.insert(PlotKind::Scalar(ScalarPanel::new("dst")));
    assert_eq!(move_targets(&r, from, &c), vec![(other, "dst".to_string())]);
}
