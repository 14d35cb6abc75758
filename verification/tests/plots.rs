use std::collections::{BTreeSet, HashMap, HashSet};

use btelem::camera::{Camera, TimeBase};
use btelem::colours::{marker_colour, palette, MARKER_PALETTE};
use btelem::drops::{DragPayload, StateLaneMode, XYDragAccumulator};
use btelem::grouping::group_by_struct;
use btelem::ingest::ReplayCounts;
use btelem::keys::{choose_time_base, is_due, over, press_keys, KeyPresses, KeyState, ViewCommand};
use btelem::lanes::{
    clip_runs, complete_state_runs, format_logic_value, heat_of, lane_groups, lane_mode_for,
    lane_range, numeric_runs, scalar_lane_runs, state_lane_runs, state_logic_runs, u32_of_f64,
    LogicRun,
};
use btelem::markers::MarkerSet;
use btelem::num::{f64_of_f32, f64_of_i64, f64_of_u64, i64_of_f64, number_below, number_equal};
use btelem::numtext::{format_fixed, format_scalar_value};
use btelem::panels::{
    LabelRadix, LaneMode, LineStyle, LogicAnalyserPanel, LogicLane, PlotId, PlotKind,
    PlotRegistry, ScalarPanel, XYPlot,
};
use btelem::pointer::{
    click_markers, click_signals, lane_drag_pans, nearest, plot_drag_pans, Dragging, MarkerClick,
};
use btelem::signals::{
    draws_line, draws_points, link_readouts, panel_signals, point_at, reading_label,
    step_polyline, value_extent, xy_points,
};
use btelem::store::{ChannelId, ChannelInfo, ChannelKind, MockStore, Sample, StateRun};
use btelem::tree::{
    drag_payload, drag_preview, group_counts, group_heading, prune_selection, row_label,
    visible_channels,
};
use btelem::workspace::{
    close_plots, cursor_row, default_plots, discard_question, numbered_title, opened_message,
    plot_channels, plots_on_tabs, rename_plot, samples_per_channel, saved_message,
};

fn bits(v: f64) -> u64 {
    v.to_bits()
}

fn by_id_map(store: &MockStore) -> HashMap<ChannelId, ChannelInfo> {
    store.channels().into_iter().map(|c| (c.id, c)).collect()
}

fn run(t_start: u64, t_end: u64, value: i64) -> LogicRun {
    LogicRun { t_start, t_end, value }
}

/// Doubles of many sizes.
fn doubles() -> Vec<f64> {
    let mut out = vec![
        0.0,
        -0.0,
        1.0,
        -1.0,
        0.5,
        0.1,
        1e-7,
        5e-7,
        1.5e-6,
        2.5e-6,
        0.0000005,
        123456.789,
        1e15,
        1e22,
        -9.87e30,
        f64::MAX,
        f64::MIN_POSITIVE,
        5e-324,
        f64::INFINITY,
        f64::NEG_INFINITY,
        f64::NAN,
        4503599627370496.5,
        9007199254740993.0,
        1.9999995,
        0.9999995,
        99.9999999,
    ];
    let mut x = 88172645463325252u64;
    for _ in 0..500 {
        x ^= x << 13;
        x ^= x >> 7;
        x ^= x << 17;
        out.push(f64::from_bits(x));
        out.push((x >> 20) as f64 / 65536.0);
        out.push((x >> 44) as f64 / 2000000.0);
    }
    out
}

#[test]
fn numbers_print_like_decimal_output() {
    for v in doubles() {
        let fixed = format!("{v:.6}");
        assert_eq!(format_fixed(v.to_bits()), fixed, "{v:e}");
        let mut s = fixed;
        while s.contains('.') && s.ends_with('0') {
            s.pop();
        }
        if s.ends_with('.') {
            s.pop();
        }
        assert_eq!(format_scalar_value(v.to_bits()), s, "{v:e}");
    }
}

#[test]
fn numbers_convert_like_casts() {
    for v in doubles() {
        assert_eq!(i64_of_f64(v.to_bits()), v as i64, "{v:e}");
        assert_eq!(u32_of_f64(v.to_bits()), v as u32, "{v:e}");
        let n = v.to_bits();
        assert_eq!(f64_of_u64(n), (n as f64).to_bits());
        assert_eq!(f64_of_i64(n as i64), (n as i64 as f64).to_bits());
        let single = f32::from_bits((n >> 32) as u32);
        if !single.is_nan() {
            assert_eq!(f64_of_f32(single.to_bits()), (single as f64).to_bits());
        }
        for w in [0.0, 1.0, -3.5, f64::NAN] {
            assert_eq!(number_below(v.to_bits(), w.to_bits()), v < w);
            assert_eq!(number_equal(v.to_bits(), w.to_bits()), v == w);
        }
    }
}

#[test]
fn state_lanes_reach_the_right_edge() {
    let mut s = MockStore::new();
    let m = s.add_state("m", &["a", "b"]);
    assert!(state_lane_runs(&s, m, 0, 100).is_empty());
    s.push_state(m, 10, 1);
    s.push_state(m, 20, 0);
    let runs = state_lane_runs(&s, m, 5, 100);
    assert_eq!(runs.len(), 2);
    assert!(runs[1].t_end >= 100);
    assert_eq!(state_logic_runs(&s, m, 5, 100)[0], run(10, 20, 1));
    let held = complete_state_runs(vec![], Some(3), 7, 9);
    assert_eq!(held, vec![StateRun { t_start: 7, t_end: 9, value: 3 }]);
    let short = vec![StateRun { t_start: 1, t_end: 2, value: 3 }];
    assert_eq!(complete_state_runs(short, None, 0, 9)[0].t_end, 9);
    assert!(complete_state_runs(vec![], None, 0, 9).is_empty());
}

#[test]
fn numeric_lanes_have_no_gap_at_the_edges() {
    let samples = vec![(10, bits(1.0)), (20, bits(1.9)), (30, bits(2.0)), (40, bits(1.0))];
    assert_eq!(
        numeric_runs(&samples, None, None, 0, 100),
        vec![run(0, 30, 1), run(30, 40, 2), run(40, 100, 1)]
    );
    assert_eq!(
        numeric_runs(&samples, Some(7), None, 0, 100)[0],
        run(0, 10, 7)
    );
    assert_eq!(numeric_runs(&samples, Some(1), None, 10, 100)[0], run(10, 30, 1));
    assert_eq!(numeric_runs(&vec![], Some(1), Some(4), 3, 5), vec![run(3, 5, 4)]);
    assert!(numeric_runs(&vec![], Some(1), None, 3, 5).is_empty());
    let mut s = MockStore::new();
    let x = s.add_scalar_int("x");
    s.push_scalar(x, 4, bits(6.0));
    assert_eq!(scalar_lane_runs(&s, x, 0, 9, 100, None, None), vec![run(0, 9, 6)]);
    assert_eq!(lane_range(&s, x, &vec![]), (6, 6));
}

#[test]
fn runs_are_cut_to_the_window() {
    let runs = vec![run(0, 10, 1), run(10, 20, 2), run(20, 30, 3)];
    assert_eq!(clip_runs(&runs, 5, 20), vec![run(5, 10, 1), run(10, 20, 2)]);
    assert_eq!(heat_of(3, 1, 5), Some((2, 4)));
    assert_eq!(heat_of(3, 5, 5), None);
    assert_eq!(heat_of(0, 1, 5), Some((0, 4)));
    assert_eq!(heat_of(9, 1, 5), Some((4, 4)));
    assert_eq!(heat_of(i64::MAX, i64::MIN, i64::MAX), Some((u64::MAX, u64::MAX)));
}

#[test]
fn many_values_make_a_heatmap() {
    let lane = |n: u32| -> Vec<StateRun> {
        (0..n * 2)
            .map(|i| StateRun { t_start: i as u64, t_end: i as u64 + 1, value: i % n })
            .collect()
    };
    assert_eq!(lane_mode_for(&lane(16)), StateLaneMode::Labels);
    assert_eq!(lane_mode_for(&lane(17)), StateLaneMode::Heatmap);
    assert_eq!(lane_mode_for(&vec![]), StateLaneMode::Labels);
}

#[test]
fn values_print_in_their_radix() {
    for v in [0i64, 1, -1, 255, -255, i64::MAX] {
        assert_eq!(format_logic_value(v, LabelRadix::Dec), v.to_string());
        let sign = if v < 0 { "-" } else { "" };
        let m = v.unsigned_abs();
        assert_eq!(format_logic_value(v, LabelRadix::Hex), format!("{sign}0x{m:X}"));
        assert_eq!(format_logic_value(v, LabelRadix::Bin), format!("{sign}0b{m:b}"));
    }
    assert_eq!(format_logic_value(i64::MIN, LabelRadix::Hex), "-0x8000000000000000");
}

#[test]
fn lanes_stand_by_group_and_path() {
    let mut s = MockStore::new();
    let b2 = s.add_scalar_int("b.y");
    let a = s.add_scalar_int("a.z");
    let b1 = s.add_scalar_int("b.x");
    let by_id = by_id_map(&s);
    let lane = |ch| LogicLane { ch, mode: LaneMode::Numeric, radix: LabelRadix::Hex };
    let lanes = vec![lane(b2), lane(99), lane(a), lane(b1)];
    let groups = lane_groups(&lanes, &by_id);
    assert_eq!(
        groups,
        vec![
            ("a".to_string(), vec![2]),
            ("b".to_string(), vec![3, 0]),
            (String::new(), vec![1])
        ]
    );
}

#[test]
fn signals_have_the_colour_of_their_place() {
    let mut s = MockStore::new();
    let a = s.add_scalar("g.a");
    let b = s.add_scalar("g.b");
    let c = s.add_scalar("g.c");
    s.push_scalar(a, 1, bits(4.0));
    s.push_scalar(c, 1, bits(-2.0));
    s.push_scalar(c, 2, bits(9.0));
    let by_id = by_id_map(&s);
    let mut p = ScalarPanel::new("p");
    for ch in [a, b, c] {
        p.add(&by_id[&ch]);
    }
    p.selected_signals.insert(c);
    let got = panel_signals(&s, &by_id, &p, 0, 10, 64);
    assert_eq!(got.len(), 2);
    assert_eq!((got[0].ch, got[0].colour, got[0].selected), (a, palette(0), false));
    assert_eq!((got[1].ch, got[1].colour, got[1].selected), (c, palette(2), true));
    assert_eq!(got[1].name, "g.c");
    assert_eq!(value_extent(&got), (bits(-2.0), bits(9.0)));
    assert_eq!(value_extent(&vec![]), (bits(f64::INFINITY), bits(f64::NEG_INFINITY)));
    assert_eq!(reading_label(&got, c, [1, 2, 3]), ("c".to_string(), palette(2)));
    assert_eq!(reading_label(&got, b, [1, 2, 3]), ("?".to_string(), [1, 2, 3]));
}

#[test]
fn styles_decide_what_is_drawn() {
    assert!(draws_line(LineStyle::Line) && draws_line(LineStyle::Step));
    assert!(draws_line(LineStyle::PointsLine) && !draws_line(LineStyle::Points));
    assert!(draws_points(LineStyle::Points, 1000) && draws_points(LineStyle::PointsLine, 1000));
    assert!(draws_points(LineStyle::Line, 39) && !draws_points(LineStyle::Line, 40));
    assert!(!draws_points(LineStyle::Step, 40));
    let p = vec![(0, 5), (10, 6), (20, 7)];
    assert_eq!(step_polyline(&p), vec![(0, 5), (10, 5), (10, 6), (20, 6), (20, 7)]);
    assert!(step_polyline(&vec![]).is_empty());
    let times: Vec<u64> = [1.0, 2.0, 3.0].iter().map(|&t| bits(t)).collect();
    assert_eq!(point_at(&times, bits(1.5)), 1);
    assert_eq!(point_at(&times, bits(2.0)), 1);
    assert_eq!(point_at(&times, bits(9.0)), 2);
}

#[test]
fn xy_points_need_both_channels() {
    let mut s = MockStore::new();
    let x = s.add_scalar("x");
    let y = s.add_scalar("y");
    for t in 0..4u64 {
        s.push_scalar(x, t * 10, bits(t as f64));
    }
    s.push_scalar(y, 10, bits(7.0));
    s.push_scalar(y, 30, bits(9.0));
    let xy = XYPlot { title: "xy".to_string(), x, y, trail_ns: None };
    let got = xy_points(&s, &xy, 0, 100);
    let at: Vec<u64> = got.iter().map(|(b, _)| b.t).collect();
    assert_eq!(at, [10, 20, 30]);
    assert_eq!(got[0].1, Sample::Exact(bits(7.0)));
    assert!(matches!(got[1].1, Sample::Between { t_a: 10, t_b: 30, .. }));
}

#[test]
fn xy_trails_end_at_the_latest_sample() {
    let mut s = MockStore::new();
    let x = s.add_scalar("x");
    let y = s.add_scalar("y");
    for t in 0..6u64 {
        s.push_scalar(x, t * 10, bits(t as f64));
        s.push_scalar(y, t * 10, bits(0.0));
    }
    let shown = |trail_ns: Option<u64>, t0: u64, t1: u64| -> Vec<u64> {
        let xy = XYPlot { title: "xy".to_string(), x, y, trail_ns };
        xy_points(&s, &xy, t0, t1).iter().map(|(b, _)| b.t).collect()
    };
    assert_eq!(shown(None, 0, 100), [0, 10, 20, 30, 40, 50]);
    assert_eq!(shown(Some(20), 0, 100), [40, 50]);
    assert_eq!(shown(Some(21), 0, 100), [30, 40, 50]);
    assert_eq!(shown(Some(1000), 0, 100), [0, 10, 20, 30, 40, 50]);
    assert_eq!(shown(Some(1000), 20, 40), [20, 30]);
    assert!(shown(Some(0), 0, 100).is_empty());
    assert!(shown(Some(20), 0, 30).is_empty());
}

#[test]
fn links_read_both_ends() {
    let mut s = MockStore::new();
    let x = s.add_scalar("x");
    s.push_scalar(x, 0, bits(1.0));
    s.push_scalar(x, 50, bits(2.0));
    let mut m = MarkerSet::new();
    let a = m.add(0, [9, 8, 7]);
    let b = m.add(50, [1, 1, 1]);
    let c = m.add(500, [1, 1, 1]);
    m.link(a, b, vec![x, 99]);
    m.link(b, c, vec![x]);
    let got = link_readouts(&s, &m);
    assert_eq!(got.len(), 2);
    assert_eq!((got[0].t_from, got[0].t_to, got[0].color), (0, 50, [9, 8, 7]));
    assert_eq!(got[0].readings.len(), 1);
    assert_eq!(got[0].readings[0].to, Sample::Exact(bits(2.0)));
    assert!(got[1].readings.is_empty());
}

fn click(marker_mode: bool, shift: bool, hit: Option<u64>, t_ns: Option<u64>) -> MarkerClick {
    MarkerClick { marker_mode, shift, hit, t_ns }
}

#[test]
fn clicks_place_select_and_link_markers() {
    let mut m = MarkerSet::new();
    click_markers(&mut m, click(true, false, None, Some(5)), &vec![]);
    assert_eq!(m.len(), 1);
    let first = m.selected_id().unwrap();
    assert_eq!(m.markers[0].color, MARKER_PALETTE[0]);
    click_markers(&mut m, click(true, true, None, Some(9)), &vec![4]);
    assert_eq!(m.len(), 2);
    assert_eq!(m.links[0].a, first);
    assert_eq!(m.links[0].signals, vec![4]);
    let second = m.selected_id().unwrap();
    assert_eq!(m.links[0].b, second);
    click_markers(&mut m, click(false, false, None, Some(1)), &vec![]);
    assert_eq!(m.selected_id(), None);
    click_markers(&mut m, click(false, false, Some(first), Some(1)), &vec![]);
    assert_eq!(m.selected_id(), Some(first));
    click_markers(&mut m, click(false, true, Some(second), None), &vec![]);
    assert_eq!(m.links.len(), 2);
    click_markers(&mut m, click(false, true, Some(first), None), &vec![]);
    assert_eq!(m.links.len(), 2);
    click_markers(&mut m, click(false, true, None, Some(70)), &vec![]);
    assert_eq!((m.len(), m.links.len()), (3, 3));
    click_markers(&mut m, click(false, true, Some(999), None), &vec![]);
    assert_eq!((m.len(), m.links.len()), (3, 3));
    click_markers(&mut m, click(true, false, None, None), &vec![]);
    assert_eq!(m.len(), 3);
    assert_eq!(marker_colour(7), MARKER_PALETTE[1]);
    assert!(m.has_room());
}

#[test]
fn shift_in_marker_mode_links_to_the_last() {
    let mut m = MarkerSet::new();
    click_markers(&mut m, click(true, true, None, Some(1)), &vec![]);
    assert!(m.links.is_empty());
    m.select(None);
    click_markers(&mut m, click(true, true, None, Some(2)), &vec![]);
    assert_eq!(m.links.len(), 1);
    assert_eq!(m.links[0].a, m.markers[0].id);
}

#[test]
fn drags_move_what_they_hold() {
    let mut m = MarkerSet::new();
    let a = m.add(5, [0; 3]);
    let b = m.add(6, [0; 3]);
    let l = m.link(a, b, vec![]);
    let mut d = Dragging::new();
    assert!(d.primary_free(false) && !d.primary_free(true));
    d.begin(Some(a), Some(l));
    assert_eq!((d.marker, d.link), (Some(a), None));
    assert!(!d.primary_free(false));
    d.drag(&mut m, Some(77), Some(1));
    assert_eq!(m.markers[0].t_ns, 77);
    d.end();
    d.begin(None, Some(l));
    d.drag(&mut m, Some(88), Some(0.25f32.to_bits()));
    assert_eq!(m.markers[0].t_ns, 77);
    assert_eq!(f32::from_bits(m.links[0].y_frac), 0.25);
    d.end();
    assert_eq!((d.marker, d.link), (None, None));
}

#[test]
fn clicks_select_signals() {
    let mut p = ScalarPanel::new("p");
    click_signals(&mut p, true, false, Some(3), false, false);
    click_signals(&mut p, false, true, Some(4), false, false);
    assert_eq!(p.selected_signals, BTreeSet::from([3, 4]));
    click_signals(&mut p, true, false, Some(3), false, false);
    assert_eq!(p.selected_signals, BTreeSet::from([4]));
    click_signals(&mut p, false, false, None, true, false);
    click_signals(&mut p, false, false, None, false, true);
    assert_eq!(p.selected_signals, BTreeSet::from([4]));
    click_signals(&mut p, false, false, None, false, false);
    assert!(p.selected_signals.is_empty());
}

#[test]
fn drags_pan_when_nothing_else_wants_them() {
    assert!(plot_drag_pans(TimeBase::Follow, true, true, false, false));
    assert!(plot_drag_pans(TimeBase::Pan, true, false, true, true));
    assert!(!plot_drag_pans(TimeBase::Pan, true, false, true, false));
    assert!(!plot_drag_pans(TimeBase::Follow, true, false, true, true));
    assert!(!plot_drag_pans(TimeBase::Pan, false, true, true, true));
    assert!(lane_drag_pans(TimeBase::Pan, true, false, false));
    assert!(!lane_drag_pans(TimeBase::Follow, true, true, true));
}

#[test]
fn nearest_is_within_reach() {
    let items = vec![(1, bits(5.0)), (2, bits(3.0)), (3, bits(3.0)), (4, bits(f64::NAN))];
    assert_eq!(nearest(&items, None), Some(2));
    assert_eq!(nearest(&items, Some(bits(2.0))), None);
    assert_eq!(nearest(&items, Some(bits(8.0))), Some(2));
    assert_eq!(nearest(&vec![], None), None);
}

fn no_keys() -> KeyPresses {
    KeyPresses {
        f: false,
        g: false,
        shift: false,
        home: false,
        m: false,
        remove: false,
        escape: false,
    }
}

#[test]
fn double_g_shows_all_data() {
    let mut st = KeyState { pending_g: None, marker_mode: false };
    let mut cam = Camera::default();
    let mut m = MarkerSet::new();
    let mut xy = XYDragAccumulator::default();
    let g = KeyPresses { g: true, ..no_keys() };
    assert_eq!(press_keys(&mut st, &mut cam, &mut m, &mut xy, g, 0), ViewCommand::Stay);
    assert_eq!(press_keys(&mut st, &mut cam, &mut m, &mut xy, g, 700), ViewCommand::ShowAll);
    assert_eq!(st.pending_g, None);
    assert_eq!(press_keys(&mut st, &mut cam, &mut m, &mut xy, g, 1000), ViewCommand::Stay);
    assert_eq!(press_keys(&mut st, &mut cam, &mut m, &mut xy, g, 1701), ViewCommand::Stay);
    let shift_g = KeyPresses { shift: true, ..g };
    assert_eq!(press_keys(&mut st, &mut cam, &mut m, &mut xy, shift_g, 1702), ViewCommand::ZoomIn);
    assert_eq!(st.pending_g, None);
}

#[test]
fn keys_change_modes_and_remove_markers() {
    let mut st = KeyState { pending_g: None, marker_mode: false };
    let mut cam = Camera::default();
    let mut m = MarkerSet::new();
    let mut xy = XYDragAccumulator::default();
    xy.feed(3);
    let a = m.add(1, [0; 3]);
    m.select(Some(a));
    let mut press = |k: KeyPresses, st: &mut KeyState| {
        press_keys(st, &mut cam, &mut m, &mut xy, k, 5);
        (cam.mode, cam.free_bounds_s, m.len(), xy.first)
    };
    let f = KeyPresses { f: true, ..no_keys() };
    assert_eq!(press(f, &mut st).0, TimeBase::Pan);
    assert_eq!(press(f, &mut st).0, TimeBase::Follow);
    press(KeyPresses { m: true, ..no_keys() }, &mut st);
    assert!(st.marker_mode);
    assert_eq!(press(KeyPresses { remove: true, ..no_keys() }, &mut st).2, 0);
    assert_eq!(press(KeyPresses { escape: true, ..no_keys() }, &mut st).3, None);
    assert!(!st.marker_mode);
    press(f, &mut st);
    assert_eq!(press(KeyPresses { home: true, ..no_keys() }, &mut st).0, TimeBase::Follow);
    let mut cam = Camera::default();
    cam.show(bits(1.0), bits(2.0));
    choose_time_base(&mut cam, TimeBase::Follow);
    assert_eq!((cam.mode, cam.free_bounds_s), (TimeBase::Follow, None));
}

#[test]
fn things_expire() {
    assert!(over(0, 501, 500) && !over(0, 500, 500) && !over(9, 3, 0));
    assert!(is_due(None, 0, 1000) && is_due(Some(0), 1000, 1000));
    assert!(!is_due(Some(0), 999, 1000) && !is_due(Some(5), 4, 0));
}

#[test]
fn tree_rows_follow_the_query() {
    let mut s = MockStore::new();
    let b = s.add_scalar("b.Temp");
    let a2 = s.add_state("a.temp", &["x"]);
    let a1 = s.add_text("a.log");
    let chs = s.channels();
    let groups = group_by_struct(&chs);
    assert_eq!(visible_channels(&groups, ""), vec![a1, a2, b]);
    assert_eq!(visible_channels(&groups, "TEMP"), vec![a2, b]);
    assert_eq!(row_label(&chs[0]), "\u{1f4c8} Temp");
    assert_eq!(row_label(&chs[1]), "\u{25ae} temp");
    assert_eq!(row_label(&chs[2]), "\u{1f4dd} log");
    s.push_state(a2, 1, 0);
    s.push_text(a1, 1, "x");
    s.push_text(a1, 2, "y");
    assert_eq!(group_counts(&s, &groups), vec![3, 0]);
    assert_eq!(group_heading("a", 1500), "a  (1.5k)");
}

#[test]
fn selections_forget_lost_channels() {
    let mut s = MockStore::new();
    s.add_scalar("a");
    s.add_scalar("b");
    let chs = s.channels();
    let mut sel = HashSet::from([0, 1, 7]);
    let mut anchor = Some(7);
    prune_selection(&mut sel, &mut anchor, &chs);
    assert_eq!(sel, HashSet::from([0, 1]));
    assert_eq!(anchor, None);
    anchor = Some(1);
    prune_selection(&mut sel, &mut anchor, &chs);
    assert_eq!(anchor, Some(1));
}

#[test]
fn drags_carry_the_selection() {
    let mut s = MockStore::new();
    s.add_scalar("a");
    s.add_state("b", &[]);
    let chs = s.channels();
    let visible = vec![1, 0];
    let none = HashSet::new();
    assert!(matches!(drag_payload(&chs[0], true, &none, &visible), DragPayload::XYSeed(0)));
    assert!(matches!(drag_payload(&chs[1], true, &none, &visible), DragPayload::Channel(1)));
    let both = HashSet::from([0, 1]);
    match drag_payload(&chs[0], true, &both, &visible) {
        DragPayload::Channels(v) => assert_eq!(v, vec![1, 0]),
        other => panic!("{other:?}"),
    }
    assert_eq!(drag_preview(&DragPayload::Channels(vec![1, 0])), "\u{1f4c8} 2 signals");
    assert_eq!(drag_preview(&DragPayload::Channel(1)), "\u{1f4c8} 1 signal");
}

#[test]
fn workspaces_start_with_two_plots() {
    let mut plots = PlotRegistry::new();
    let (a, b) = default_plots(&mut plots);
    assert_eq!(plots.get(a).unwrap().title(), "scalar 1");
    assert_eq!(plots.get(b).unwrap().title(), "logic 2");
    assert_eq!(plots_on_tabs(&vec![b, PlotId(50), a], &plots).len(), 2);
    rename_plot(&mut plots, a, "  speed ");
    assert_eq!(plots.get(a).unwrap().title(), "speed");
    rename_plot(&mut plots, a, " \t ");
    assert_eq!(plots.get(a).unwrap().title(), "speed");
    close_plots(&mut plots, &vec![a, PlotId(99)]);
    assert_eq!(plots.len(), 1);
    let c = plots.insert(PlotKind::LogicAnalyser(LogicAnalyserPanel::new("x")));
    assert_ne!(c, a);
    assert_eq!(numbered_title("log", 12), "log 12");
}

#[test]
fn cursor_reads_values_and_labels() {
    let info = |kind| ChannelInfo {
        id: 0,
        path: "g.v".to_string(),
        kind,
        integer_storage: false,
    };
    let labels = ChannelKind::State { labels: vec!["off".to_string(), "on".to_string()] };
    assert_eq!(cursor_row(&info(ChannelKind::Scalar), Some(bits(1.5))), "  g.v: 1.500000");
    assert_eq!(cursor_row(&info(ChannelKind::Scalar), None), "  g.v: \u{2014}");
    assert_eq!(cursor_row(&info(labels.clone()), Some(bits(1.0))), "  g.v: on");
    assert_eq!(cursor_row(&info(labels), Some(bits(5.0))), "  g.v: 5");
    assert_eq!(cursor_row(&info(ChannelKind::Text), Some(bits(5.0))), "  g.v: \u{2014}");
    let xy = XYPlot { title: String::new(), x: 4, y: 2, trail_ns: None };
    assert_eq!(plot_channels(&PlotKind::XY(xy)), vec![4, 2]);
}

#[test]
fn messages_say_what_happened() {
    let c = ReplayCounts { packets: 3, entries: 12, skipped: 0 };
    assert_eq!(opened_message(c, None), "loaded 3 packets / 12 entries");
    let c = ReplayCounts { skipped: 1, ..c };
    assert_eq!(
        opened_message(c, Some("layout ok")),
        "loaded 3 packets / 12 entries \u{b7} 1 bad packets skipped \u{b7} layout ok"
    );
    assert_eq!(
        discard_question(2, 2048, 5),
        "This will drop 2 packets (2.0 KiB) and reset 5 channels."
    );
    assert_eq!(saved_message(2, 10, "/tmp/x.btlm"), "saved 2 packets (10 B) to /tmp/x.btlm");
}

#[test]
fn samples_are_counted_per_channel() {
    let mut s = MockStore::new();
    let a = s.add_scalar("a");
    let b = s.add_state("b", &[]);
    let c = s.add_text("c");
    for t in 0..5 {
        s.push_scalar(a, t, bits(0.0));
        s.push_state(b, t, (t / 3) as u32);
        s.push_text(c, t, "x");
    }
    assert_eq!(samples_per_channel(&s), vec![5, 2, 5]);
}
