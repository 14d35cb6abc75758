use std::collections::{HashMap, HashSet};

use btelem::drops::{add_logic_lane, move_targets};
use btelem::numtext::{fmt_bytes, fmt_capture_stats, fmt_count};
use btelem::panels::{LogicAnalyserPanel, PlotId, PlotKind, PlotRegistry, ScalarPanel};
use btelem::selection::update_selection;
use btelem::store::{ChannelId, ChannelInfo, MockStore};

#[test]
fn small_values_render_plain() {
    assert_eq!(fmt_count(0), "0");
    assert_eq!(fmt_count(42), "42");
    assert_eq!(fmt_count(999), "999");
}

#[test]
fn kilo_mega_giga_suffixes() {
    assert_eq!(fmt_count(1_500), "1.5k");
    assert_eq!(fmt_count(2_300_000), "2.3M");
    assert_eq!(fmt_count(4_500_000_000), "4.5G");
}

fn v() -> Vec<ChannelId> {
    vec![10, 11, 12, 13, 14]
}

#[test]
fn plain_click_replaces_selection_and_sets_anchor() {
    let mut sel = HashSet::from([11]);
    let mut anc = Some(11);
    update_selection(&mut sel, &mut anc, &v(), 13, false, false);
    assert_eq!(sel, HashSet::from([13]));
    assert_eq!(anc, Some(13));
}

#[test]
fn ctrl_click_toggles_membership() {
    let mut sel = HashSet::from([10, 12]);
    let mut anc = Some(10);
    update_selection(&mut sel, &mut anc, &v(), 12, true, false);
    assert_eq!(sel, HashSet::from([10]));
    assert_eq!(anc, Some(12));
    update_selection(&mut sel, &mut anc, &v(), 14, true, false);
    assert_eq!(sel, HashSet::from([10, 14]));
    assert_eq!(anc, Some(14));
}

#[test]
fn shift_click_selects_range_in_visible_order() {
    let mut sel = HashSet::from([11]);
    let mut anc = Some(11);
    update_selection(&mut sel, &mut anc, &v(), 13, false, true);
    assert_eq!(sel, HashSet::from([11, 12, 13]));
    assert_eq!(anc, Some(11));
    update_selection(&mut sel, &mut anc, &v(), 10, false, true);
    assert_eq!(sel, HashSet::from([10, 11]));
}

#[test]
fn shift_click_with_no_anchor_falls_back_to_single() {
    let mut sel = HashSet::new();
    let mut anc: Option<ChannelId> = None;
    update_selection(&mut sel, &mut anc, &v(), 12, false, true);
    assert_eq!(sel, HashSet::from([12]));
    assert_eq!(anc, Some(12));
}

fn by_id_map(store: &MockStore) -> HashMap<ChannelId, ChannelInfo> {
    store.channels().into_iter().map(|c| (c.id, c)).collect()
}

#[test]
fn dropping_word_on_logic_analyser_expands_into_per_bit_lanes() {
    let mut store = MockStore::new();
    let word = store.add_scalar_int("flags.f");
    let bit_a = store.add_scalar_int("flags.f.a");
    let bit_b = store.add_scalar_int("flags.f.b");
    store.register_word_bits(word, vec![bit_a, bit_b]);
    let by_id = by_id_map(&store);

    let mut panel = LogicAnalyserPanel::new("la");
    let info = by_id.get(&word).unwrap().clone();
    add_logic_lane(&mut panel, word, &info, &store, &by_id);

    assert_eq!(panel.lanes.len(), 2);
    assert_eq!(panel.lanes[0].ch, bit_a);
    assert_eq!(panel.lanes[1].ch, bit_b);
    assert!(!panel.lanes.iter().any(|l| l.ch == word));
}

#[test]
fn dropping_plain_int_on_logic_analyser_adds_single_lane() {
    let mut store = MockStore::new();
    let ch = store.add_scalar_int("imu.count");
    let by_id = by_id_map(&store);
    let mut panel = LogicAnalyserPanel::new("la");
    let info = by_id.get(&ch).unwrap().clone();
    add_logic_lane(&mut panel, ch, &info, &store, &by_id);
    assert_eq!(panel.lanes.len(), 1);
    assert_eq!(panel.lanes[0].ch, ch);
}

#[test]
fn dropping_individual_bit_child_on_logic_analyser_adds_single_lane() {
    let mut store = MockStore::new();
    let word = store.add_scalar_int("flags.f");
    let bit_a = store.add_scalar_int("flags.f.a");
    store.register_word_bits(word, vec![bit_a]);
    let by_id = by_id_map(&store);

    let mut panel = LogicAnalyserPanel::new("la");
    let info = by_id.get(&bit_a).unwrap().clone();
    add_logic_lane(&mut panel, bit_a, &info, &store, &by_id);
    assert_eq!(panel.lanes.len(), 1);
    assert_eq!(panel.lanes[0].ch, bit_a);
}

#[test]
fn dropping_word_on_scalar_panel_keeps_word_as_single_trace() {
    let mut store = MockStore::new();
    let word = store.add_scalar_int("flags.f");
    let bit_a = store.add_scalar_int("flags.f.a");
    store.register_word_bits(word, vec![bit_a]);
    let by_id = by_id_map(&store);

    let mut panel = ScalarPanel::new("s");
    let info = by_id.get(&word).unwrap();
    assert!(panel.add(info));
    assert_eq!(panel.channels, vec![word]);
}

#[test]
fn toggling_twice_restores_the_selection() {
    let mut sel = HashSet::from([10, 12]);
    let mut anc = None;
    update_selection(&mut sel, &mut anc, &v(), 13, true, false);
    update_selection(&mut sel, &mut anc, &v(), 13, true, false);
    assert_eq!(sel, HashSet::from([10, 12]));
}

#[test]
fn counts_round_like_decimal_output() {
    for n in [0u64, 1, 999, 1_000, 1_049, 1_050, 1_051, 99_949, 99_950, 999_999, 1_000_000] {
        let want = if n < 1_000 {
            format!("{n}")
        } else if n < 1_000_000 {
            format!("{:.1}k", n as f64 / 1e3)
        } else {
            format!("{:.1}M", n as f64 / 1e6)
        };
        assert_eq!(fmt_count(n), want);
    }
    assert_eq!(fmt_count(u64::MAX), format!("{:.1}G", u64::MAX as f64 / 1e9));
}

#[test]
fn sizes_use_binary_units() {
    assert_eq!(fmt_bytes(1023), "1023 B");
    assert_eq!(fmt_bytes(1024), "1.0 KiB");
    assert_eq!(fmt_bytes(1536), "1.5 KiB");
    assert_eq!(fmt_bytes(5 * 1024 * 1024), "5.0 MiB");
    assert_eq!(fmt_bytes(3 * 1024 * 1024 * 1024 / 2), "1.50 GiB");
    for n in [1_234_567u64, 87_654_321, 10_000_000_000, u64::MAX] {
        let want = if n < 1 << 30 {
            format!("{:.1} MiB", n as f64 / (1u64 << 20) as f64)
        } else {
            format!("{:.2} GiB", n as f64 / (1u64 << 30) as f64)
        };
        assert_eq!(fmt_bytes(n), want);
    }
}

#[test]
fn capture_line_names_what_was_dropped() {
    let mut cap = btelem::capture::Capture::with_capacity(40);
    let packet = || {
        let mut p = vec![0u8; 32];
        p[0] = 1;
        p
    };
    cap.push_packet(packet()).unwrap();
    assert_eq!(fmt_capture_stats(&cap.stats(), 65), "1 packets \u{b7} 32 B \u{b7} 01:05");
    cap.push_packet(packet()).unwrap();
    assert_eq!(
        fmt_capture_stats(&cap.stats(), 3_600),
        "1 packets \u{b7} 32 B \u{b7} 60:00 \u{b7} 1 dropped (ring full)"
    );
}

#[test]
fn move_targets_are_sorted_and_fitted() {
    let mut store = MockStore::new();
    let ch = store.add_scalar("imu.x");
    let info = store.channels().remove(ch as usize);
    let mut plots = PlotRegistry::new();
    let own = plots.insert(PlotKind::Scalar(ScalarPanel::new("own")));
    let a = plots.insert(PlotKind::Scalar(ScalarPanel::new("a")));
    plots.insert(PlotKind::LogicAnalyser(LogicAnalyserPanel::new("logic")));
    let b = plots.insert(PlotKind::Scalar(ScalarPanel::new(
        "a title that is far too long for a menu",
    )));
    let got = move_targets(&plots, own, &info);
    assert_eq!(
        got,
        vec![(a, "a".to_string()), (b, "a title that is far too\u{2026}".to_string())]
    );
    assert_eq!(move_targets(&plots, PlotId(99), &info).len(), 3);
}
