use std::collections::{BTreeSet, HashMap, HashSet};

use btelem::colours::{name_seed, palette, palette_for_name, row_colour, state_colour};
use btelem::logpanel::{click_row, counts_text, select_rows};
use btelem::logview::{
    build_log_rows, filter_rows, row_passes_filters, sample_even_over_time, state_value_at,
    state_value_text, truncate_rows, FilterKind, FilterValue, LogCell, LogRow,
};
use btelem::panels::{ColumnFilter, LogViewPanel};
use btelem::store::{ChannelId, ChannelInfo, ChannelKind, MockStore, StateRun};

fn by_id_map(store: &MockStore) -> HashMap<ChannelId, ChannelInfo> {
    store.channels().into_iter().map(|c| (c.id, c)).collect()
}

fn bits(v: f64) -> u64 {
    v.to_bits()
}

fn one(v: u32) -> ColumnFilter {
    ColumnFilter::EnumSet { allowed: BTreeSet::from([v]) }
}

/// Build a store with `n` log entries: a text `message`, an enum
/// `severity` (toggling), and a scalar `device`. Returns (store, ids).
fn make_log(n: u64) -> (MockStore, ChannelId, ChannelId, ChannelId) {
    let mut store = MockStore::new();
    let msg = store.add_text("log.message");
    let sev = store.add_state("log.severity", &["TRACE", "INFO", "WARN", "ERROR"]);
    let dev = store.add_scalar_int("log.device");
    for i in 0..n {
        let t = (i + 1) * 1000;
        store.push_text(msg, t, &format!("line {i}"));
        let s = if i % 500 == 0 { 3 } else { 1 };
        store.push_state(sev, t, s);
        store.push_scalar(dev, t, bits((i % 4) as f64));
    }
    (store, msg, sev, dev)
}

#[test]
fn entry_centric_no_blank_cells() {
    let (store, msg, sev, dev) = make_log(3000);
    let by_id = by_id_map(&store);
    let rows = build_log_rows(&store, &by_id, &[msg, sev, dev], 0, 4_000_000);
    assert_eq!(rows.len(), 3000, "one row per message entry");
    for row in &rows {
        assert!(row.cells.get(&msg).is_some_and(|c| !c.display.is_empty()));
        assert!(row.cells.contains_key(&sev));
        assert!(row.cells.contains_key(&dev));
    }
}

#[test]
fn filter_finds_rare_event_before_truncation() {
    let (store, msg, sev, _dev) = make_log(3000);
    let by_id = by_id_map(&store);
    let rows = build_log_rows(&store, &by_id, &[msg, sev], 0, 4_000_000);

    let mut filters = HashMap::new();
    filters.insert(sev, one(3));

    let matched: Vec<_> = rows.into_iter().filter(|r| row_passes_filters(r, &filters)).collect();
    assert_eq!(matched.len(), 6, "all ERROR rows found pre-truncation");
}

#[test]
fn filters_and_compose() {
    let (store, msg, sev, dev) = make_log(2000);
    let by_id = by_id_map(&store);
    let rows = build_log_rows(&store, &by_id, &[msg, sev, dev], 0, 3_000_000);

    let mut filters = HashMap::new();
    filters.insert(sev, one(1));
    filters.insert(dev, ColumnFilter::Range { min: Some(bits(2.0)), max: Some(bits(2.0)) });

    let matched: Vec<_> = rows.iter().filter(|r| row_passes_filters(r, &filters)).collect();
    assert!(!matched.is_empty());
    for r in matched {
        assert_eq!(r.cells.get(&sev).unwrap().raw, Some(bits(1.0)));
        assert_eq!(r.cells.get(&dev).unwrap().raw, Some(bits(2.0)));
    }
}

#[test]
fn truncation_fills_tiers_highest_first() {
    let mut store = MockStore::new();
    let msg = store.add_text("log.message");
    let sev = store.add_state("log.severity", &["TRACE", "INFO", "WARN", "ERROR"]);
    let mut t = 0u64;
    for _ in 0..10 {
        t += 1000;
        store.push_text(msg, t, "e");
        store.push_state(sev, t, 3);
    }
    for _ in 0..20 {
        t += 1000;
        store.push_text(msg, t, "w");
        store.push_state(sev, t, 2);
    }
    for _ in 0..1000 {
        t += 1000;
        store.push_text(msg, t, "i");
        store.push_state(sev, t, 1);
    }
    let by_id = by_id_map(&store);
    let rows = build_log_rows(&store, &by_id, &[msg, sev], 0, t + 1000);

    let (shown, total_in) = truncate_rows(rows, Some(sev), 25);
    assert_eq!(total_in, 1030);
    assert!(shown.len() <= 25);
    let count = |v: f64| {
        shown
            .iter()
            .filter(|r| r.cells.get(&sev).and_then(|c| c.raw) == Some(bits(v)))
            .count()
    };
    assert_eq!(count(3.0), 10, "all ERROR kept (whole tier fits)");
    assert!(count(2.0) >= 1 && count(2.0) <= 15, "WARN tier partially filled");
    assert_eq!(count(1.0), 0, "INFO tier dropped (budget exhausted)");
}

#[test]
fn even_over_time_spreads_rows() {
    let (store, msg, _sev, _dev) = make_log(10_000);
    let by_id = by_id_map(&store);
    let rows = build_log_rows(&store, &by_id, &[msg], 0, 11_000_000);
    let (shown, _) = truncate_rows(rows, None, 100);
    assert!(shown.len() <= 100 && shown.len() >= 90);
    let first = shown.first().unwrap().t;
    let last = shown.last().unwrap().t;
    assert!(first < 1_000_000, "coverage starts near window start");
    assert!(last > 9_000_000, "coverage reaches window end");
}

#[test]
fn same_leaf_gets_same_colour_across_groups() {
    assert_eq!(palette_for_name("motor_1.temperature"), palette_for_name("motor_2.temperature"));
    assert_eq!(palette_for_name("a.x.y"), palette_for_name("b.x.y"));
}

#[test]
fn different_leaves_likely_differ() {
    assert_ne!(palette_for_name("motor_1.temperature"), palette_for_name("motor_1.current"));
}

fn row(t: u64, score: Option<f64>) -> LogRow {
    let mut cells = HashMap::new();
    if let Some(s) = score {
        cells.insert(0, LogCell { display: format!("{s}"), raw: Some(bits(s)) });
    }
    LogRow { t, cells }
}

fn times(rows: &[LogRow]) -> Vec<u64> {
    rows.iter().map(|r| r.t).collect()
}

#[test]
fn anchors_fall_back_to_the_first_column() {
    let mut store = MockStore::new();
    let x = store.add_scalar("g.x");
    let m = store.add_state("g.m", &["off", "on"]);
    store.push_scalar(x, 10, bits(1.5));
    store.push_scalar(x, 20, bits(2.0));
    store.push_state(m, 15, 1);
    store.push_state(m, 30, 0);
    let by_id = by_id_map(&store);
    let rows = build_log_rows(&store, &by_id, &[x, m], 0, 100);
    assert_eq!(times(&rows), [10, 20]);
    assert_eq!(rows[0].cells[&x].display, "1.5");
    assert!(!rows[0].cells.contains_key(&m));
    assert_eq!(rows[1].cells[&m].display, "on");
    let rows = build_log_rows(&store, &by_id, &[m, x], 0, 100);
    assert_eq!(times(&rows), [15, 30]);
    assert_eq!(rows[1].cells[&x].raw, Some(bits(2.0)));
    assert!(build_log_rows(&store, &by_id, &[], 0, 100).is_empty());
    assert!(build_log_rows(&store, &by_id, &[99], 0, 100).is_empty());
}

#[test]
fn every_entry_of_one_time_has_a_row() {
    let mut store = MockStore::new();
    let m = store.add_text("g.m");
    let x = store.add_scalar("g.x");
    for (t, s) in [(5, "a"), (5, "b"), (3, "c")] {
        store.push_text(m, t, s);
    }
    for (t, v) in [(5, 1.0), (5, 2.0), (9, 3.0)] {
        store.push_scalar(x, t, bits(v));
    }
    let by_id = by_id_map(&store);
    let rows = build_log_rows(&store, &by_id, &[m, x], 0, 100);
    assert_eq!(times(&rows), [3, 5, 5]);
    let shown: Vec<&str> = rows.iter().map(|r| r.cells[&m].display.as_str()).collect();
    assert_eq!(shown, ["c", "a", "b"]);
    assert!(!rows[0].cells.contains_key(&x));
    assert_eq!(rows[1].cells[&x].raw, Some(bits(2.0)));
    assert_eq!(rows[2].cells[&x].raw, Some(bits(2.0)));
    let rows = build_log_rows(&store, &by_id, &[x], 0, 100);
    let raw: Vec<Option<u64>> = rows.iter().map(|r| r.cells[&x].raw).collect();
    assert_eq!(raw, [Some(bits(1.0)), Some(bits(2.0)), Some(bits(3.0))]);
}

#[test]
fn states_have_labels_while_they_hold() {
    let runs = vec![
        StateRun { t_start: 10, t_end: 20, value: 1 },
        StateRun { t_start: 30, t_end: u64::MAX, value: 7 },
    ];
    assert_eq!(state_value_at(&runs, 5), None);
    assert_eq!(state_value_at(&runs, 10), Some(1));
    assert_eq!(state_value_at(&runs, 25), None);
    assert_eq!(state_value_at(&runs, u64::MAX), Some(7));
    assert_eq!(state_value_at(&vec![], 5), None);
    let labels = vec!["a".to_string(), "b".to_string()];
    assert_eq!(state_value_text(1, &labels), "b");
    assert_eq!(state_value_text(7, &labels), "7");
}

#[test]
fn samples_spread_over_time() {
    let rows: Vec<LogRow> = [0u64, 1, 2, 3, 100, 101, 199].iter().map(|&t| row(t, None)).collect();
    assert_eq!(times(&sample_even_over_time(rows, 2)), [0, 100]);
    let same: Vec<LogRow> = (0..7).map(|_| row(4, None)).collect();
    assert_eq!(sample_even_over_time(same, 3).len(), 3);
    let few: Vec<LogRow> = (0..3).map(|t| row(t, None)).collect();
    assert_eq!(sample_even_over_time(few, 3).len(), 3);
    assert!(sample_even_over_time(vec![row(1, None)], 0).is_empty());
}

#[test]
fn truncation_orders_by_time_then_score() {
    let rows = vec![
        row(1, Some(1.0)),
        row(2, Some(1.0)),
        row(2, Some(5.0)),
        row(3, None),
        row(4, Some(5.0)),
    ];
    let (shown, total) = truncate_rows(rows, Some(0), 4);
    assert_eq!(total, 5);
    assert_eq!(times(&shown), [1, 2, 2, 4]);
    assert_eq!(shown[1].cells[&0].raw, Some(bits(5.0)));
    assert_eq!(shown[2].cells[&0].raw, Some(bits(1.0)));
    assert!(truncate_rows(vec![row(1, None)], Some(0), 0).0.is_empty());
}

#[test]
fn the_last_tier_fills_the_limit() {
    let burst = || [0u64, 1, 2, 1000].iter().map(|&t| row(t, Some(1.0))).collect::<Vec<_>>();
    assert_eq!(times(&truncate_rows(burst(), Some(0), 3).0), [0, 1, 1000]);
    assert_eq!(times(&truncate_rows(burst(), Some(0), 2).0), [0, 1000]);
    assert_eq!(times(&truncate_rows(burst(), None, 3).0), [0, 1000]);
    let same: Vec<LogRow> = (0..7).map(|_| row(4, Some(1.0))).collect();
    assert_eq!(truncate_rows(same, Some(0), 5).0.len(), 5);
}

#[test]
fn higher_scores_are_kept_first() {
    let rows: Vec<LogRow> = (0..60).map(|t| row(t, Some((t % 6) as f64))).collect();
    for max in 0..60 {
        let (shown, _) = truncate_rows(
            (0..60).map(|t| row(t, Some((t % 6) as f64))).collect(),
            Some(0),
            max,
        );
        assert_eq!(shown.len(), max);
        let least = shown.iter().map(|r| f64::from_bits(r.cells[&0].raw.unwrap()) as u64).min();
        for r in &rows {
            let score = f64::from_bits(r.cells[&0].raw.unwrap()) as u64;
            if least.is_some_and(|l| score > l) {
                assert!(shown.iter().any(|s| s.t == r.t));
            }
        }
    }
}

#[test]
fn filters_look_at_their_kind() {
    let text = |n: &str, c| ColumnFilter::Text { needle: n.to_string(), case_sensitive: c };
    assert!(text("ERR", false).accepts(Some(FilterValue::Text("an error"))));
    assert!(!text("ERR", true).accepts(Some(FilterValue::Text("an error"))));
    assert!(!text("x", false).accepts(Some(FilterValue::Num(bits(1.0)))));
    assert!(!text("x", false).accepts(None));
    assert!(!text("", false).is_active());
    let range = |a: Option<f64>, b: Option<f64>| ColumnFilter::Range {
        min: a.map(bits),
        max: b.map(bits),
    };
    assert!(range(Some(-1.0), None).accepts(Some(FilterValue::Num(bits(0.0)))));
    assert!(!range(Some(-1.0), None).accepts(Some(FilterValue::Num(bits(f64::NAN)))));
    assert!(!range(None, Some(1.0)).accepts(Some(FilterValue::Num(bits(1.5)))));
    assert!(!range(None, None).is_active());
    assert!(one(2).accepts(Some(FilterValue::Num(bits(2.9)))));
    assert!(!one(2).accepts(Some(FilterValue::Num(bits(-2.0)))));
    assert!(one(0).is_active());
    let rows = vec![row(1, Some(1.0)), row(2, None)];
    let filters = HashMap::from([(0, range(Some(0.0), None))]);
    assert_eq!(times(&filter_rows(rows, &filters)), [1]);
}

#[test]
fn filter_editors_follow_the_channel() {
    assert!(matches!(FilterKind::from_channel(&ChannelKind::Text), FilterKind::Text));
    assert!(matches!(FilterKind::from_channel(&ChannelKind::Scalar), FilterKind::Numeric));
    let kind = ChannelKind::State { labels: vec!["a".to_string()] };
    match FilterKind::from_channel(&kind) {
        FilterKind::Enum(l) => assert_eq!(l, ["a"]),
        other => panic!("{other:?}"),
    }
}

#[test]
fn empty_filters_are_taken_away() {
    let mut p = LogViewPanel::new("log", "g");
    p.set_text_filter(1, " x ".to_string(), true);
    assert!(p.filters.contains_key(&1));
    p.set_text_filter(1, " \u{3000}\t".to_string(), true);
    assert!(!p.filters.contains_key(&1));
    p.set_range_filter(2, Some(bits(0.0)), None);
    assert!(p.filters.contains_key(&2));
    p.set_range_filter(2, None, None);
    assert!(p.filters.is_empty());
    p.set_enum_filter(3, 3, BTreeSet::from([0, 2]));
    assert!(p.filters.contains_key(&3));
    p.set_enum_filter(3, 3, BTreeSet::from([0, 1, 2]));
    assert!(p.filters.is_empty());
    p.set_enum_filter(3, 2, BTreeSet::from([0, 1, 2]));
    assert!(p.filters.contains_key(&3));
    p.clear_filter(3);
    assert!(p.filters.is_empty());
}

#[test]
fn columns_are_shown_and_hidden() {
    let (store, msg, sev, dev) = make_log(1);
    let by_id = by_id_map(&store);
    let mut p = LogViewPanel::new("log", "log");
    p.columns = vec![msg, sev, 99, dev];
    for i in [0, 2, 3, 3] {
        p.set_column_shown(i, true);
    }
    p.visible.push(8);
    let cols: Vec<(String, bool)> =
        p.visible_columns(&by_id).into_iter().map(|c| (c.label, c.is_text)).collect();
    assert_eq!(cols, [("message".to_string(), true), ("device".to_string(), false)]);
    p.set_column_shown(3, false);
    assert_eq!(p.visible, vec![0, 2, 8]);
    p.set_max_rows(0);
    assert_eq!(p.max_rows, 1);
    p.set_max_rows(70);
    assert_eq!(p.max_rows, 70);
}

#[test]
fn selection_filters_before_it_cuts() {
    let rows: Vec<LogRow> = (0..100).map(|t| row(t, Some((t % 10) as f64))).collect();
    let filters = HashMap::from([(
        0,
        ColumnFilter::Range { min: Some(bits(9.0)), max: None },
    )]);
    let s = select_rows(rows, &filters, None, 20);
    assert_eq!((s.in_window, s.matched, s.rows.len()), (100, 10, 10));
    assert_eq!(
        counts_text(s.rows.len(), s.matched, s.in_window),
        "showing 10 of 10 matched (100 in window)"
    );
    assert_eq!(
        counts_text(5, 10, 100),
        "showing 5 of 10 matched (100 in window) \u{2014} truncated"
    );
}

#[test]
fn clicks_turn_highlights_over() {
    let mut h = HashSet::new();
    click_row(&mut h, 7, true, false);
    assert!(h.contains(&7));
    click_row(&mut h, 7, true, false);
    assert!(h.is_empty());
    click_row(&mut h, 7, true, true);
    assert!(h.contains(&7));
    click_row(&mut h, 7, true, true);
    assert!(h.contains(&7));
}

#[test]
fn colours_are_those_of_the_palette() {
    assert_eq!(palette(0), [76, 114, 176]);
    assert_eq!(palette(9), [100, 182, 205]);
    assert_eq!(palette(13), palette(3));
    let fnv = |s: &str| {
        s.bytes().fold(14695981039346656037u64, |h, b| {
            (h ^ b as u64).wrapping_mul(1099511628211)
        })
    };
    assert_eq!(name_seed("motor.temp é"), fnv("temp é"));
    assert_eq!(name_seed(""), 0xcbf29ce484222325);
    assert_eq!(name_seed("a"), 0xaf63dc4c8601ec8c);
    let h = 77u32.wrapping_mul(2654435761).wrapping_add(5u32.wrapping_mul(40503));
    let mid = |x: u32| (((x & 0xff) + 96) / 2) as u8;
    assert_eq!(state_colour(77, 5), [mid(h >> 16), mid(h >> 8), mid(h)]);
    let r = row(1, Some(2.0));
    assert_eq!(row_colour(&r, Some(0)), Some(state_colour(name_seed("2"), 0)));
    assert_eq!(row_colour(&r, Some(1)), None);
    assert_eq!(row_colour(&r, None), None);
}
