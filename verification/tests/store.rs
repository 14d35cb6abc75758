use btelem::store::{ChannelKind, MockStore, Sample, StateRun};

/// The value of a sample at `t`.
fn value(s: Option<Sample>, t: u64) -> Option<f64> {
    s.map(|s| match s {
        Sample::Exact(v) => f64::from_bits(v),
        Sample::Between { t_a, v_a, t_b, v_b } => {
            let (a, b) = (f64::from_bits(v_a), f64::from_bits(v_b));
            let frac = (t - t_a) as f64 / (t_b - t_a) as f64;
            a + frac * (b - a)
        }
    })
}

fn bits(v: f64) -> u64 {
    v.to_bits()
}

#[test]
fn empty_store_has_no_bounds() {
    let s = MockStore::new();
    assert!(s.channels().is_empty());
    assert_eq!(s.time_bounds(), None);
    assert_eq!(s.revision(), 0);
}

#[test]
fn revision_bumps_on_register_and_push() {
    let mut s = MockStore::new();
    let r0 = s.revision();
    let ch = s.add_scalar("x");
    let r1 = s.revision();
    assert!(r1 > r0);
    s.push_scalar(ch, 10, bits(1.0));
    assert!(s.revision() > r1);
}

#[test]
fn scalar_query_returns_raw_under_budget() {
    let mut s = MockStore::new();
    let ch = s.add_scalar("x");
    for i in 0..5u64 {
        s.push_scalar(ch, i * 10, bits(i as f64));
    }
    let buckets = s.query_scalar(ch, 0, 100, 10);
    assert_eq!(buckets.len(), 5);
    assert_eq!(buckets[0].t, 0);
    assert_eq!(f64::from_bits(buckets[0].min), 0.0);
    assert_eq!(f64::from_bits(buckets[4].max), 4.0);
}

#[test]
fn scalar_query_downsamples_min_max_envelope() {
    let mut s = MockStore::new();
    let ch = s.add_scalar("x");
    for i in 0..1000u64 {
        let v = if i % 2 == 0 { i as f64 } else { -(i as f64) };
        s.push_scalar(ch, i, bits(v));
    }
    let buckets = s.query_scalar(ch, 0, 1000, 10);
    assert!(buckets.len() <= 10);
    for b in &buckets {
        assert!(f64::from_bits(b.min) <= f64::from_bits(b.max));
    }
    let g_min = buckets.iter().map(|b| f64::from_bits(b.min)).fold(f64::INFINITY, f64::min);
    let g_max = buckets.iter().map(|b| f64::from_bits(b.max)).fold(f64::NEG_INFINITY, f64::max);
    assert!(g_min <= -900.0);
    assert!(g_max >= 900.0);
}

#[test]
fn state_runs_coalesce_and_query() {
    let mut s = MockStore::new();
    let ch = s.add_state("fsm", &["idle", "run", "fault"]);
    s.push_state(ch, 0, 0);
    s.push_state(ch, 10, 0);
    s.push_state(ch, 20, 1);
    s.push_state(ch, 30, 1);
    s.push_state(ch, 40, 2);
    let runs = s.query_state(ch, 0, 100);
    assert_eq!(runs.len(), 3);
    assert_eq!(runs[0].value, 0);
    assert_eq!(runs[1].value, 1);
    assert_eq!(runs[2].value, 2);
}

#[test]
fn sample_at_interpolates_scalar() {
    let mut s = MockStore::new();
    let ch = s.add_scalar("x");
    s.push_scalar(ch, 0, bits(0.0));
    s.push_scalar(ch, 100, bits(10.0));
    assert_eq!(value(s.sample_at(ch, 50), 50), Some(5.0));
    assert_eq!(value(s.sample_at(ch, 0), 0), Some(0.0));
    assert_eq!(value(s.sample_at(ch, 100), 100), Some(10.0));
    assert_eq!(value(s.sample_at(ch, 200), 200), None);
}

#[test]
fn sample_at_state_returns_run_value() {
    let mut s = MockStore::new();
    let ch = s.add_state("fsm", &["a", "b"]);
    s.push_state(ch, 0, 0);
    s.push_state(ch, 50, 1);
    s.push_state(ch, 100, 0);
    assert_eq!(value(s.sample_at(ch, 25), 25), Some(0.0));
    assert_eq!(value(s.sample_at(ch, 75), 75), Some(1.0));
    assert_eq!(value(s.sample_at(ch, 200), 200), None);
}

#[test]
fn sample_count_tracks_pushes() {
    let mut s = MockStore::new();
    let sc = s.add_scalar("x");
    let st = s.add_state("fsm", &["a", "b"]);
    assert_eq!(s.sample_count(sc), 0);
    assert_eq!(s.sample_count(st), 0);
    for i in 0..7u64 {
        s.push_scalar(sc, i * 10, bits(i as f64));
    }
    s.push_state(st, 0, 0);
    s.push_state(st, 50, 1);
    s.push_state(st, 100, 0);
    assert_eq!(s.sample_count(sc), 7);
    assert_eq!(s.sample_count(st), 3);
}

#[test]
fn sample_count_unknown_channel_returns_zero() {
    let s = MockStore::new();
    assert_eq!(s.sample_count(99), 0);
}

#[test]
fn clear_empties_store_and_bumps_revision() {
    let mut s = MockStore::new();
    let sc = s.add_scalar("a");
    s.push_scalar(sc, 0, bits(1.0));
    s.push_scalar(sc, 10, bits(2.0));
    let rev_before = s.revision();
    s.clear();
    assert!(s.channels().is_empty());
    assert_eq!(s.time_bounds(), None);
    assert_eq!(s.sample_count(sc), 0);
    assert!(s.revision() > rev_before);
}

#[test]
fn channels_say_what_was_registered() {
    let mut s = MockStore::new();
    let a = s.add_scalar("imu.x");
    let b = s.add_scalar_int("imu.n");
    let c = s.add_state("fsm.mode", &["off", "on"]);
    let d = s.add_text("log.line");
    let chs = s.channels();
    assert_eq!(chs.len(), 4);
    assert_eq!((chs[0].id, chs[1].id, chs[2].id, chs[3].id), (a, b, c, d));
    assert_eq!(chs[0].path, "imu.x");
    assert!(!chs[0].integer_storage && chs[1].integer_storage);
    assert_eq!(chs[0].kind, ChannelKind::Scalar);
    match &chs[2].kind {
        ChannelKind::State { labels } => assert_eq!(labels, &["off", "on"]),
        other => panic!("{other:?}"),
    }
    assert_eq!(chs[3].kind, ChannelKind::Text);
}

#[test]
fn last_state_is_held_in_queries() {
    let mut s = MockStore::new();
    let ch = s.add_state("fsm", &["a", "b"]);
    s.push_state(ch, 10, 0);
    s.push_state(ch, 20, 1);
    let runs = s.query_state(ch, 1_000, 2_000);
    assert_eq!(runs, vec![StateRun { t_start: 20, t_end: u64::MAX, value: 1 }]);
    assert_eq!(s.query_state(ch, 0, 5), vec![]);
    assert_eq!(s.query_state(77, 0, 5), vec![]);
}

#[test]
fn text_samples_come_back_in_the_window() {
    let mut s = MockStore::new();
    let ch = s.add_text("log.line");
    for i in 0..5u64 {
        s.push_text(ch, i * 10, &format!("line {i}"));
    }
    let got = s.query_text(ch, 10, 40, 10);
    assert_eq!(
        got,
        vec![(10, "line 1".to_string()), (20, "line 2".to_string()), (30, "line 3".to_string())]
    );
    assert_eq!(s.query_text(ch, 0, 100, 2).len(), 2);
    assert_eq!(s.sample_count(ch), 5);
    assert_eq!(s.sample_at(ch, 10), None);
    assert_eq!(s.time_bounds(), Some((0, 40)));
}

#[test]
fn raw_query_gives_pairs() {
    let mut s = MockStore::new();
    let ch = s.add_scalar("x");
    s.push_scalar(ch, 1, bits(-2.5));
    s.push_scalar(ch, 2, bits(3.5));
    assert_eq!(s.query_raw(ch, 0, 10, 10), vec![(1, bits(-2.5)), (2, bits(3.5))]);
    assert_eq!(s.query_raw(ch, 2, 2, 10), vec![]);
    assert_eq!(s.query_raw(ch, 0, 10, 0), vec![]);
}

#[test]
fn value_bounds_span_all_samples() {
    let mut s = MockStore::new();
    let x = s.add_scalar("x");
    let m = s.add_state("m", &["a", "b", "c"]);
    assert_eq!(s.value_bounds(x), None);
    for (t, v) in [(0u64, 4.0f64), (5, -1.5), (9, 2.0)] {
        s.push_scalar(x, t, bits(v));
    }
    s.push_state(m, 0, 2);
    s.push_state(m, 4, 1);
    assert_eq!(s.value_bounds(x), Some((bits(-1.5), bits(4.0))));
    assert_eq!(s.value_bounds(m), Some((bits(1.0), bits(2.0))));
}

#[test]
fn words_remember_their_bits() {
    let mut s = MockStore::new();
    let w = s.add_scalar_int("f");
    let a = s.add_scalar_int("f.a");
    assert_eq!(s.bits_for_word(w), None);
    s.register_word_bits(w, vec![a]);
    assert_eq!(s.bits_for_word(w), Some(vec![a]));
    assert_eq!(s.bits_for_word(a), None);
}

#[test]
fn buckets_are_few_and_in_order() {
    let mut s = MockStore::new();
    let ch = s.add_scalar("x");
    for i in 0..100u64 {
        s.push_scalar(ch, i, bits(i as f64));
    }
    let bs = s.query_scalar(ch, 0, 100, 7);
    assert!(bs.len() <= 7);
    for w in bs.windows(2) {
        assert!(w[0].t < w[1].t);
    }
    assert_eq!(f64::from_bits(bs[0].min), 0.0);
    assert_eq!(f64::from_bits(bs[bs.len() - 1].max), 99.0);
}

#[test]
fn unknown_channels_take_nothing() {
    let mut s = MockStore::new();
    let r = s.revision();
    s.push_scalar(3, 0, bits(1.0));
    s.push_state(3, 0, 1);
    s.push_text(3, 0, "x");
    assert_eq!(s.revision(), r);
    assert_eq!(s.time_bounds(), None);
}

#[test]
fn value_bounds_reach_the_end_of_time() {
    let mut s = MockStore::new();
    let x = s.add_scalar("x");
    s.push_scalar(x, 0, bits(f64::NAN));
    s.push_scalar(x, 5, bits(2.0));
    s.push_scalar(x, u64::MAX, bits(-7.0));
    assert_eq!(s.value_bounds(x), Some((bits(-7.0), bits(2.0))));
    let m = s.add_state("m", &[]);
    for v in [9, 1, 4] {
        s.push_state(m, 0, v);
    }
    assert_eq!(s.value_bounds(m), Some((bits(1.0), bits(9.0))));
    assert_eq!(s.value_bounds(77), None);
}

/// The first times of the groups that a quotient of doubles puts samples into.
fn group_starts(times: &[u64], t0: u64, t1: u64, n: usize) -> Vec<u64> {
    let width = (t1 - t0) as f64 / n as f64;
    let mut last = -1i64;
    let mut out = Vec::new();
    for &t in times {
        let part = ((t - t0) as f64 / width).floor() as i64;
        if part != last {
            out.push(t);
            last = part;
        }
    }
    out
}

fn bucket_starts(times: &[u64], t0: u64, t1: u64, n: usize) -> Vec<u64> {
    let mut s = MockStore::new();
    let ch = s.add_scalar("x");
    for (i, &t) in times.iter().enumerate() {
        s.push_scalar(ch, t, bits(i as f64));
    }
    s.query_scalar(ch, t0, t1, n).iter().map(|b| b.t).collect()
}

#[test]
fn parts_are_quotients_of_doubles() {
    let times: Vec<u64> = (0..18).collect();
    let got = bucket_starts(&times, 0, 18, 14);
    assert!(got.contains(&8) && !got.contains(&9) && got.contains(&10));
    let mut seed = 12345u64;
    let mut next = || {
        seed = seed.wrapping_mul(6364136223846793005).wrapping_add(1442695040888963407);
        seed >> 11
    };
    for round in 0..400 {
        let shift = next() % 50;
        let t0 = next() >> shift;
        let span = (next() >> (next() % 52)) + 40;
        let mut times: Vec<u64> = (0..60).map(|_| t0 + next() % span).collect();
        times.sort();
        let n = 1 + (next() % 50) as usize;
        let want = group_starts(&times, t0, t0 + span, n);
        if want.len() <= n {
            assert_eq!(bucket_starts(&times, t0, t0 + span, n), want, "round {round}");
        }
    }
}

#[test]
fn samples_past_the_last_part_join_it_where_buckets_are_short() {
    let end = 1u64 << 60;
    assert_eq!(group_starts(&[0, end / 2, end - 1], 0, end, 2).len(), 3);
    assert_eq!(bucket_starts(&[0, end / 2, end - 1], 0, end, 2), [0, end / 2]);
    assert_eq!(bucket_starts(&[0, 1, end - 1], 0, end, 2), [0, end - 1]);
    let times = [0, 1, end - end / 8, end - 1];
    assert_eq!(group_starts(&times, 0, end, 3), [0, end - end / 8, end - 1]);
    assert_eq!(bucket_starts(&times, 0, end, 3), [0, end - end / 8, end - 1]);
}
