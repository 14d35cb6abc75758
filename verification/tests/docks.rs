use std::collections::HashMap;

use btelem::docks::{dock_or_fallback, dock_tabs, insert_next_to, restore_dock, save_dock};
use btelem::layout::{Layout, PlotSpec, SCHEMA_VERSION};
use btelem::layout_apply::{apply, Applied};
use btelem::layout_save::{capture, Saved};
use btelem::markers::MarkerSet;
use btelem::panels::{LogViewPanel, PlotId, PlotKind, PlotRegistry, ScalarPanel};
use btelem::store::{ChannelInfo, ChannelKind};
use egui::Rect;
use egui_dock::{DockState, Node, NodeIndex};

fn leaves(d: &DockState<u64>) -> Vec<Vec<u64>> {
    d.iter_all_nodes().filter_map(|(_, n)| n.tabs()).map(|t| t.to_vec()).collect()
}

/// Two leaves side by side.
fn two_leaves(left: Vec<u64>, right: Vec<u64>) -> DockState<u64> {
    let mut d = DockState::new(left);
    d.main_surface_mut().split_right(NodeIndex::root(), 0.5, right);
    d
}

fn scalar(title: &str) -> PlotKind {
    PlotKind::Scalar(ScalarPanel::new(title))
}

fn scalar_spec(title: &str) -> PlotSpec {
    PlotSpec::Scalar { title: title.into(), channels: vec![], styles: vec![] }
}

fn saved(reg: &PlotRegistry, d: &DockState<u64>) -> Saved {
    capture("t", reg, &dock_tabs(d), &HashMap::new(), &MarkerSet::new())
}

fn applied(plots: Vec<PlotSpec>) -> Applied {
    let layout =
        Layout { version: SCHEMA_VERSION, name: "t".into(), plots, markers: vec![], links: vec![] };
    apply(&layout, &[])
}

#[test]
fn tabs_come_leaf_by_leaf() {
    assert_eq!(dock_tabs(&DockState::new(vec![7, 3])), vec![PlotId(7), PlotId(3)]);
    assert_eq!(
        dock_tabs(&two_leaves(vec![5, 1], vec![9])),
        vec![PlotId(5), PlotId(1), PlotId(9)]
    );
    let mut windows = DockState::new(vec![1]);
    windows.add_window(vec![2, 3]);
    assert_eq!(dock_tabs(&windows), vec![PlotId(1), PlotId(2), PlotId(3)]);
    assert!(dock_tabs(&DockState::new(vec![])).is_empty());
}

#[test]
fn a_saved_dock_holds_places() {
    let mut reg = PlotRegistry::new();
    let a = reg.insert(scalar("a"));
    let b = reg.insert(scalar("b"));
    let log = reg.insert(PlotKind::LogView(LogViewPanel::new("l", "g")));
    let d = two_leaves(vec![b.0, log.0], vec![a.0]);
    let s = saved(&reg, &d);
    assert_eq!(s.order, vec![b, log, a]);
    let kept = save_dock(&d, &s).expect("whole");
    assert_eq!(leaves(&kept), vec![vec![0], vec![1]]);
}

#[test]
fn a_leaf_without_saved_plots_goes() {
    let mut reg = PlotRegistry::new();
    let a = reg.insert(scalar("a"));
    let log = reg.insert(PlotKind::LogView(LogViewPanel::new("l", "g")));
    let d = two_leaves(vec![log.0], vec![a.0]);
    let kept = save_dock(&d, &saved(&reg, &d)).expect("whole");
    assert_eq!(leaves(&kept), vec![vec![0]]);
}

#[test]
fn docks_survive_layouts() {
    let mut reg = PlotRegistry::new();
    let a = reg.insert(scalar("a"));
    let b = reg.insert(scalar("b"));
    let c = reg.insert(scalar("c"));
    let d = two_leaves(vec![c.0, a.0], vec![b.0]);
    let s = saved(&reg, &d);
    let kept = save_dock(&d, &s).expect("whole");
    assert_eq!(leaves(&kept), vec![vec![0, 1], vec![2]]);
    let got = apply(&s.layout, &[]);
    let back = restore_dock(Some(&kept), &got);
    assert_eq!(leaves(&back), vec![vec![0, 1], vec![2]]);
    let titles: Vec<&str> =
        dock_tabs(&back).iter().map(|id| got.registry.get(*id).unwrap().title()).collect();
    assert_eq!(titles, ["c", "a", "b"]);
}

#[test]
fn lost_plots_lose_their_tabs() {
    let xy = PlotSpec::Xy { title: "x".into(), x: "p".into(), y: "q".into(), trail_ns: None };
    let got = applied(vec![scalar_spec("a"), xy, scalar_spec("b")]);
    assert_eq!(got.ids, vec![Some(PlotId(0)), None, Some(PlotId(1))]);
    let back = restore_dock(Some(&two_leaves(vec![2, 1, 8], vec![0])), &got);
    assert_eq!(leaves(&back), vec![vec![1], vec![0]]);
}

#[test]
fn a_useless_dock_becomes_one_leaf() {
    let got = applied(vec![scalar_spec("a"), scalar_spec("b")]);
    assert_eq!(leaves(&restore_dock(None, &got)), vec![vec![0, 1]]);
    let strange = DockState::new(vec![17, 18]);
    assert_eq!(leaves(&restore_dock(Some(&strange), &got)), vec![vec![0, 1]]);
    assert_eq!(leaves(&restore_dock(None, &applied(vec![]))), vec![vec![0]]);
}

/// A dock whose tree has a root and a left child, and no right one.
fn lopsided(root: Vec<u64>, left: Vec<u64>) -> DockState<u64> {
    let leaf = |tabs| {
        let mut d = DockState::<u64>::new(tabs);
        // The rectangle of a fresh leaf is infinite, which JSON has no number for.
        for (_, node) in d.iter_all_nodes_mut() {
            if let Node::Leaf { rect, viewport, .. } = node {
                *rect = Rect::ZERO;
                *viewport = Rect::ZERO;
            }
        }
        let v = serde_json::to_value(&d).unwrap();
        v.pointer("/surfaces/0/Main/nodes/0").unwrap().clone()
    };
    let mut v = serde_json::to_value(DockState::<u64>::new(vec![])).unwrap();
    let nodes = vec![leaf(root), leaf(left)];
    *v.pointer_mut("/surfaces/0/Main/nodes").unwrap() = serde_json::Value::Array(nodes);
    serde_json::from_value(v).unwrap()
}

#[test]
fn a_lone_leaf_cannot_be_emptied() {
    let mut reg = PlotRegistry::new();
    let a = reg.insert(scalar("a"));
    let log = reg.insert(PlotKind::LogView(LogViewPanel::new("l", "g")));
    let d = lopsided(vec![a.0], vec![log.0]);
    assert!(save_dock(&d, &saved(&reg, &d)).is_none());
    let got = applied(vec![scalar_spec("a"), scalar_spec("b")]);
    let back = restore_dock(Some(&lopsided(vec![1], vec![7])), &got);
    assert_eq!(leaves(&back), vec![vec![0, 1]]);
}

#[test]
fn a_lopsided_dock_is_kept_where_no_leaf_is_emptied() {
    let mut reg = PlotRegistry::new();
    let a = reg.insert(scalar("a"));
    let b = reg.insert(scalar("b"));
    let d = lopsided(vec![b.0], vec![a.0]);
    let kept = save_dock(&d, &saved(&reg, &d)).expect("no leaf is emptied");
    assert_eq!(leaves(&kept), vec![vec![0], vec![1]]);
    let got = applied(vec![scalar_spec("b"), scalar_spec("a")]);
    assert_eq!(leaves(&restore_dock(Some(&kept), &got)), vec![vec![0], vec![1]]);
}

#[test]
fn one_emptied_leaf_takes_no_other_with_it() {
    let got = applied(vec![scalar_spec("a"), scalar_spec("b")]);
    let mut d = two_leaves(vec![0], vec![1]);
    d.main_surface_mut().split_below(NodeIndex(2), 0.5, vec![9]);
    let mut back = leaves(&restore_dock(Some(&d), &got));
    back.sort();
    assert_eq!(back, vec![vec![0], vec![1]]);
}

#[test]
fn the_node_beside_an_emptied_leaf_moves_up() {
    let got = applied(vec![scalar_spec("a"), scalar_spec("b")]);
    let nodes = |d: &DockState<u64>| -> Vec<Option<Vec<u64>>> {
        d.main_surface().iter().map(|n| n.tabs().map(|t| t.to_vec())).collect()
    };
    let mut d = two_leaves(vec![0], vec![1]);
    d.main_surface_mut().split_below(NodeIndex(2), 0.5, vec![9]);
    assert_eq!(nodes(&d)[5..], [Some(vec![1]), Some(vec![9])]);
    let back = restore_dock(Some(&d), &got);
    let want = [None, Some(vec![0]), Some(vec![1]), None, None, None, None];
    assert_eq!(nodes(&back), want);
}

#[test]
fn two_emptied_leaves_take_no_other_with_them() {
    let got = applied(vec![scalar_spec("a"), scalar_spec("b")]);
    for _ in 0..20 {
        let mut d = two_leaves(vec![7], vec![1]);
        d.main_surface_mut().split_below(NodeIndex(2), 0.5, vec![9]);
        d.main_surface_mut().split_below(NodeIndex(1), 0.5, vec![0]);
        let mut back = leaves(&restore_dock(Some(&d), &got));
        back.sort();
        assert_eq!(back, vec![vec![0], vec![1]]);
    }
}

#[test]
fn a_mapped_dock_is_used_while_it_holds_a_tab() {
    let got = applied(vec![scalar_spec("a"), scalar_spec("b"), scalar_spec("c")]);
    assert_eq!(leaves(&dock_or_fallback(two_leaves(vec![2], vec![0]), &got)), [[2], [0]]);
    assert_eq!(leaves(&dock_or_fallback(DockState::new(vec![]), &got)), vec![vec![0, 1, 2]]);
}

#[test]
fn docks_can_be_saved_again() {
    let got = applied(vec![scalar_spec("a"), scalar_spec("b")]);
    let back = restore_dock(Some(&two_leaves(vec![1], vec![5])), &got);
    let again = save_dock(&back, &saved(&got.registry, &back)).expect("paired nodes");
    assert_eq!(leaves(&again), vec![vec![0]]);
}

/// A plot of an early layout that becomes two: values and states.
fn mixed() -> Applied {
    let chs = [
        ChannelInfo {
            id: 0,
            path: "s.x".into(),
            kind: ChannelKind::Scalar,
            integer_storage: false,
        },
        ChannelInfo {
            id: 1,
            path: "s.m".into(),
            kind: ChannelKind::State { labels: vec!["a".to_string()] },
            integer_storage: true,
        },
    ];
    let plots = vec![PlotSpec::TimeSeries {
        title: "t".into(),
        scalars: vec!["s.x".into()],
        states: vec!["s.m".into()],
        styles: vec![],
    }];
    let layout = Layout { version: 1, name: "t".into(), plots, markers: vec![], links: vec![] };
    apply(&layout, &chs)
}

#[test]
fn companions_stand_beside_their_primaries() {
    let got = mixed();
    assert_eq!(got.companions, vec![(PlotId(0), PlotId(1))]);
    let mut back = restore_dock(None, &got);
    assert_eq!(leaves(&back), vec![vec![0]]);
    assert!(insert_next_to(&mut back, PlotId(0), PlotId(1)));
    assert_eq!(leaves(&back), vec![vec![0, 1]]);
}

#[test]
fn tabs_go_to_the_first_leaf_with_the_anchor() {
    let mut d = two_leaves(vec![3, 4], vec![5, 4]);
    d.add_window(vec![6]);
    assert!(insert_next_to(&mut d, PlotId(4), PlotId(8)));
    assert_eq!(leaves(&d), vec![vec![3, 4, 8], vec![5, 4], vec![6]]);
    assert!(insert_next_to(&mut d, PlotId(6), PlotId(9)));
    assert_eq!(leaves(&d), vec![vec![3, 4, 8], vec![5, 4], vec![6, 9]]);
    assert!(!insert_next_to(&mut d, PlotId(77), PlotId(1)));
    assert_eq!(leaves(&d), vec![vec![3, 4, 8], vec![5, 4], vec![6, 9]]);
}
