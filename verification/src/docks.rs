//! The dock: which plot stands on which tab, and what a layout keeps of that.

use std::collections::HashMap;
use egui_dock::{DockState, Node};
use vstd::prelude::*;

use crate::layout_apply::Applied;
use crate::layout_save::Saved;
use crate::panels::PlotId;

verus! {

use crate::layout_apply::surviving;

broadcast use vstd::std_specs::hash::group_hash_axioms;

/// The dock of egui_dock: windows, each with a tree of nodes, whose leaves hold tabs.
#[verifier::external_type_specification]
#[verifier::external_body]
#[verifier::reject_recursive_types(Tab)]
pub struct ExDockState<Tab>(egui_dock::DockState<Tab>);

/// A node of a dock's tree.
pub enum DockNode {
    Empty,
    /// A node with two nodes below it, one above the other.
    Vertical,
    /// A node with two nodes below it, side by side.
    Horizontal,
    /// The tabs of a leaf.
    Leaf(Vec<u64>),
}

/// What a node is.
#[verifier::ext_equal]
pub enum NodeView {
    Empty,
    Vertical,
    Horizontal,
    Leaf(Seq<u64>),
}

impl NodeView {
    /// Whether the node has others below it.
    pub open spec fn splits(self) -> bool {
        self is Vertical || self is Horizontal
    }
}

impl View for DockNode {
    type V = NodeView;

    open spec fn view(&self) -> NodeView {
        match *self {
            DockNode::Empty => NodeView::Empty,
            DockNode::Vertical => NodeView::Vertical,
            DockNode::Horizontal => NodeView::Horizontal,
            DockNode::Leaf(tabs) => NodeView::Leaf(tabs@),
        }
    }
}

/// The trees of a dock, one for each of its windows, each as the list of its nodes. The
/// root comes first, and the children of the node `n` are `2n + 1` and `2n + 2`.
pub uninterp spec fn dock_trees(d: DockState<u64>) -> Seq<Seq<NodeView>>;

pub open spec fn nodes_view(v: Seq<DockNode>) -> Seq<NodeView> {
    v.map_values(|n: DockNode| n@)
}

pub open spec fn trees_view(v: Seq<Vec<DockNode>>) -> Seq<Seq<NodeView>> {
    v.map_values(|t: Vec<DockNode>| nodes_view(t@))
}

/// The trees of a dock: `DockState::iter_surfaces` visits the windows, and
/// `Surface::iter_nodes` the nodes of one, which are empty, splits either way, or leaves.
#[verifier::external_body]
fn trees_of(d: &DockState<u64>) -> (r: Vec<Vec<DockNode>>)
    ensures
        trees_view(r@) == dock_trees(*d),
{
    let node = |n: &Node<u64>| match n {
        Node::Empty => DockNode::Empty,
        Node::Vertical { .. } => DockNode::Vertical,
        Node::Horizontal { .. } => DockNode::Horizontal,
        Node::Leaf { tabs, .. } => DockNode::Leaf(tabs.clone()),
    };
    d.iter_surfaces().map(|s| s.iter_nodes().map(node).collect()).collect()
}

/// `DockState::new`: one window, whose root is a leaf with the tabs.
#[verifier::external_body]
fn single_leaf(tabs: Vec<u64>) -> (r: DockState<u64>)
    ensures
        dock_trees(r) == seq![seq![NodeView::Leaf(tabs@)]],
{
    DockState::new(tabs)
}

/// Puts a tab behind those of the leaf `b` of the tree `a`: `DockState::iter_surfaces_mut`
/// and `Surface::iter_nodes_mut` visit windows and nodes in the order of `trees_of`, and
/// the tabs of a leaf are a list.
#[verifier::external_body]
fn push_to_leaf(d: &mut DockState<u64>, a: usize, b: usize, tab: u64)
    requires
        a < dock_trees(*old(d)).len(),
        b < dock_trees(*old(d))[a as int].len(),
        dock_trees(*old(d))[a as int][b as int] is Leaf,
    ensures
        dock_trees(*final(d)) == with_tab(dock_trees(*old(d)), a as int, b as int, tab),
{
    let node = d.iter_surfaces_mut().nth(a).and_then(|s| s.iter_nodes_mut().nth(b));
    if let Some(Node::Leaf { tabs, .. }) = node {
        tabs.push(tab);
    }
}

/// The trees with one more tab in the leaf `b` of the tree `a`.
pub open spec fn with_tab(
    trees: Seq<Seq<NodeView>>,
    a: int,
    b: int,
    tab: u64,
) -> Seq<Seq<NodeView>> {
    trees.update(a, trees[a].update(b, NodeView::Leaf(trees[a][b]->Leaf_0.push(tab))))
}

/// What the tabs of a leaf become; those that become nothing are left out.
pub open spec fn kept_tabs(tabs: Seq<u64>, table: Map<u64, u64>) -> Seq<u64>
    decreases tabs.len(),
{
    if tabs.len() == 0 {
        Seq::empty()
    } else {
        let before = kept_tabs(tabs.drop_last(), table);
        if table.contains_key(tabs.last()) {
            before.push(table[tabs.last()])
        } else {
            before
        }
    }
}

/// What a node becomes; a leaf that keeps no tab is empty.
pub open spec fn kept_node(n: NodeView, table: Map<u64, u64>) -> NodeView {
    match n {
        NodeView::Leaf(tabs) => if kept_tabs(tabs, table).len() > 0 {
            NodeView::Leaf(kept_tabs(tabs, table))
        } else {
            NodeView::Empty
        },
        other => other,
    }
}

pub open spec fn kept_nodes(nodes: Seq<NodeView>, table: Map<u64, u64>) -> Seq<NodeView> {
    nodes.map_values(|n: NodeView| kept_node(n, table))
}

/// Whether the node `i` is a leaf that keeps no tab.
pub open spec fn is_emptied(nodes: Seq<NodeView>, table: Map<u64, u64>, i: int) -> bool {
    0 <= i < nodes.len() && nodes[i] is Leaf && kept_node(nodes[i], table) is Empty
}

/// The node above another.
pub open spec fn above(i: int) -> int {
    (i - 1) / 2
}

/// The node beside another.
pub open spec fn beside(i: int) -> int {
    if i % 2 == 1 {
        i + 1
    } else {
        i - 1
    }
}

/// The nodes after the node `i` became empty: the one beside it takes the place of the
/// one above them; where that one is empty too, so is the one above them.
pub open spec fn closed_up(nodes: Seq<NodeView>, i: int) -> Seq<NodeView>
    decreases i,
{
    if i <= 0 {
        nodes
    } else if nodes[beside(i)] is Empty {
        closed_up(nodes.update(above(i), NodeView::Empty), above(i))
    } else {
        nodes.update(above(i), nodes[beside(i)]).update(beside(i), NodeView::Empty)
    }
}

/// Whether the node `i` is empty, or the root, or stands below a split; and where it is a
/// split itself, whether two nodes stand below it.
pub open spec fn is_placed(nodes: Seq<NodeView>, i: int) -> bool {
    &&& nodes[i] is Empty || i == 0 || nodes[above(i)].splits()
    &&& nodes[i].splits() ==> 2 * i + 2 < nodes.len() && !(nodes[2 * i + 1] is Empty) && !(nodes[2
        * i + 2] is Empty)
}

/// Whether the nodes are those of a whole tree.
pub open spec fn is_tree(nodes: Seq<NodeView>) -> bool {
    forall|i: int| 0 <= i < nodes.len() ==> #[trigger] is_placed(nodes, i)
}

/// The leaves among nodes.
pub open spec fn leaves_in(nodes: Seq<NodeView>) -> Seq<Seq<u64>>
    decreases nodes.len(),
{
    if nodes.len() == 0 {
        Seq::empty()
    } else {
        let before = leaves_in(nodes.drop_last());
        match nodes.last() {
            NodeView::Leaf(tabs) => before.push(tabs),
            _ => before,
        }
    }
}

/// Whether `i` is the only leaf that keeps no tab.
pub open spec fn is_only_emptied(nodes: Seq<NodeView>, table: Map<u64, u64>, i: int) -> bool {
    is_emptied(nodes, table, i) && forall|k: int| #[trigger] is_emptied(nodes, table, k) ==> k == i
}

/// Whether `i` and `j` are the only leaves that keep no tab.
pub open spec fn are_only_emptied(
    nodes: Seq<NodeView>,
    table: Map<u64, u64>,
    i: int,
    j: int,
) -> bool {
    &&& i != j
    &&& is_emptied(nodes, table, i)
    &&& is_emptied(nodes, table, j)
    &&& forall|k: int| #[trigger] is_emptied(nodes, table, k) ==> k == i || k == j
}

/// Whether a tree may have come from another under the table. It has as many nodes. Where
/// every leaf keeps a tab, each node is what it became. Where one leaf keeps none, the
/// nodes are closed up. Where two leaves of a whole tree keep none, all others are there.
/// Otherwise the leaves are among those that kept a tab, each at most as often as it was
/// there.
pub open spec fn is_remapped_tree(
    nodes: Seq<NodeView>,
    table: Map<u64, u64>,
    out: Seq<NodeView>,
) -> bool {
    let kept = kept_nodes(nodes, table);
    &&& out.len() == nodes.len()
    &&& (forall|i: int| !#[trigger] is_emptied(nodes, table, i)) ==> out == kept
    &&& forall|i: int| #[trigger] is_only_emptied(nodes, table, i) ==> out == closed_up(kept, i)
    &&& forall|i: int, j: int| #[trigger]
        are_only_emptied(nodes, table, i, j) && is_tree(nodes) ==> leaves_in(out).to_multiset()
            == leaves_in(kept).to_multiset()
    &&& leaves_in(out).to_multiset().subset_of(leaves_in(kept).to_multiset())
}

/// The trees that have nodes.
pub open spec fn solid(trees: Seq<Seq<NodeView>>) -> Seq<Seq<NodeView>>
    decreases trees.len(),
{
    if trees.len() == 0 {
        Seq::empty()
    } else {
        let before = solid(trees.drop_last());
        if trees.last().len() > 0 {
            before.push(trees.last())
        } else {
            before
        }
    }
}

/// Whether trees may have come from others under the table; windows without nodes may
/// have gone.
pub open spec fn is_remapped(
    trees: Seq<Seq<NodeView>>,
    table: Map<u64, u64>,
    out: Seq<Seq<NodeView>>,
) -> bool {
    &&& solid(out).len() == solid(trees).len()
    &&& forall|k: int|
        0 <= k < solid(trees).len() ==> is_remapped_tree(
            solid(trees)[k],
            table,
            #[trigger] solid(out)[k],
        )
}

/// Whether the last node of a tree lacks a sibling and is a leaf that keeps no tab.
pub open spec fn empties_lone_leaf(nodes: Seq<NodeView>, table: Map<u64, u64>) -> bool {
    nodes.len() % 2 == 0 && is_emptied(nodes, table, nodes.len() - 1)
}

/// Whether the tabs of a dock can be replaced: each leaf that keeps no tab, but for a
/// root, has a sibling that can take its place.
pub open spec fn can_remap(trees: Seq<Seq<NodeView>>, table: Map<u64, u64>) -> bool {
    forall|k: int| 0 <= k < trees.len() ==> !empties_lone_leaf(#[trigger] trees[k], table)
}

/// What a tab becomes.
fn tab_in(table: &HashMap<u64, u64>, tab: u64) -> (r: Option<u64>)
    ensures
        r == (if table@.contains_key(tab) {
            Some(table@[tab])
        } else {
            None
        }),
{
    match table.get(&tab) {
        Some(t) => Some(*t),
        None => None,
    }
}

/// `DockState::filter_map_tabs`: every tab becomes what the table says, or is left out.
/// No tree changes its number of nodes; windows without nodes can go. A leaf that keeps
/// no tab is removed: the node beside it takes the place of the one above them, or that
/// one is removed in turn. Where there are several such leaves, the order in which they
/// go is not fixed. In a whole tree two of them take no other leaf with them, wherever
/// those end up; from three on others can be lost, and it is only said that what is left
/// was there. Removing a leaf reads the node beside it, which must be there.
#[verifier::external_body]
fn filter_map_dock(d: &DockState<u64>, table: &HashMap<u64, u64>) -> (r: DockState<u64>)
    requires
        can_remap(dock_trees(*d), table@),
    ensures
        is_remapped(dock_trees(*d), table@, dock_trees(r)),
{
    d.filter_map_tabs(|t| tab_in(table, *t))
}

/// The leaves of trees, in their order.
pub open spec fn all_leaves(trees: Seq<Seq<NodeView>>) -> Seq<Seq<u64>>
    decreases trees.len(),
{
    if trees.len() == 0 {
        Seq::empty()
    } else {
        all_leaves(trees.drop_last()) + leaves_in(trees.last())
    }
}

/// The tabs of each leaf of a dock, in the order in which its nodes are visited.
pub open spec fn dock_leaves(d: DockState<u64>) -> Seq<Seq<u64>> {
    all_leaves(dock_trees(d))
}

/// The tabs of leaves, in their order.
pub open spec fn all_tabs(leaves: Seq<Seq<u64>>) -> Seq<PlotId>
    decreases leaves.len(),
{
    if leaves.len() == 0 {
        Seq::empty()
    } else {
        all_tabs(leaves.drop_last()) + leaves.last().map_values(|t: u64| PlotId(t))
    }
}

proof fn lemma_all_tabs_add(a: Seq<Seq<u64>>, b: Seq<Seq<u64>>)
    ensures
        all_tabs(a + b) == all_tabs(a) + all_tabs(b),
    decreases b.len(),
{
    if b.len() == 0 {
        assert(a + b =~= a);
        assert(all_tabs(a) + all_tabs(b) =~= all_tabs(a));
    } else {
        assert((a + b).drop_last() =~= a + b.drop_last());
        lemma_all_tabs_add(a, b.drop_last());
        assert(all_tabs(a + b) =~= all_tabs(a) + all_tabs(b));
    }
}

/// Appends the plots on the tabs of a tree.
fn append_tabs(out: &mut Vec<PlotId>, nodes: &Vec<DockNode>)
    ensures
        final(out)@ == old(out)@ + all_tabs(leaves_in(nodes_view(nodes@))),
{
    let ghost start = out@;
    let ghost all = nodes_view(nodes@);
    let mut k: usize = 0;
    assert(out@ =~= start + all_tabs(leaves_in(all.take(0))));
    while k < nodes.len()
        invariant
            k <= nodes@.len(),
            all == nodes_view(nodes@),
            out@ == start + all_tabs(leaves_in(all.take(k as int))),
        decreases nodes@.len() - k,
    {
        proof {
            assert(all.take(k + 1).drop_last() =~= all.take(k as int));
            assert(all.take(k + 1).last() == nodes@[k as int]@);
        }
        if let DockNode::Leaf(leaf) = &nodes[k] {
            let ghost before = out@;
            let mut i: usize = 0;
            assert(out@ =~= before + leaf@.take(0).map_values(|t: u64| PlotId(t)));
            while i < leaf.len()
                invariant
                    i <= leaf@.len(),
                    out@ == before + leaf@.take(i as int).map_values(|t: u64| PlotId(t)),
                decreases leaf@.len() - i,
            {
                out.push(PlotId(leaf[i]));
                i = i + 1;
                assert(out@ =~= before + leaf@.take(i as int).map_values(|t: u64| PlotId(t)));
            }
            proof {
                let had = leaves_in(all.take(k as int));
                assert(leaf@.take(i as int) =~= leaf@);
                assert(had.push(leaf@).drop_last() =~= had);
                assert(out@ =~= start + all_tabs(had.push(leaf@)));
            }
        }
        k = k + 1;
    }
    assert(all.take(k as int) =~= all);
}

/// The plots on the tabs of a dock, in their order.
pub fn dock_tabs(d: &DockState<u64>) -> (r: Vec<PlotId>)
    ensures
        r@ == all_tabs(dock_leaves(*d)),
{
    let trees = trees_of(d);
    let ghost all = trees_view(trees@);
    let mut out: Vec<PlotId> = Vec::new();
    let mut k: usize = 0;
    while k < trees.len()
        invariant
            k <= trees@.len(),
            all == trees_view(trees@),
            out@ == all_tabs(all_leaves(all.take(k as int))),
        decreases trees@.len() - k,
    {
        proof {
            assert(all.take(k + 1).drop_last() =~= all.take(k as int));
            assert(all.take(k + 1).last() == nodes_view(trees@[k as int]@));
            lemma_all_tabs_add(
                all_leaves(all.take(k as int)),
                leaves_in(nodes_view(trees@[k as int]@)),
            );
        }
        append_tabs(&mut out, &trees[k]);
        k = k + 1;
    }
    assert(all.take(k as int) =~= all);
    out
}

/// Whether no tab of a leaf is kept.
fn keeps_none(tabs: &Vec<u64>, table: &HashMap<u64, u64>) -> (r: bool)
    ensures
        r == (kept_tabs(tabs@, table@).len() == 0),
{
    let mut kept = false;
    let mut i: usize = 0;
    while i < tabs.len()
        invariant
            i <= tabs@.len(),
            kept == (kept_tabs(tabs@.take(i as int), table@).len() > 0),
        decreases tabs@.len() - i,
    {
        assert(tabs@.take(i + 1).drop_last() =~= tabs@.take(i as int));
        if tab_in(table, tabs[i]).is_some() {
            kept = true;
        }
        i = i + 1;
    }
    assert(tabs@.take(i as int) =~= tabs@);
    !kept
}

/// Whether the tabs of a dock can be replaced.
fn can_remap_dock(d: &DockState<u64>, table: &HashMap<u64, u64>) -> (r: bool)
    ensures
        r == can_remap(dock_trees(*d), table@),
{
    let trees = trees_of(d);
    let ghost all = trees_view(trees@);
    let mut k: usize = 0;
    while k < trees.len()
        invariant
            k <= trees@.len(),
            all == trees_view(trees@),
            all == dock_trees(*d),
            forall|j: int| 0 <= j < k ==> !empties_lone_leaf(#[trigger] all[j], table@),
        decreases trees@.len() - k,
    {
        let nodes = &trees[k];
        let n: usize = nodes.len();
        assert(all[k as int] == nodes_view(nodes@));
        if n > 0 && n % 2 == 0 {
            assert(all[k as int][n - 1] == nodes@[n - 1]@);
            if let DockNode::Leaf(tabs) = &nodes[n - 1] {
                if keeps_none(tabs, table) {
                    assert(empties_lone_leaf(all[k as int], table@));
                    return false;
                }
            }
        }
        k = k + 1;
    }
    true
}

/// The place noted for a plot, from the given one on.
pub open spec fn place_in(
    order: Seq<PlotId>,
    places: Seq<Option<usize>>,
    id: PlotId,
    from: int,
) -> Option<usize>
    decreases order.len() - from,
{
    if from < 0 || from >= order.len() {
        None
    } else if order[from] == id {
        places[from]
    } else {
        place_in(order, places, id, from + 1)
    }
}

/// Where the plot of each tab stands in a layout.
pub open spec fn place_table(order: Seq<PlotId>, places: Seq<Option<usize>>, from: int) -> Map<
    u64,
    u64,
> {
    Map::new(
        |t: u64| place_in(order, places, PlotId(t), from) is Some,
        |t: u64| place_in(order, places, PlotId(t), from).unwrap() as u64,
    )
}

/// The dock of a saved workspace: each tab holds the place of its plot in the layout.
/// Tabs of plots that are not saved are left out. There is none where that empties a leaf
/// that has no sibling.
pub fn save_dock(d: &DockState<u64>, saved: &Saved) -> (r: Option<DockState<u64>>)
    requires
        saved.order@.len() == saved.places@.len(),
    ensures
        ({
            let table = place_table(saved.order@, saved.places@, 0);
            &&& r is Some <==> can_remap(dock_trees(*d), table)
            &&& r matches Some(s) ==> is_remapped(dock_trees(*d), table, dock_trees(s))
        }),
{
    let mut table: HashMap<u64, u64> = HashMap::new();
    let mut i: usize = saved.order.len();
    assert(table@ =~= place_table(saved.order@, saved.places@, i as int));
    while i > 0
        invariant
            i <= saved.order@.len() == saved.places@.len(),
            table@ == place_table(saved.order@, saved.places@, i as int),
        decreases i,
    {
        i = i - 1;
        let id = saved.order[i];
        match saved.places[i] {
            Some(k) => {
                table.insert(id.0, k as u64);
            },
            None => {
                table.remove(&id.0);
            },
        }
        assert forall|t: u64| t != id.0 implies #[trigger] place_in(
            saved.order@,
            saved.places@,
            PlotId(t),
            i as int,
        ) == place_in(saved.order@, saved.places@, PlotId(t), i + 1) by {}
        assert(table@ =~= place_table(saved.order@, saved.places@, i as int));
    }
    if can_remap_dock(d, &table) {
        Some(filter_map_dock(d, &table))
    } else {
        None
    }
}

/// Which plot was made for each place of a layout.
pub open spec fn id_table(ids: Seq<Option<PlotId>>) -> Map<u64, u64> {
    Map::new(
        |i: u64| i < ids.len() && ids[i as int] is Some,
        |i: u64| ids[i as int].unwrap().0,
    )
}

/// The leaf that stands for a dock that is of no use.
pub open spec fn fallback_leaf(ids: Seq<Option<PlotId>>) -> Seq<u64> {
    if surviving(ids).len() == 0 {
        seq![0u64]
    } else {
        surviving(ids).map_values(|id: PlotId| id.0)
    }
}

/// The trees of a dock that has one leaf with all plots.
pub open spec fn fallback_trees(ids: Seq<Option<PlotId>>) -> Seq<Seq<NodeView>> {
    seq![seq![NodeView::Leaf(fallback_leaf(ids))]]
}

/// Trees that hold a tab; one leaf with all plots in place of those that hold none.
pub open spec fn or_fallback(
    trees: Seq<Seq<NodeView>>,
    ids: Seq<Option<PlotId>>,
) -> Seq<Seq<NodeView>> {
    if all_tabs(all_leaves(trees)).len() > 0 {
        trees
    } else {
        fallback_trees(ids)
    }
}

/// A dock with one leaf, which holds all plots that were made of saved ones, or a first
/// one where there are none.
fn fallback_dock(applied: &Applied) -> (r: DockState<u64>)
    ensures
        dock_trees(r) == fallback_trees(applied.ids@),
{
    let ids = applied.fallback_tabs();
    let mut tabs: Vec<u64> = Vec::new();
    let mut i: usize = 0;
    while i < ids.len()
        invariant
            i <= ids@.len(),
            tabs@ == ids@.take(i as int).map_values(|id: PlotId| id.0),
        decreases ids@.len() - i,
    {
        tabs.push(ids[i].0);
        i = i + 1;
        assert(tabs@ =~= ids@.take(i as int).map_values(|id: PlotId| id.0));
    }
    assert(ids@.take(i as int) =~= ids@);
    assert(tabs@ =~= fallback_leaf(applied.ids@));
    single_leaf(tabs)
}

/// A dock over the plots of a layout, where it holds a tab; otherwise one leaf with all
/// plots.
pub fn dock_or_fallback(mapped: DockState<u64>, applied: &Applied) -> (r: DockState<u64>)
    ensures
        dock_trees(r) == or_fallback(dock_trees(mapped), applied.ids@),
{
    if dock_tabs(&mapped).len() > 0 {
        mapped
    } else {
        fallback_dock(applied)
    }
}

/// Whether a dock over the plots of a layout may have these trees: those that the saved
/// dock becomes, or one leaf with all plots where no tab of it is left, there is no such
/// dock, or its tabs cannot be replaced.
pub open spec fn is_restored(
    saved: Option<&DockState<u64>>,
    ids: Seq<Option<PlotId>>,
    trees: Seq<Seq<NodeView>>,
) -> bool {
    match saved {
        Some(d) if can_remap(dock_trees(*d), id_table(ids)) => exists|mapped: Seq<
            Seq<NodeView>,
        >| #[trigger]
            is_remapped(dock_trees(*d), id_table(ids), mapped) && trees == or_fallback(mapped, ids),
        _ => trees == fallback_trees(ids),
    }
}

/// Rebuilds the dock of a layout over the plots that were made of it; companions do not
/// stand in it yet.
pub fn restore_dock(saved: Option<&DockState<u64>>, applied: &Applied) -> (r: DockState<u64>)
    ensures
        is_restored(saved, applied.ids@, dock_trees(r)),
{
    if let Some(d) = saved {
        let mut table: HashMap<u64, u64> = HashMap::new();
        let mut i: usize = 0;
        assert(table@ =~= id_table(applied.ids@.take(0)));
        while i < applied.ids.len()
            invariant
                i <= applied.ids@.len(),
                table@ == id_table(applied.ids@.take(i as int)),
            decreases applied.ids@.len() - i,
        {
            if let Some(id) = applied.ids[i] {
                table.insert(i as u64, id.0);
            }
            assert(table@ =~= id_table(applied.ids@.take(i + 1)));
            i = i + 1;
        }
        assert(applied.ids@.take(i as int) =~= applied.ids@);
        if can_remap_dock(d, &table) {
            return dock_or_fallback(filter_map_dock(d, &table), applied);
        }
    }
    fallback_dock(applied)
}

/// Whether the node `b` of the tree `a` is a leaf that holds a tab.
pub open spec fn holds_tab_at(
    trees: Seq<Seq<NodeView>>,
    tab: u64,
    a: int,
    b: int,
) -> bool {
    0 <= a < trees.len() && 0 <= b < trees[a].len() && (trees[a][b] matches NodeView::Leaf(tabs)
        && tabs.contains(tab))
}

/// Whether the node `b` of the tree `a` is the first leaf that holds a tab.
pub open spec fn is_first_holder(
    trees: Seq<Seq<NodeView>>,
    tab: u64,
    a: int,
    b: int,
) -> bool {
    &&& holds_tab_at(trees, tab, a, b)
    &&& forall|c: int, d: int| #[trigger]
        holds_tab_at(trees, tab, c, d) ==> a < c || (a == c && b <= d)
}

/// What it means to put a tab into the first leaf that holds another.
pub open spec fn is_inserted(
    before: Seq<Seq<NodeView>>,
    anchor: u64,
    extra: u64,
    after: Seq<Seq<NodeView>>,
) -> bool {
    exists|a: int, b: int| #[trigger]
        is_first_holder(before, anchor, a, b) && after == with_tab(before, a, b, extra)
}

/// Puts a plot behind the tabs of the first leaf that holds another; says whether there
/// is such a leaf.
pub fn insert_next_to(d: &mut DockState<u64>, anchor: PlotId, extra: PlotId) -> (r: bool)
    ensures
        r == exists|a: int, b: int| #[trigger] holds_tab_at(dock_trees(*old(d)), anchor.0, a, b),
        r ==> is_inserted(dock_trees(*old(d)), anchor.0, extra.0, dock_trees(*final(d))),
        !r ==> dock_trees(*final(d)) == dock_trees(*old(d)),
{
    let trees = trees_of(d);
    let ghost all = trees_view(trees@);
    let mut a: usize = 0;
    while a < trees.len()
        invariant
            a <= trees@.len(),
            all == trees_view(trees@),
            all == dock_trees(*d),
            *d == *old(d),
            forall|c: int, e: int| #[trigger] holds_tab_at(all, anchor.0, c, e) ==> a <= c,
        decreases trees@.len() - a,
    {
        let nodes = &trees[a];
        assert(all[a as int] == nodes_view(nodes@));
        let mut b: usize = 0;
        while b < nodes.len()
            invariant
                a < trees@.len(),
                b <= nodes@.len(),
                all == trees_view(trees@),
                all == dock_trees(*d),
                *d == *old(d),
                all[a as int] == nodes_view(nodes@),
                forall|c: int, e: int| #[trigger]
                    holds_tab_at(all, anchor.0, c, e) ==> a < c || (a == c && b <= e),
            decreases nodes@.len() - b,
        {
            assert(all[a as int][b as int] == nodes@[b as int]@);
            if let DockNode::Leaf(tabs) = &nodes[b] {
                if holds_tab(tabs, anchor.0) {
                    proof {
                        assert(holds_tab_at(all, anchor.0, a as int, b as int));
                        assert(is_first_holder(all, anchor.0, a as int, b as int));
                    }
                    push_to_leaf(d, a, b, extra.0);
                    return true;
                }
            }
            b = b + 1;
        }
        a = a + 1;
    }
    false
}

fn holds_tab(tabs: &Vec<u64>, tab: u64) -> (r: bool)
    ensures
        r == tabs@.contains(tab),
{
    let mut i: usize = 0;
    while i < tabs.len()
        invariant
            i <= tabs@.len(),
            forall|j: int| 0 <= j < i ==> tabs@[j] != tab,
        decreases tabs@.len() - i,
    {
        if tabs[i] == tab {
            return true;
        }
        i = i + 1;
    }
    false
}

proof fn lemma_kept_twice(
    tabs: Seq<u64>,
    first: Map<u64, u64>,
    second: Map<u64, u64>,
    both: Map<u64, u64>,
)
    requires
        forall|t: u64| #[trigger] first.contains_key(t) ==> second.contains_key(first[t]),
        both == Map::new(|t: u64| first.contains_key(t), |t: u64| second[first[t]]),
    ensures
        kept_tabs(kept_tabs(tabs, first), second) == kept_tabs(tabs, both),
        kept_tabs(tabs, both).len() == kept_tabs(tabs, first).len(),
    decreases tabs.len(),
{
    if tabs.len() > 0 {
        lemma_kept_twice(tabs.drop_last(), first, second, both);
        let before = kept_tabs(tabs.drop_last(), first);
        if first.contains_key(tabs.last()) {
            assert(before.push(first[tabs.last()]).drop_last() =~= before);
        }
    }
}

/// A dock comes back from a layout as it was saved, node for node and tab for tab, with
/// the new plots in place of the old ones: where every leaf holds a plot that is saved,
/// and a plot is made of every saved one.
pub proof fn law_dock_survives_layout(
    trees: Seq<Seq<NodeView>>,
    places: Map<u64, u64>,
    saved: Seq<Seq<NodeView>>,
    ids: Map<u64, u64>,
    restored: Seq<Seq<NodeView>>,
)
    requires
        is_remapped(trees, places, saved),
        is_remapped(saved, ids, restored),
        forall|k: int, i: int|
            0 <= k < solid(trees).len() ==> !#[trigger] is_emptied(solid(trees)[k], places, i),
        forall|t: u64| #[trigger] places.contains_key(t) ==> ids.contains_key(places[t]),
    ensures
        solid(restored) == solid(trees).map_values(
            |nodes: Seq<NodeView>|
                kept_nodes(
                    nodes,
                    Map::new(|t: u64| places.contains_key(t), |t: u64| ids[places[t]]),
                ),
        ),
{
    let both = Map::new(|t: u64| places.contains_key(t), |t: u64| ids[places[t]]);
    let (a, b, c) = (solid(trees), solid(saved), solid(restored));
    assert forall|k: int| 0 <= k < a.len() implies #[trigger] c[k] == kept_nodes(a[k], both) by {
        assert(is_remapped_tree(a[k], places, b[k]));
        assert(b[k] == kept_nodes(a[k], places));
        assert(is_remapped_tree(b[k], ids, c[k]));
        assert forall|i: int| 0 <= i < a[k].len() implies kept_node(#[trigger] b[k][i], ids)
            == kept_node(a[k][i], both) && !is_emptied(b[k], ids, i) by {
            assert(!is_emptied(a[k], places, i));
            if let NodeView::Leaf(tabs) = a[k][i] {
                lemma_kept_twice(tabs, places, ids, both);
            }
        }
        assert forall|i: int| !#[trigger] is_emptied(b[k], ids, i) by {
            if 0 <= i < b[k].len() {
                assert(kept_node(b[k][i], ids) == kept_node(a[k][i], both));
            }
        }
        assert(kept_nodes(b[k], ids) =~= kept_nodes(a[k], both));
    }
    assert(c =~= a.map_values(|nodes: Seq<NodeView>| kept_nodes(nodes, both)));
}

/// Whether every node of every tree has both children or none.
pub open spec fn has_paired_nodes(trees: Seq<Seq<NodeView>>) -> bool {
    forall|k: int| 0 <= k < trees.len() ==> (#[trigger] trees[k]).len() == 0 || trees[k].len() % 2
        == 1
}

proof fn lemma_solid_pairs(trees: Seq<Seq<NodeView>>)
    ensures
        has_paired_nodes(trees) <==> has_paired_nodes(solid(trees)),
        forall|k: int| 0 <= k < solid(trees).len() ==> (#[trigger] solid(trees)[k]).len() > 0,
    decreases trees.len(),
{
    if trees.len() > 0 {
        let head = trees.drop_last();
        lemma_solid_pairs(head);
        let (a, b) = (solid(head), solid(trees));
        if has_paired_nodes(trees) {
            assert forall|k: int| 0 <= k < head.len() implies (#[trigger] head[k]).len() == 0
                || head[k].len() % 2 == 1 by {
                assert(head[k] == trees[k]);
            }
            assert(trees[trees.len() - 1] == trees.last());
            assert forall|k: int| 0 <= k < b.len() implies (#[trigger] b[k]).len() == 0
                || b[k].len() % 2 == 1 by {
                if k < a.len() {
                    assert(b[k] == a[k]);
                }
            }
        }
        if has_paired_nodes(b) {
            assert forall|k: int| 0 <= k < a.len() implies (#[trigger] a[k]).len() == 0
                || a[k].len() % 2 == 1 by {
                assert(a[k] == b[k]);
            }
            if trees.last().len() > 0 {
                assert(b[b.len() - 1] == trees.last());
            }
            assert forall|k: int| 0 <= k < trees.len() implies (#[trigger] trees[k]).len() == 0
                || trees[k].len() % 2 == 1 by {
                if k < head.len() {
                    assert(head[k] == trees[k]);
                }
            }
        }
    }
}

/// A dock whose nodes are paired can be saved and restored whatever the plots are, and
/// the nodes of the dock that comes of it are paired again. A dock with one leaf is such
/// a dock.
pub proof fn law_paired_docks_stay_paired(
    trees: Seq<Seq<NodeView>>,
    table: Map<u64, u64>,
    out: Seq<Seq<NodeView>>,
    ids: Seq<Option<PlotId>>,
)
    requires
        has_paired_nodes(trees),
        is_remapped(trees, table, out),
    ensures
        can_remap(trees, table),
        has_paired_nodes(out),
        has_paired_nodes(or_fallback(out, ids)),
        has_paired_nodes(fallback_trees(ids)),
{
    lemma_solid_pairs(trees);
    lemma_solid_pairs(out);
    assert forall|k: int| 0 <= k < solid(out).len() implies (#[trigger] solid(out)[k]).len() == 0
        || solid(out)[k].len() % 2 == 1 by {
        assert(is_remapped_tree(solid(trees)[k], table, solid(out)[k]));
        assert(solid(trees)[k].len() > 0);
    }
    assert(has_paired_nodes(solid(out)));
}

/// A tab that is put next to another stands in the same leaf, and no tab is lost.
pub proof fn law_inserted_tab_stands_beside(
    before: Seq<Seq<NodeView>>,
    anchor: u64,
    extra: u64,
    after: Seq<Seq<NodeView>>,
)
    requires
        is_inserted(before, anchor, extra, after),
    ensures
        exists|a: int, b: int|
            #[trigger] holds_tab_at(after, anchor, a, b) && holds_tab_at(after, extra, a, b),
        forall|t: u64, a: int, b: int| #[trigger]
            holds_tab_at(before, t, a, b) ==> holds_tab_at(after, t, a, b),
{
    let (x, y) = choose|a: int, b: int| #[trigger]
        is_first_holder(before, anchor, a, b) && after == with_tab(before, a, b, extra);
    let had = before[x][y]->Leaf_0;
    let has = had.push(extra);
    assert(after[x][y] == NodeView::Leaf(has));
    assert forall|t: u64, a: int, b: int| #[trigger] holds_tab_at(before, t, a, b) implies holds_tab_at(
        after,
        t,
        a,
        b,
    ) by {
        if a == x && b == y {
            let i = choose|i: int| 0 <= i < had.len() && had[i] == t;
            assert(has[i] == t);
        } else if a == x {
            assert(after[a][b] == before[a][b]);
        } else {
            assert(after[a] == before[a]);
        }
    }
    assert(has[had.len() as int] == extra);
    assert(holds_tab_at(after, extra, x, y));
    assert(holds_tab_at(after, anchor, x, y));
}

proof fn lemma_leaf_added(nodes: Seq<NodeView>, i: int, tabs: Seq<u64>)
    requires
        0 <= i < nodes.len(),
        !(nodes[i] is Leaf),
    ensures
        leaves_in(nodes.update(i, NodeView::Leaf(tabs))).to_multiset() == leaves_in(
            nodes,
        ).to_multiset().insert(tabs),
    decreases nodes.len(),
{
    broadcast use vstd::seq_lib::group_to_multiset_ensures;

    let now = nodes.update(i, NodeView::Leaf(tabs));
    let head = nodes.drop_last();
    if i == nodes.len() - 1 {
        assert(now.drop_last() =~= head);
    } else {
        lemma_leaf_added(head, i, tabs);
        assert(now.drop_last() =~= head.update(i, NodeView::Leaf(tabs)));
        assert(now.last() == nodes.last());
        if let NodeView::Leaf(t) = nodes.last() {
            let m = leaves_in(head).to_multiset();
            assert(m.insert(tabs).insert(t) =~= m.insert(t).insert(tabs));
        }
    }
}

proof fn lemma_no_leaf_changed(nodes: Seq<NodeView>, i: int, n: NodeView)
    requires
        0 <= i < nodes.len(),
        !(nodes[i] is Leaf),
        !(n is Leaf),
    ensures
        leaves_in(nodes.update(i, n)) == leaves_in(nodes),
    decreases nodes.len(),
{
    let now = nodes.update(i, n);
    if i == nodes.len() - 1 {
        assert(now.drop_last() =~= nodes.drop_last());
    } else {
        lemma_no_leaf_changed(nodes.drop_last(), i, n);
        assert(now.drop_last() =~= nodes.drop_last().update(i, n));
        assert(now.last() == nodes.last());
    }
}

proof fn lemma_closing_up_keeps_leaves(nodes: Seq<NodeView>, i: int)
    requires
        0 <= i < nodes.len(),
        i > 0 ==> beside(i) < nodes.len() && !(nodes[beside(i)] is Empty) && !(nodes[above(i)]
            is Leaf),
    ensures
        leaves_in(closed_up(nodes, i)).to_multiset() == leaves_in(nodes).to_multiset(),
{
    if i > 0 {
        let (p, b) = (above(i), beside(i));
        let base = nodes.update(b, NodeView::Empty);
        let out = closed_up(nodes, i);
        assert(p < b);
        match nodes[b] {
            NodeView::Leaf(tabs) => {
                lemma_leaf_added(base, b, tabs);
                assert(base.update(b, NodeView::Leaf(tabs)) =~= nodes);
                lemma_leaf_added(base, p, tabs);
                assert(base.update(p, NodeView::Leaf(tabs)) =~= out);
            },
            n => {
                lemma_no_leaf_changed(nodes, b, NodeView::Empty);
                lemma_no_leaf_changed(base, p, n);
                assert(base.update(p, n) =~= out);
            },
        }
    }
}

/// Up to two leaves of a whole tree can lose all their tabs without any other leaf being
/// lost.
pub proof fn law_few_emptied_leaves_take_no_other(
    nodes: Seq<NodeView>,
    table: Map<u64, u64>,
    out: Seq<NodeView>,
    i: int,
    j: int,
)
    requires
        is_tree(nodes),
        is_remapped_tree(nodes, table, out),
        forall|k: int| #[trigger] is_emptied(nodes, table, k) ==> k == i || k == j,
    ensures
        leaves_in(out).to_multiset() == leaves_in(kept_nodes(nodes, table)).to_multiset(),
{
    let kept = kept_nodes(nodes, table);
    let (a, b) = (is_emptied(nodes, table, i), is_emptied(nodes, table, j));
    if a && b && i != j {
        assert(are_only_emptied(nodes, table, i, j));
    } else if a || b {
        let k = if a {
            i
        } else {
            j
        };
        assert(is_only_emptied(nodes, table, k));
        if k > 0 {
            let (p, s) = (above(k), beside(k));
            assert(is_placed(nodes, k) && is_placed(nodes, p));
            assert(nodes[p].splits());
            assert(kept[p].splits());
            assert(s == 2 * p + 1 || s == 2 * p + 2);
            assert(!(nodes[s] is Empty));
            assert(!is_emptied(nodes, table, s));
            assert(kept[s] == kept_node(nodes[s], table));
        }
        lemma_closing_up_keeps_leaves(kept, k);
    } else {
        assert forall|k: int| !#[trigger] is_emptied(nodes, table, k) by {}
    }
}

} // verus!
