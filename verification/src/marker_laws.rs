//! What marker sets keep of their markers and links.

use vstd::prelude::*;

verus! {

use crate::markers::{
    has_link, has_marker, in_time_order, joined, marker_index, numbered, pairs_of, LinkView,
    MarkerView, MarkersView,
};
use crate::store::ChannelId;
use crate::text_laws::{law_digits_spell_the_number, spelled};

/// A marker that is added has a number that no other has, stands at its time and in its
/// colour, and is named by its number; the markers that there were, the links and the
/// selection stay as they are.
pub proof fn law_added_marker_is_new(s: MarkersView, t: u64, color: [u8; 3])
    requires
        s.wf(),
        s.next_id < u64::MAX,
    ensures
        ({
            let r = s.with_marker(t, color);
            let m = r.markers.last();
            &&& r.wf()
            &&& !has_marker(s.markers, m.id)
            &&& m.t_ns == t
            &&& m.color == color
            &&& m.label.len() > 1
            &&& m.label[0] == 'M'
            &&& spelled(m.label.skip(1), 10) == m.id
            &&& r.markers.drop_last() == s.markers
            &&& r.links == s.links
            &&& r.selected == s.selected
        }),
{
    let r = s.with_marker(t, color);
    let m = r.markers.last();
    law_digits_spell_the_number(s.next_id as nat, 10);
    assert(m.label.skip(1) =~= crate::text::decimal(s.next_id as nat));
    assert(r.markers.drop_last() =~= s.markers);
    assert forall|i: int| 0 <= i < r.markers.len() implies (#[trigger] r.markers[i]).id
        < r.next_id by {
        if i < s.markers.len() {
            assert(r.markers[i] == s.markers[i]);
        }
    }
    assert forall|i: int, j: int| 0 <= i < j < r.markers.len() implies (#[trigger] r.markers[i]).id
        != (#[trigger] r.markers[j]).id by {
        assert(r.markers[i] == s.markers[i]);
        if j < s.markers.len() {
            assert(r.markers[j] == s.markers[j]);
        }
    }
}

/// A link that is added has a number that no other has, joins its two markers in the
/// given direction with its signals, and stands at half height; nothing else changes.
pub proof fn law_added_link_is_new(s: MarkersView, a: u64, b: u64, signals: Seq<ChannelId>)
    requires
        s.wf(),
        s.next_link_id < u64::MAX,
    ensures
        ({
            let r = s.with_link(a, b, signals);
            let l = r.links.last();
            &&& r.wf()
            &&& !has_link(s.links, l.id)
            &&& l.a == a
            &&& l.b == b
            &&& l.signals == signals
            &&& l.y_frac == 0x3f00_0000
            &&& r.links.drop_last() == s.links
            &&& r.markers == s.markers
            &&& r.selected == s.selected
        }),
{
    let r = s.with_link(a, b, signals);
    assert(r.links.drop_last() =~= s.links);
    assert forall|i: int| 0 <= i < r.links.len() implies (#[trigger] r.links[i]).id
        < r.next_link_id by {
        if i < s.links.len() {
            assert(r.links[i] == s.links[i]);
        }
    }
    assert forall|i: int, j: int| 0 <= i < j < r.links.len() implies (#[trigger] r.links[i]).id != (
    #[trigger] r.links[j]).id by {
        assert(r.links[i] == s.links[i]);
        if j < s.links.len() {
            assert(r.links[j] == s.links[j]);
        }
    }
}

/// Removing a marker keeps every other marker, in their order, and a selection of
/// another.
pub proof fn law_other_markers_stay(s: MarkersView, id: u64, m: MarkerView)
    ensures
        m.id != id ==> (s.without(id).markers.contains(m) <==> s.markers.contains(m)),
        s.selected != Some(id) ==> s.without(id).selected == s.selected,
        !has_marker(s.markers, id) ==> s.without(id).markers == s.markers,
        (forall|i: int| 0 <= i < s.links.len() ==> !(#[trigger] s.links[i]).touches(id))
            ==> s.without(id).links == s.links,
{
    let p = |m: MarkerView| m.id != id;
    if m.id != id {
        if s.markers.contains(m) {
            let i = choose|i: int| 0 <= i < s.markers.len() && s.markers[i] == m;
            s.markers.lemma_filter_contains(p, i);
        }
        if s.without(id).markers.contains(m) {
            s.markers.lemma_filter_contains_rev(p, m);
        }
    }
    if !has_marker(s.markers, id) {
        lemma_filter_all(s.markers, p);
    }
    let q = |l: LinkView| !l.touches(id);
    if forall|i: int| 0 <= i < s.links.len() ==> !(#[trigger] s.links[i]).touches(id) {
        lemma_filter_all(s.links, q);
    }
}

proof fn lemma_filter_all<A>(s: Seq<A>, p: spec_fn(A) -> bool)
    requires
        forall|i: int| 0 <= i < s.len() ==> p(#[trigger] s[i]),
    ensures
        s.filter(p) == s,
    decreases s.len(),
{
    reveal(Seq::filter);
    if s.len() > 0 {
        let r = s.drop_last();
        assert forall|i: int| 0 <= i < r.len() implies p(#[trigger] r[i]) by {
            assert(s[i] == r[i]);
        }
        lemma_filter_all(r, p);
        assert(p(s[s.len() - 1]));
        assert(s =~= r.push(s.last()));
    }
}

proof fn lemma_marker_index(markers: Seq<MarkerView>, id: u64, i: int)
    requires
        0 <= i <= markers.len(),
    ensures
        i <= marker_index(markers, id, i) <= markers.len(),
        marker_index(markers, id, i) < markers.len() ==> markers[marker_index(markers, id, i)].id
            == id,
        forall|k: int| i <= k < marker_index(markers, id, i) ==> (#[trigger] markers[k]).id != id,
    decreases markers.len() - i,
{
    if i < markers.len() && markers[i].id != id {
        lemma_marker_index(markers, id, i + 1);
    }
}

/// The links whose two ends exist are listed in their order, each with the marker it
/// starts from and the one it leads to.
pub proof fn law_pairs_are_the_ends(markers: Seq<MarkerView>, links: Seq<LinkView>, n: nat)
    requires
        n <= links.len(),
    ensures
        pairs_of(markers, links, n).map_values(|p: (MarkerView, MarkerView, LinkView)| p.2)
            == links.take(n as int).filter(
            |l: LinkView| has_marker(markers, l.a) && has_marker(markers, l.b),
        ),
        forall|i: int|
            0 <= i < pairs_of(markers, links, n).len() ==> ({
                let p = #[trigger] pairs_of(markers, links, n)[i];
                &&& p.0.id == p.2.a
                &&& p.1.id == p.2.b
                &&& markers.contains(p.0)
                &&& markers.contains(p.1)
            }),
    decreases n,
{
    reveal(Seq::filter);
    let ends = |l: LinkView| has_marker(markers, l.a) && has_marker(markers, l.b);
    let third = |p: (MarkerView, MarkerView, LinkView)| p.2;
    let all = pairs_of(markers, links, n);
    if n > 0 {
        let m = (n - 1) as nat;
        let l = links[m as int];
        law_pairs_are_the_ends(markers, links, m);
        lemma_marker_index(markers, l.a, 0);
        lemma_marker_index(markers, l.b, 0);
        let (ia, ib) = (marker_index(markers, l.a, 0), marker_index(markers, l.b, 0));
        assert(links.take(n as int).drop_last() =~= links.take(m as int));
        let before = pairs_of(markers, links, m);
        if has_marker(markers, l.a) {
            let i = choose|i: int| 0 <= i < markers.len() && (#[trigger] markers[i]).id == l.a;
            assert(ia < markers.len());
        }
        if has_marker(markers, l.b) {
            let i = choose|i: int| 0 <= i < markers.len() && (#[trigger] markers[i]).id == l.b;
            assert(ib < markers.len());
        }
        if ia < markers.len() {
            assert(markers[ia].id == l.a);
        }
        if ib < markers.len() {
            assert(markers[ib].id == l.b);
        }
        if ends(l) {
            assert(all.map_values(third) =~= before.map_values(third).push(l));
        } else {
            assert(all =~= before);
        }
        assert(all.map_values(third) =~= links.take(n as int).filter(ends));
    } else {
        assert(all.map_values(third) =~= links.take(0).filter(ends));
    }
}

/// A pair in order of time is the same pair, with the earlier marker first.
pub proof fn law_pair_in_time_order_is_the_pair(p: (MarkerView, MarkerView, LinkView))
    ensures
        in_time_order(p).0.t_ns <= in_time_order(p).1.t_ns,
        in_time_order(p).2 == p.2,
        in_time_order(p) == p || (in_time_order(p).0 == p.1 && in_time_order(p).1 == p.0 && p.0.t_ns
            > p.1.t_ns),
{
}

/// The links of a layout that are kept are those that join two of its markers, in their
/// order and under new numbers; each leads from the marker at its first place to the one
/// at its second.
pub proof fn law_layout_links_join_their_markers(
    markers: Seq<(u64, String, [u8; 3])>,
    links: Seq<(usize, usize, u32, Vec<ChannelId>)>,
    k: nat,
)
    requires
        k <= links.len() < u64::MAX,
        markers.len() < usize::MAX,
    ensures
        ({
            let all = numbered(markers);
            let r = joined(links, markers.len(), k);
            let kept = links.take(k as int).filter(
                |l: (usize, usize, u32, Vec<ChannelId>)| l.0 < markers.len() && l.1 < markers.len(),
            );
            &&& all.len() == markers.len()
            &&& r.len() == kept.len() <= k
            &&& forall|i: int|
                0 <= i < r.len() ==> ({
                    let l = #[trigger] r[i];
                    &&& l.id == i + 1
                    &&& kept[i].0 < all.len() && l.a == all[kept[i].0 as int].id
                    &&& kept[i].1 < all.len() && l.b == all[kept[i].1 as int].id
                    &&& l.y_frac == kept[i].2
                    &&& l.signals == kept[i].3@
                })
        }),
    decreases k,
{
    reveal(Seq::filter);
    let f = |l: (usize, usize, u32, Vec<ChannelId>)| l.0 < markers.len() && l.1 < markers.len();
    if k > 0 {
        law_layout_links_join_their_markers(markers, links, (k - 1) as nat);
        assert(links.take(k as int).drop_last() =~= links.take(k - 1));
    }
}

/// The markers of a layout keep their order, times, names and colours, and have numbers
/// that differ.
pub proof fn law_layout_markers_are_numbered(markers: Seq<(u64, String, [u8; 3])>, i: int, j: int)
    requires
        markers.len() < u64::MAX,
        0 <= i < j < markers.len(),
    ensures
        numbered(markers).len() == markers.len(),
        numbered(markers)[i].id != numbered(markers)[j].id,
        numbered(markers)[i].id > 0,
        numbered(markers)[i].t_ns == markers[i].0,
        numbered(markers)[i].label == markers[i].1@,
        numbered(markers)[i].color == markers[i].2,
{
}

/// Removing a marker removes it and every link that starts from it or leads to it. All
/// other markers and links stay, and the selection stays unless it was on that marker.
pub proof fn law_removed_marker_takes_its_links(
    m: MarkersView,
    id: u64,
    other: MarkerView,
    link: LinkView,
)
    ensures
        m.without(id).markers.contains(other) <==> m.markers.contains(other) && other.id != id,
        m.without(id).links.contains(link) <==> m.links.contains(link) && link.a != id && link.b
            != id,
        m.selected == Some(id) ==> m.without(id).selected is None,
        m.selected != Some(id) ==> m.without(id).selected == m.selected,
        m.without(id).next_id == m.next_id && m.without(id).next_link_id == m.next_link_id,
{
    let p = |m: MarkerView| m.id != id;
    let q = |l: LinkView| !l.touches(id);
    if m.markers.contains(other) && other.id != id {
        let i = choose|i: int| 0 <= i < m.markers.len() && m.markers[i] == other;
        m.markers.lemma_filter_contains(p, i);
    }
    if m.without(id).markers.contains(other) {
        m.markers.lemma_filter_contains_rev(p, other);
        let w = m.markers.filter(p);
        let i = choose|i: int| 0 <= i < w.len() && w[i] == other;
        m.markers.lemma_filter_pred(p, i);
    }
    if m.links.contains(link) && link.a != id && link.b != id {
        let i = choose|i: int| 0 <= i < m.links.len() && m.links[i] == link;
        m.links.lemma_filter_contains(q, i);
    }
    if m.without(id).links.contains(link) {
        m.links.lemma_filter_contains_rev(q, link);
        let w = m.links.filter(q);
        let i = choose|i: int| 0 <= i < w.len() && w[i] == link;
        m.links.lemma_filter_pred(q, i);
    }
}

} // verus!
