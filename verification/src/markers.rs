//! Markers on the time axis and the links between them.

use crate::store::ChannelId;
use crate::text::append_digits;
use vstd::prelude::*;

verus! {

use crate::text::decimal;

/// A marker on the global time axis.
#[derive(Clone, Debug)]
pub struct Marker {
    pub id: u64,
    pub t_ns: u64,
    pub label: String,
    pub color: [u8; 3],
}

/// A relation between two markers. A marker can be part of many.
#[derive(Clone, Debug)]
pub struct Link {
    pub id: u64,
    /// The marker it starts from.
    pub a: u64,
    /// The marker it leads to.
    pub b: u64,
    /// Height in the plot, a single from 0 at the bottom to 1 at the top.
    pub y_frac: u32,
    /// Signals whose values are shown with the link.
    pub signals: Vec<ChannelId>,
}

/// The single 0.5: the height of a new link.
pub const HALF: u32 = 0x3f00_0000;

/// What a [`Marker`] says.
#[verifier::ext_equal]
pub struct MarkerView {
    pub id: u64,
    pub t_ns: u64,
    pub label: Seq<char>,
    pub color: [u8; 3],
}

/// What a [`Link`] says.
#[verifier::ext_equal]
pub struct LinkView {
    pub id: u64,
    pub a: u64,
    pub b: u64,
    pub y_frac: u32,
    pub signals: Seq<ChannelId>,
}

impl View for Marker {
    type V = MarkerView;

    open spec fn view(&self) -> MarkerView {
        MarkerView { id: self.id, t_ns: self.t_ns, label: self.label@, color: self.color }
    }
}

impl View for Link {
    type V = LinkView;

    open spec fn view(&self) -> LinkView {
        LinkView {
            id: self.id,
            a: self.a,
            b: self.b,
            y_frac: self.y_frac,
            signals: self.signals@,
        }
    }
}

/// What a list of markers says.
pub open spec fn markers_view(s: Seq<Marker>) -> Seq<MarkerView> {
    s.map_values(|m: Marker| m@)
}

/// What a list of links says.
pub open spec fn links_view(s: Seq<Link>) -> Seq<LinkView> {
    s.map_values(|l: Link| l@)
}

/// The markers, the links and the selection.
#[derive(Debug)]
pub struct MarkerSet {
    pub markers: Vec<Marker>,
    pub links: Vec<Link>,
    pub selected: Option<u64>,
    next_id: u64,
    next_link_id: u64,
}

/// What a [`MarkerSet`] holds.
#[verifier::ext_equal]
pub struct MarkersView {
    pub markers: Seq<MarkerView>,
    pub links: Seq<LinkView>,
    pub selected: Option<u64>,
    pub next_id: u64,
    pub next_link_id: u64,
}

impl View for MarkerSet {
    type V = MarkersView;

    closed spec fn view(&self) -> MarkersView {
        MarkersView {
            markers: markers_view(self.markers@),
            links: links_view(self.links@),
            selected: self.selected,
            next_id: self.next_id,
            next_link_id: self.next_link_id,
        }
    }
}

/// The index of the first marker with the id.
pub open spec fn is_marker_at(s: Seq<MarkerView>, id: u64, i: int) -> bool {
    &&& 0 <= i < s.len()
    &&& s[i].id == id
    &&& forall|j: int| 0 <= j < i ==> (#[trigger] s[j]).id != id
}

/// Whether a marker has the id.
pub open spec fn has_marker(s: Seq<MarkerView>, id: u64) -> bool {
    exists|i: int| 0 <= i < s.len() && (#[trigger] s[i]).id == id
}

/// The index of the first link with the id.
pub open spec fn is_link_at(s: Seq<LinkView>, id: u64, i: int) -> bool {
    &&& 0 <= i < s.len()
    &&& s[i].id == id
    &&& forall|j: int| 0 <= j < i ==> (#[trigger] s[j]).id != id
}

/// Whether a link has the id.
pub open spec fn has_link(s: Seq<LinkView>, id: u64) -> bool {
    exists|i: int| 0 <= i < s.len() && (#[trigger] s[i]).id == id
}

impl LinkView {
    /// Whether the marker is one of the link's ends.
    pub open spec fn touches(self, id: u64) -> bool {
        self.a == id || self.b == id
    }
}

impl MarkersView {
    /// Markers have different ids, links have different ids, and every id was
    /// given out.
    pub open spec fn wf(self) -> bool {
        &&& self.next_id >= 1
        &&& self.next_link_id >= 1
        &&& forall|i: int| 0 <= i < self.markers.len() ==> (#[trigger] self.markers[i]).id
            < self.next_id
        &&& forall|i: int| 0 <= i < self.links.len() ==> (#[trigger] self.links[i]).id
            < self.next_link_id
        &&& forall|i: int, j: int|
            0 <= i < j < self.markers.len() ==> (#[trigger] self.markers[i]).id != (
            #[trigger] self.markers[j]).id
        &&& forall|i: int, j: int|
            0 <= i < j < self.links.len() ==> (#[trigger] self.links[i]).id != (
            #[trigger] self.links[j]).id
    }

    pub open spec fn empty() -> MarkersView {
        MarkersView {
            markers: Seq::empty(),
            links: Seq::empty(),
            selected: None,
            next_id: 1,
            next_link_id: 1,
        }
    }

    /// The set with one more marker, named by its number.
    pub open spec fn with_marker(self, t_ns: u64, color: [u8; 3]) -> MarkersView {
        MarkersView {
            markers: self.markers.push(
                MarkerView {
                    id: self.next_id,
                    t_ns,
                    label: seq!['M'] + decimal(self.next_id as nat),
                    color,
                },
            ),
            next_id: (self.next_id + 1) as u64,
            ..self
        }
    }

    /// The set with one more link, at half height.
    pub open spec fn with_link(self, a: u64, b: u64, signals: Seq<ChannelId>) -> MarkersView {
        MarkersView {
            links: self.links.push(
                LinkView { id: self.next_link_id, a, b, y_frac: HALF, signals },
            ),
            next_link_id: (self.next_link_id + 1) as u64,
            ..self
        }
    }

    /// The set without a marker and the links that touch it.
    pub open spec fn without(self, id: u64) -> MarkersView {
        MarkersView {
            markers: self.markers.filter(|m: MarkerView| m.id != id),
            links: self.links.filter(|l: LinkView| !l.touches(id)),
            selected: if self.selected == Some(id) {
                None
            } else {
                self.selected
            },
            ..self
        }
    }
}

/// The markers of a layout, numbered from one.
pub open spec fn numbered(markers: Seq<(u64, String, [u8; 3])>) -> Seq<MarkerView> {
    Seq::new(
        markers.len(),
        |i: int|
            MarkerView {
                id: (i + 1) as u64,
                t_ns: markers[i].0,
                label: markers[i].1@,
                color: markers[i].2,
            },
    )
}

/// The first `k` links of a layout that join two of `n` markers, numbered from one.
pub open spec fn joined(links: Seq<(usize, usize, u32, Vec<ChannelId>)>, n: nat, k: nat) -> Seq<
    LinkView,
>
    decreases k,
{
    if k == 0 {
        Seq::empty()
    } else {
        let before = joined(links, n, (k - 1) as nat);
        let l = links[k - 1];
        if l.0 < n && l.1 < n {
            before.push(
                LinkView {
                    id: (before.len() + 1) as u64,
                    a: (l.0 + 1) as u64,
                    b: (l.1 + 1) as u64,
                    y_frac: l.2,
                    signals: l.3@,
                },
            )
        } else {
            before
        }
    }
}

/// The links whose ends both exist, each with its ends.
pub open spec fn pairs_of(markers: Seq<MarkerView>, links: Seq<LinkView>, n: nat) -> Seq<
    (MarkerView, MarkerView, LinkView),
>
    decreases n,
{
    if n == 0 {
        Seq::empty()
    } else {
        let before = pairs_of(markers, links, (n - 1) as nat);
        let l = links[n - 1];
        let ia = marker_index(markers, l.a, 0);
        let ib = marker_index(markers, l.b, 0);
        if ia < markers.len() && ib < markers.len() {
            before.push((markers[ia], markers[ib], l))
        } else {
            before
        }
    }
}

/// The first index at or after `i` of the marker with the id, or the end.
pub open spec fn marker_index(markers: Seq<MarkerView>, id: u64, i: int) -> int
    decreases markers.len() - i,
{
    if i >= markers.len() || markers[i].id == id {
        i
    } else {
        marker_index(markers, id, i + 1)
    }
}

/// The pair with the earlier marker first.
pub open spec fn in_time_order(p: (MarkerView, MarkerView, LinkView)) -> (
    MarkerView,
    MarkerView,
    LinkView,
) {
    if p.0.t_ns <= p.1.t_ns {
        p
    } else {
        (p.1, p.0, p.2)
    }
}

/// What a list of pairs says.
pub open spec fn pairs_view(v: Seq<(&Marker, &Marker, &Link)>) -> Seq<
    (MarkerView, MarkerView, LinkView),
> {
    v.map_values(|p: (&Marker, &Marker, &Link)| (p.0@, p.1@, p.2@))
}

proof fn lemma_filter_facts<A>(s: Seq<A>, p: spec_fn(A) -> bool)
    ensures
        forall|i: int| 0 <= i < s.filter(p).len() ==> p(#[trigger] s.filter(p)[i]),
        forall|i: int| 0 <= i < s.filter(p).len() ==> s.contains(#[trigger] s.filter(p)[i]),
        forall|x: A| #[trigger] s.contains(x) && p(x) ==> s.filter(p).contains(x),
        s.filter(p).len() <= s.len(),
    decreases s.len(),
{
    reveal(Seq::filter);
    if s.len() > 0 {
        let r = s.drop_last();
        lemma_filter_facts(r, p);
        let f = s.filter(p);
        let g = r.filter(p);
        assert forall|i: int| 0 <= i < f.len() implies s.contains(#[trigger] f[i]) by {
            if i < g.len() {
                assert(r.contains(g[i]));
                let k = choose|k: int| 0 <= k < r.len() && r[k] == g[i];
                assert(s[k] == f[i]);
            } else {
                assert(s[s.len() - 1] == f[i]);
            }
        }
        assert forall|x: A| #[trigger] s.contains(x) && p(x) implies f.contains(x) by {
            let k = choose|k: int| 0 <= k < s.len() && s[k] == x;
            if k < s.len() - 1 {
                assert(r[k] == x);
                assert(r.contains(x));
                assert(g.contains(x));
                let j = choose|j: int| 0 <= j < g.len() && g[j] == x;
                assert(f[j] == x);
            } else {
                assert(f[f.len() - 1] == x);
            }
        }
    }
}

/// Filtering keeps different elements different.
proof fn lemma_filter_distinct<A>(s: Seq<A>, p: spec_fn(A) -> bool, key: spec_fn(A) -> u64)
    requires
        forall|i: int, j: int| 0 <= i < j < s.len() ==> key(#[trigger] s[i]) != key(#[trigger] s[j]),
    ensures
        forall|i: int, j: int|
            0 <= i < j < s.filter(p).len() ==> key(#[trigger] s.filter(p)[i]) != key(
                #[trigger] s.filter(p)[j],
            ),
    decreases s.len(),
{
    reveal(Seq::filter);
    if s.len() > 0 {
        let r = s.drop_last();
        lemma_filter_distinct(r, p, key);
        lemma_filter_facts(r, p);
        let f = s.filter(p);
        let g = r.filter(p);
        assert forall|i: int, j: int| 0 <= i < j < f.len() implies key(#[trigger] f[i]) != key(
            #[trigger] f[j],
        ) by {
            if j == g.len() {
                assert(r.contains(g[i]));
                let k = choose|k: int| 0 <= k < r.len() && r[k] == g[i];
                assert(s[k] == f[i]);
                assert(s[s.len() - 1] == f[j]);
            }
        }
    }
}

impl MarkerSet {
    pub fn new() -> (r: Self)
        ensures
            r@.wf(),
            r@ == MarkersView::empty(),
    {
        let r = MarkerSet {
            markers: Vec::new(),
            links: Vec::new(),
            selected: None,
            next_id: 1,
            next_link_id: 1,
        };
        assert(r@.markers =~= Seq::empty());
        assert(r@.links =~= Seq::empty());
        r
    }

    /// Replaces everything with the markers and links of a layout, under new
    /// numbers. Links name their ends by position; one that names no marker is
    /// left out.
    pub fn restore(
        &mut self,
        markers: &Vec<(u64, String, [u8; 3])>,
        links: &Vec<(usize, usize, u32, Vec<ChannelId>)>,
    )
        requires
            markers@.len() < u64::MAX,
            links@.len() < u64::MAX,
        ensures
            final(self)@.wf(),
            final(self)@ == (MarkersView {
                markers: numbered(markers@),
                links: joined(links@, markers@.len(), links@.len()),
                selected: None,
                next_id: (markers@.len() + 1) as u64,
                next_link_id: (joined(links@, markers@.len(), links@.len()).len() + 1) as u64,
            }),
    {
        let mut ms: Vec<Marker> = Vec::new();
        let mut i: usize = 0;
        while i < markers.len()
            invariant
                i <= markers@.len() < u64::MAX,
                ms@.len() == i,
                forall|j: int| 0 <= j < i ==> (#[trigger] ms@[j])@ == numbered(markers@)[j],
            decreases markers@.len() - i,
        {
            let id: u64 = i as u64 + 1;
            ms.push(
                Marker {
                    id,
                    t_ns: markers[i].0,
                    label: markers[i].1.clone(),
                    color: markers[i].2,
                },
            );
            i = i + 1;
        }
        let n: usize = markers.len();
        let mut ls: Vec<Link> = Vec::new();
        i = 0;
        assert(links_view(ls@) =~= joined(links@, n as nat, 0));
        while i < links.len()
            invariant
                i <= links@.len() < u64::MAX,
                n < u64::MAX,
                ls@.len() <= i,
                links_view(ls@) == joined(links@, n as nat, i as nat),
                forall|j: int| 0 <= j < ls@.len() ==> (#[trigger] ls@[j]).id == j + 1,
            decreases links@.len() - i,
        {
            let l = &links[i];
            let ghost before = ls@;
            if l.0 < n && l.1 < n {
                let id: u64 = ls.len() as u64 + 1;
                let fresh = Link {
                    id,
                    a: l.0 as u64 + 1,
                    b: l.1 as u64 + 1,
                    y_frac: l.2,
                    signals: l.3.clone(),
                };
                assert(fresh.signals@ =~= l.3@);
                ls.push(fresh);
                assert(links_view(ls@) =~= links_view(before).push(
                    fresh@,
                ));
            }
            i = i + 1;
        }
        self.next_id = ms.len() as u64 + 1;
        self.next_link_id = ls.len() as u64 + 1;
        self.markers = ms;
        self.links = ls;
        self.selected = None;
        proof {
            assert(self@.markers =~= numbered(markers@));
            assert(self@.links =~= joined(links@, n as nat, links@.len()));
            assert forall|j: int| 0 <= j < self@.links.len() implies (
            #[trigger] self@.links[j]).id == j + 1 by {
                assert(self@.links[j] == self.links@[j]@);
            }
        }
    }

    /// Adds a marker that nothing links to. Gives its id.
    pub fn add(&mut self, t_ns: u64, color: [u8; 3]) -> (id: u64)
        requires
            old(self)@.wf(),
            old(self)@.next_id < u64::MAX,
        ensures
            final(self)@.wf(),
            id == old(self)@.next_id,
            final(self)@ == old(self)@.with_marker(t_ns, color),
    {
        let id: u64 = self.next_id;
        let mut label = String::new();
        label.push('M');
        append_digits(&mut label, id, 10);
        assert(label@ =~= seq!['M'] + decimal(id as nat));
        self.next_id = id + 1;
        self.markers.push(Marker { id, t_ns, label, color });
        proof {
            let want = old(self)@.with_marker(t_ns, color);
            assert(self@.markers =~= want.markers);
        }
        id
    }

    /// Adds a marker and a link from the anchor to it. Nothing if there is no such
    /// anchor.
    pub fn add_linked_to(
        &mut self,
        anchor_id: u64,
        t_ns: u64,
        color: [u8; 3],
        signals: Vec<ChannelId>,
    ) -> (r: Option<(u64, u64)>)
        requires
            old(self)@.wf(),
            old(self)@.next_id < u64::MAX,
            old(self)@.next_link_id < u64::MAX,
        ensures
            final(self)@.wf(),
            match r {
                Some((m, l)) => {
                    &&& has_marker(old(self)@.markers, anchor_id)
                    &&& m == old(self)@.next_id
                    &&& l == old(self)@.next_link_id
                    &&& final(self)@ == old(self)@.with_marker(t_ns, color).with_link(
                        anchor_id,
                        m,
                        signals@,
                    )
                },
                None => !has_marker(old(self)@.markers, anchor_id) && final(self)@ == old(self)@,
            },
    {
        if self.get(anchor_id).is_none() {
            return None;
        }
        let marker_id = self.add(t_ns, color);
        proof {
            let before = old(self)@.markers;
            let i = choose|i: int| 0 <= i < before.len() && (#[trigger] before[i]).id == anchor_id;
            assert(self@.markers[i].id == anchor_id);
            assert(self@.markers[before.len() as int].id == marker_id);
        }
        let link_id = self.link(anchor_id, marker_id, signals);
        Some((marker_id, link_id))
    }

    /// Removes a marker and every link that touches it.
    pub fn remove(&mut self, id: u64)
        requires
            old(self)@.wf(),
        ensures
            final(self)@.wf(),
            final(self)@ == old(self)@.without(id),
    {
        let ghost before = self@;
        let ghost keep_m = |m: MarkerView| m.id != id;
        let ghost keep_l = |l: LinkView| !l.touches(id);
        let mut markers: Vec<Marker> = Vec::new();
        std::mem::swap(&mut markers, &mut self.markers);
        let ghost all_m = markers_view(markers@);
        let mut kept: Vec<Marker> = Vec::new();
        proof {
            reveal(Seq::filter);
            assert(markers_view(kept@) =~= all_m.take(0).filter(keep_m));
        }
        let mut i: usize = 0;
        while i < markers.len()
            invariant
                i <= markers@.len(),
                all_m == markers_view(markers@),
                keep_m == (|m: MarkerView| m.id != id),
                markers_view(kept@) == all_m.take(i as int).filter(keep_m),
            decreases markers@.len() - i,
        {
            proof {
                reveal(Seq::filter);
                assert(all_m.take(i + 1).drop_last() =~= all_m.take(i as int));
                assert(all_m[i as int] == markers@[i as int]@);
            }
            if markers[i].id != id {
                let ghost have = kept@;
                let copy = copy_marker(&markers[i]);
                kept.push(copy);
                assert(markers_view(kept@) =~= markers_view(have).push(
                    copy@,
                ));
            }
            i = i + 1;
        }
        assert(all_m.take(all_m.len() as int) =~= all_m);
        self.markers = kept;
        let mut links: Vec<Link> = Vec::new();
        std::mem::swap(&mut links, &mut self.links);
        let ghost all_l = links_view(links@);
        let mut kept_links: Vec<Link> = Vec::new();
        proof {
            reveal(Seq::filter);
            assert(links_view(kept_links@) =~= all_l.take(0).filter(keep_l));
        }
        i = 0;
        while i < links.len()
            invariant
                i <= links@.len(),
                all_l == links_view(links@),
                keep_l == (|l: LinkView| !l.touches(id)),
                links_view(kept_links@) == all_l.take(i as int).filter(keep_l),
            decreases links@.len() - i,
        {
            proof {
                reveal(Seq::filter);
                assert(all_l.take(i + 1).drop_last() =~= all_l.take(i as int));
                assert(all_l[i as int] == links@[i as int]@);
            }
            if links[i].a != id && links[i].b != id {
                let ghost have = kept_links@;
                let copy = copy_link(&links[i]);
                kept_links.push(copy);
                assert(links_view(kept_links@) =~= links_view(have).push(copy@));
            }
            i = i + 1;
        }
        assert(all_l.take(all_l.len() as int) =~= all_l);
        self.links = kept_links;
        if self.selected == Some(id) {
            self.selected = None;
        }
        proof {
            lemma_without_wf(before, id);
        }
    }

    /// Selects a marker, or none. An unknown marker selects none.
    pub fn select(&mut self, id: Option<u64>)
        ensures
            final(self)@ == (MarkersView {
                selected: match id {
                    Some(x) => if has_marker(old(self)@.markers, x) {
                        Some(x)
                    } else {
                        None
                    },
                    None => None,
                },
                ..old(self)@
            }),
    {
        let found = match id {
            Some(x) => if self.get(x).is_some() {
                Some(x)
            } else {
                None
            },
            None => None,
        };
        self.selected = found;
    }

    /// Links two different markers that are there. Gives the link's id.
    pub fn link(&mut self, a: u64, b: u64, signals: Vec<ChannelId>) -> (id: u64)
        requires
            old(self)@.wf(),
            old(self)@.next_link_id < u64::MAX,
            a != b,
            has_marker(old(self)@.markers, a),
            has_marker(old(self)@.markers, b),
        ensures
            final(self)@.wf(),
            id == old(self)@.next_link_id,
            final(self)@ == old(self)@.with_link(a, b, signals@),
    {
        let id: u64 = self.next_link_id;
        self.next_link_id = id + 1;
        self.links.push(Link { id, a, b, y_frac: HALF, signals });
        proof {
            let want = old(self)@.with_link(a, b, signals@);
            assert(self@.links =~= want.links);
        }
        id
    }

    /// Removes a link.
    pub fn unlink(&mut self, link_id: u64)
        requires
            old(self)@.wf(),
        ensures
            final(self)@.wf(),
            final(self)@ == (MarkersView {
                links: old(self)@.links.filter(|l: LinkView| l.id != link_id),
                ..old(self)@
            }),
    {
        let ghost before = self@;
        let ghost keep = |l: LinkView| l.id != link_id;
        let mut links: Vec<Link> = Vec::new();
        std::mem::swap(&mut links, &mut self.links);
        let ghost all = links_view(links@);
        let mut kept: Vec<Link> = Vec::new();
        proof {
            reveal(Seq::filter);
            assert(links_view(kept@) =~= all.take(0).filter(keep));
        }
        let mut i: usize = 0;
        while i < links.len()
            invariant
                i <= links@.len(),
                all == links_view(links@),
                keep == (|l: LinkView| l.id != link_id),
                links_view(kept@) == all.take(i as int).filter(keep),
            decreases links@.len() - i,
        {
            proof {
                reveal(Seq::filter);
                assert(all.take(i + 1).drop_last() =~= all.take(i as int));
                assert(all[i as int] == links@[i as int]@);
            }
            if links[i].id != link_id {
                let ghost have = kept@;
                let copy = copy_link(&links[i]);
                kept.push(copy);
                assert(links_view(kept@) =~= links_view(have).push(
                    copy@,
                ));
            }
            i = i + 1;
        }
        assert(all.take(all.len() as int) =~= all);
        self.links = kept;
        proof {
            lemma_filter_facts(before.links, keep);
            lemma_filter_distinct(before.links, keep, |l: LinkView| l.id);
            assert(self@.links == before.links.filter(keep));
            lemma_links_wf(before, before.links.filter(keep));
        }
    }

    fn marker_place(&self, id: u64) -> (r: usize)
        ensures
            r <= self.markers@.len(),
            r == marker_index(self@.markers, id, 0),
            forall|j: int| 0 <= j < r ==> (#[trigger] self.markers@[j]).id != id,
            r < self.markers@.len() ==> self.markers@[r as int].id == id,
    {
        let mut i: usize = 0;
        while i < self.markers.len() && self.markers[i].id != id
            invariant
                i <= self.markers@.len(),
                marker_index(self@.markers, id, 0) == marker_index(self@.markers, id, i as int),
                forall|j: int| 0 <= j < i ==> (#[trigger] self.markers@[j]).id != id,
            decreases self.markers@.len() - i,
        {
            assert(self@.markers[i as int] == self.markers@[i as int]@);
            i = i + 1;
        }
        i
    }

    pub fn get(&self, id: u64) -> (r: Option<&Marker>)
        ensures
            match r {
                Some(m) => exists|i: int| #[trigger]
                    is_marker_at(self@.markers, id, i) && self@.markers[i] == m@,
                None => !has_marker(self@.markers, id),
            },
            r is Some <==> has_marker(self@.markers, id),
    {
        let i = self.marker_place(id);
        assert forall|j: int| 0 <= j < self@.markers.len() implies #[trigger] self@.markers[j]
            == self.markers@[j]@ by {}
        if i < self.markers.len() {
            assert(is_marker_at(self@.markers, id, i as int));
            Some(&self.markers[i])
        } else {
            None
        }
    }

    /// A marker for editing.
    pub fn get_mut(&mut self, id: u64) -> (r: Option<&mut Marker>)
        ensures
            match r {
                Some(m) => exists|i: int| #[trigger]
                    is_marker_at(old(self)@.markers, id, i) && old(self)@.markers[i] == m@
                        && final(self)@ == (MarkersView {
                        markers: old(self)@.markers.update(i, final(m)@),
                        ..old(self)@
                    }),
                None => !has_marker(old(self)@.markers, id) && final(self)@ == old(self)@,
            },
    {
        let i = self.marker_place(id);
        let ghost before = self.markers@;
        assert forall|j: int| 0 <= j < self@.markers.len() implies #[trigger] self@.markers[j]
            == self.markers@[j]@ by {}
        if i < self.markers.len() {
            assert(is_marker_at(self@.markers, id, i as int));
            proof {
                assert forall|m: Marker| #[trigger]
                    markers_view(before.update(i as int, m))
                    == markers_view(before).update(i as int, m@) by {
                    assert(markers_view(before.update(i as int, m))
                        =~= markers_view(before).update(i as int, m@));
                }
            }
            Some(&mut self.markers[i])
        } else {
            None
        }
    }

    fn link_place(&self, id: u64) -> (r: usize)
        ensures
            r <= self.links@.len(),
            forall|j: int| 0 <= j < r ==> (#[trigger] self.links@[j]).id != id,
            r < self.links@.len() ==> self.links@[r as int].id == id,
    {
        let mut i: usize = 0;
        while i < self.links.len() && self.links[i].id != id
            invariant
                i <= self.links@.len(),
                forall|j: int| 0 <= j < i ==> (#[trigger] self.links@[j]).id != id,
            decreases self.links@.len() - i,
        {
            i = i + 1;
        }
        i
    }

    pub fn get_link(&self, link_id: u64) -> (r: Option<&Link>)
        ensures
            match r {
                Some(l) => exists|i: int| #[trigger]
                    is_link_at(self@.links, link_id, i) && self@.links[i] == l@,
                None => !has_link(self@.links, link_id),
            },
    {
        let i = self.link_place(link_id);
        assert forall|j: int| 0 <= j < self@.links.len() implies #[trigger] self@.links[j]
            == self.links@[j]@ by {}
        if i < self.links.len() {
            assert(is_link_at(self@.links, link_id, i as int));
            Some(&self.links[i])
        } else {
            None
        }
    }

    /// A link for editing.
    pub fn get_link_mut(&mut self, link_id: u64) -> (r: Option<&mut Link>)
        ensures
            match r {
                Some(l) => exists|i: int| #[trigger]
                    is_link_at(old(self)@.links, link_id, i) && old(self)@.links[i] == l@
                        && final(self)@ == (MarkersView {
                        links: old(self)@.links.update(i, final(l)@),
                        ..old(self)@
                    }),
                None => !has_link(old(self)@.links, link_id) && final(self)@ == old(self)@,
            },
    {
        let i = self.link_place(link_id);
        let ghost before = self.links@;
        assert forall|j: int| 0 <= j < self@.links.len() implies #[trigger] self@.links[j]
            == self.links@[j]@ by {}
        if i < self.links.len() {
            assert(is_link_at(self@.links, link_id, i as int));
            proof {
                assert forall|l: Link| #[trigger]
                    links_view(before.update(i as int, l)) == links_view(before).update(i as int, l@) by {
                    assert(links_view(before.update(i as int, l))
                        =~= links_view(before).update(i as int, l@));
                }
            }
            Some(&mut self.links[i])
        } else {
            None
        }
    }

    /// The links that touch a marker.
    pub fn links_for(&self, marker_id: u64) -> (r: Vec<&Link>)
        ensures
            r@.map_values(|l: &Link| l@) == self@.links.filter(
                |l: LinkView| l.touches(marker_id),
            ),
    {
        let ghost all = self@.links;
        let ghost keep = |l: LinkView| l.touches(marker_id);
        let mut out: Vec<&Link> = Vec::new();
        let mut i: usize = 0;
        proof {
            reveal(Seq::filter);
            assert(out@.map_values(|l: &Link| l@) =~= all.take(0).filter(keep));
        }
        while i < self.links.len()
            invariant
                i <= self.links@.len(),
                all == self@.links,
                keep == (|l: LinkView| l.touches(marker_id)),
                out@.map_values(|l: &Link| l@) == all.take(i as int).filter(keep),
            decreases self.links@.len() - i,
        {
            proof {
                reveal(Seq::filter);
                assert(all.take(i + 1).drop_last() =~= all.take(i as int));
                assert(all[i as int] == self.links@[i as int]@);
            }
            let l = &self.links[i];
            if l.a == marker_id || l.b == marker_id {
                let ghost have = out@;
                out.push(l);
                assert(out@.map_values(|l: &Link| l@) =~= have.map_values(|l: &Link| l@).push(l@));
            }
            i = i + 1;
        }
        assert(all.take(all.len() as int) =~= all);
        out
    }

    /// Every link whose ends both exist, as `(from, to, link)`.
    pub fn link_pairs(&self) -> (r: Vec<(&Marker, &Marker, &Link)>)
        ensures
            pairs_view(r@) == pairs_of(self@.markers, self@.links, self@.links.len()),
    {
        let mut out: Vec<(&Marker, &Marker, &Link)> = Vec::new();
        let mut i: usize = 0;
        assert(pairs_view(out@) =~= pairs_of(self@.markers, self@.links, 0));
        while i < self.links.len()
            invariant
                i <= self.links@.len(),
                pairs_view(out@) == pairs_of(self@.markers, self@.links, i as nat),
            decreases self.links@.len() - i,
        {
            let l = &self.links[i];
            assert(self@.links[i as int] == l@);
            let ia = self.marker_place(l.a);
            let ib = self.marker_place(l.b);
            if ia < self.markers.len() && ib < self.markers.len() {
                let ghost have = out@;
                let p = (&self.markers[ia], &self.markers[ib], l);
                assert(self@.markers[ia as int] == p.0@);
                assert(self@.markers[ib as int] == p.1@);
                out.push(p);
                assert(pairs_view(out@) =~= pairs_view(have).push((p.0@, p.1@, p.2@)));
            }
            i = i + 1;
        }
        out
    }

    /// The same, with the earlier marker first.
    pub fn time_ordered_pairs(&self) -> (r: Vec<(&Marker, &Marker, &Link)>)
        ensures
            pairs_view(r@) == pairs_of(
                self@.markers,
                self@.links,
                self@.links.len(),
            ).map_values(|p: (MarkerView, MarkerView, LinkView)| in_time_order(p)),
    {
        let pairs = self.link_pairs();
        let mut out: Vec<(&Marker, &Marker, &Link)> = Vec::new();
        let mut i: usize = 0;
        while i < pairs.len()
            invariant
                i <= pairs@.len(),
                out@.len() == i,
                forall|j: int|
                    0 <= j < i ==> ((#[trigger] out@[j]).0@, out@[j].1@, out@[j].2@)
                        == in_time_order((pairs@[j].0@, pairs@[j].1@, pairs@[j].2@)),
            decreases pairs@.len() - i,
        {
            let p = pairs[i];
            if p.0.t_ns <= p.1.t_ns {
                out.push(p);
            } else {
                out.push((p.1, p.0, p.2));
            }
            i = i + 1;
        }
        proof {
            assert(pairs_view(out@) =~= pairs_view(pairs@).map_values(
                |p: (MarkerView, MarkerView, LinkView)| in_time_order(p),
            ));
        }
        out
    }

    /// The markers, in the order in which they were added.
    pub fn all_markers(&self) -> (r: &Vec<Marker>)
        ensures
            markers_view(r@) == self@.markers,
    {
        &self.markers
    }

    /// The links, in the order in which they were made.
    pub fn all_links(&self) -> (r: &Vec<Link>)
        ensures
            links_view(r@) == self@.links,
    {
        &self.links
    }

    /// The marker that is selected.
    pub fn selected_id(&self) -> (r: Option<u64>)
        ensures
            r == self@.selected,
    {
        self.selected
    }

    /// The marker that was added last.
    pub fn last_id(&self) -> (r: Option<u64>)
        ensures
            r == (if self@.markers.len() > 0 {
                Some(self@.markers.last().id)
            } else {
                None
            }),
    {
        let n: usize = self.markers.len();
        if n > 0 {
            assert(self@.markers[n - 1] == self.markers@[n - 1]@);
            Some(self.markers[n - 1].id)
        } else {
            None
        }
    }

    /// Whether there are numbers left for one more marker and one more link.
    pub fn has_room(&self) -> (r: bool)
        ensures
            r == (self@.next_id < u64::MAX && self@.next_link_id < u64::MAX),
    {
        self.next_id < u64::MAX && self.next_link_id < u64::MAX
    }

    pub fn is_empty(&self) -> (r: bool)
        ensures
            r == (self@.markers.len() == 0),
    {
        self.markers.len() == 0
    }

    pub fn len(&self) -> (r: usize)
        ensures
            r == self@.markers.len(),
    {
        self.markers.len()
    }
}

impl Default for MarkerSet {
    fn default() -> (r: Self)
        ensures
            r@ == MarkersView::empty(),
    {
        MarkerSet::new()
    }
}

fn copy_marker(m: &Marker) -> (r: Marker)
    ensures
        r@ == m@,
{
    Marker { id: m.id, t_ns: m.t_ns, label: m.label.clone(), color: m.color }
}

fn copy_link(l: &Link) -> (r: Link)
    ensures
        r@ == l@,
{
    let signals = l.signals.clone();
    assert(signals@ =~= l.signals@);
    Link { id: l.id, a: l.a, b: l.b, y_frac: l.y_frac, signals }
}

proof fn lemma_links_wf(s: MarkersView, links: Seq<LinkView>)
    requires
        s.wf(),
        forall|i: int| 0 <= i < links.len() ==> s.links.contains(#[trigger] links[i]),
        forall|i: int, j: int|
            0 <= i < j < links.len() ==> (#[trigger] links[i]).id != (#[trigger] links[j]).id,
    ensures
        (MarkersView { links, ..s }).wf(),
{
    let t = MarkersView { links, ..s };
    assert forall|i: int| 0 <= i < t.links.len() implies (#[trigger] t.links[i]).id
        < t.next_link_id by {
        assert(s.links.contains(links[i]));
    }
}

proof fn lemma_without_wf(s: MarkersView, id: u64)
    requires
        s.wf(),
    ensures
        s.without(id).wf(),
{
    let keep_m = |m: MarkerView| m.id != id;
    let keep_l = |l: LinkView| !l.touches(id);
    lemma_filter_facts(s.markers, keep_m);
    lemma_filter_distinct(s.markers, keep_m, |m: MarkerView| m.id);
    lemma_filter_facts(s.links, keep_l);
    lemma_filter_distinct(s.links, keep_l, |l: LinkView| l.id);
    let t = s.without(id);
    assert forall|i: int| 0 <= i < t.links.len() implies (#[trigger] t.links[i]).id
        < t.next_link_id by {
        assert(s.links.contains(t.links[i]));
    }
    assert forall|i: int| 0 <= i < t.markers.len() implies (#[trigger] t.markers[i]).id
        < t.next_id by {
        assert(s.markers.contains(t.markers[i]));
    }
}

/// Removing a marker leaves no trace of it: no marker, no link and no selection.
/// Links that do not touch it stay.
pub proof fn law_removed_marker_leaves_no_trace(s: MarkersView, id: u64)
    ensures
        !has_marker(s.without(id).markers, id),
        s.without(id).selected != Some(id),
        forall|i: int|
            0 <= i < s.without(id).links.len() ==> !(#[trigger] s.without(id).links[i]).touches(id),
        forall|l: LinkView| #[trigger]
            s.links.contains(l) && !l.touches(id) ==> s.without(id).links.contains(l),
{
    lemma_filter_facts(s.markers, |m: MarkerView| m.id != id);
    lemma_filter_facts(s.links, |l: LinkView| !l.touches(id));
}

} // verus!
