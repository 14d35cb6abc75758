//! The tree of channels: which rows it shows, what a drag from it carries, and how
//! many samples its groups have.

use crate::drops::DragPayload;
use crate::grouping::{matches_query, strip_group_prefix};
use crate::numtext::fmt_count;
use crate::store::{ChannelId, ChannelInfo, ChannelKind, MockStore};
use crate::text::{append_digits, append_text};
use std::collections::HashSet;
use vstd::prelude::*;

verus! {

use crate::grouping::{all_members, lowered, occurs_in, rest_of};
use crate::numtext::count_text;
use crate::store::StoreView;
use crate::text::decimal;

broadcast use vstd::std_specs::hash::group_hash_axioms;

/// The channels whose path has the query in it, by number.
pub open spec fn found(members: Seq<ChannelInfo>, query: Seq<char>) -> Seq<ChannelId>
    decreases members.len(),
{
    if members.len() == 0 {
        Seq::empty()
    } else {
        let before = found(members.drop_last(), query);
        if occurs_in(lowered(members.last().path@), lowered(query)) {
            before.push(members.last().id)
        } else {
            before
        }
    }
}

proof fn lemma_found_add(a: Seq<ChannelInfo>, b: Seq<ChannelInfo>, query: Seq<char>)
    ensures
        found(a + b, query) == found(a, query) + found(b, query),
    decreases b.len(),
{
    if b.len() == 0 {
        assert(a + b =~= a);
        assert(found(a, query) + found(b, query) =~= found(a, query));
    } else {
        lemma_found_add(a, b.drop_last(), query);
        assert((a + b).drop_last() =~= a + b.drop_last());
        assert((a + b).last() == b.last());
        assert(found(a + b, query) =~= found(a, query) + found(b, query));
    }
}

/// The rows that the tree shows, from top to bottom.
pub fn visible_channels(groups: &Vec<(String, Vec<&ChannelInfo>)>, query: &str) -> (r: Vec<ChannelId>)
    ensures
        r@ == found(all_members(groups@), query@),
{
    let mut out: Vec<ChannelId> = Vec::new();
    let mut g: usize = 0;
    while g < groups.len()
        invariant
            g <= groups@.len(),
            out@ == found(all_members(groups@.take(g as int)), query@),
        decreases groups@.len() - g,
    {
        let items = &groups[g].1;
        let ghost done = out@;
        let ghost members = items@.map_values(|c: &ChannelInfo| *c);
        let mut i: usize = 0;
        assert(out@ =~= done + found(members.take(0), query@));
        while i < items.len()
            invariant
                i <= items@.len(),
                members == items@.map_values(|c: &ChannelInfo| *c),
                out@ == done + found(members.take(i as int), query@),
            decreases items@.len() - i,
        {
            let c = items[i];
            proof {
                assert(members.take(i + 1).drop_last() =~= members.take(i as int));
                assert(members.take(i + 1).last() == *c);
            }
            if matches_query(c.path.as_str(), query) {
                out.push(c.id);
            }
            assert(out@ =~= done + found(members.take(i + 1), query@));
            i = i + 1;
        }
        proof {
            assert(members.take(items@.len() as int) =~= members);
            assert(groups@.take(g + 1).drop_last() =~= groups@.take(g as int));
            lemma_found_add(all_members(groups@.take(g as int)), members, query@);
        }
        g = g + 1;
    }
    assert(groups@.take(groups@.len() as int) =~= groups@);
    out
}

/// Whether one of the channels has the number.
pub open spec fn is_alive(channels: Seq<ChannelInfo>, id: ChannelId) -> bool {
    exists|i: int| 0 <= i < channels.len() && (#[trigger] channels[i]).id == id
}

/// Forgets selected channels, and the anchor, that are no longer there.
pub fn prune_selection(
    selection: &mut HashSet<ChannelId>,
    anchor: &mut Option<ChannelId>,
    channels: &Vec<ChannelInfo>,
)
    ensures
        final(selection)@ == old(selection)@.filter(|id: ChannelId| is_alive(channels@, id)),
        *final(anchor) == (match *old(anchor) {
            Some(a) => if is_alive(channels@, a) {
                Some(a)
            } else {
                None
            },
            None => None,
        }),
{
    let mut kept: HashSet<ChannelId> = HashSet::new();
    let mut anchored = false;
    let mut i: usize = 0;
    while i < channels.len()
        invariant
            i <= channels@.len(),
            selection@ == old(selection)@,
            *anchor == *old(anchor),
            forall|id: ChannelId| #[trigger]
                kept@.contains(id) <==> selection@.contains(id) && is_alive(
                    channels@.take(i as int),
                    id,
                ),
            anchored == (*anchor matches Some(a) && is_alive(channels@.take(i as int), a)),
        decreases channels@.len() - i,
    {
        let id = channels[i].id;
        let ghost before = kept@;
        proof {
            let a = channels@.take(i as int);
            let b = channels@.take(i + 1);
            assert forall|x: ChannelId| #[trigger] is_alive(b, x) <==> is_alive(a, x) || x
                == id by {
                if is_alive(a, x) {
                    let j = choose|j: int| 0 <= j < a.len() && (#[trigger] a[j]).id == x;
                    assert(b[j].id == x);
                }
                assert(b[i as int].id == id);
                if is_alive(b, x) && x != id {
                    let j = choose|j: int| 0 <= j < b.len() && (#[trigger] b[j]).id == x;
                    assert(a[j].id == x);
                }
            }
        }
        if selection.contains(&id) {
            kept.insert(id);
        }
        if let Some(a) = *anchor {
            if a == id {
                anchored = true;
            }
        }
        i = i + 1;
    }
    proof {
        assert(channels@.take(channels@.len() as int) =~= channels@);
        assert(kept@ =~= old(selection)@.filter(|id: ChannelId| is_alive(channels@, id)));
    }
    *selection = kept;
    if !anchored {
        *anchor = None;
    }
}

/// The selected ones of the rows, from top to bottom.
pub open spec fn selected_rows(visible: Seq<ChannelId>, selection: Set<ChannelId>) -> Seq<ChannelId> {
    visible.filter(|id: ChannelId| selection.contains(id))
}

/// What a drag of a row carries: with shift, and no more than one row selected, a
/// scalar is one axis of an XY plot; one of several selected rows carries them all;
/// otherwise it is the channel alone.
pub fn drag_payload(
    ch: &ChannelInfo,
    shift: bool,
    selection: &HashSet<ChannelId>,
    visible: &Vec<ChannelId>,
) -> (r: DragPayload)
    ensures
        ({
            let many = selection@.len() > 1;
            if shift && ch.kind is Scalar && !many {
                r == DragPayload::XYSeed(ch.id)
            } else if selection@.contains(ch.id) && many {
                r matches DragPayload::Channels(v) && v@ == selected_rows(visible@, selection@)
            } else {
                r == DragPayload::Channel(ch.id)
            }
        }),
{
    let n: usize = selection.len();
    let scalar = match ch.kind {
        ChannelKind::Scalar => true,
        _ => false,
    };
    if shift && scalar && n <= 1 {
        return DragPayload::XYSeed(ch.id);
    }
    if selection.contains(&ch.id) && n > 1 {
        let mut out: Vec<ChannelId> = Vec::new();
        let mut i: usize = 0;
        proof {
            reveal(Seq::filter);
            assert(out@ =~= selected_rows(visible@.take(0), selection@));
        }
        while i < visible.len()
            invariant
                i <= visible@.len(),
                out@ == selected_rows(visible@.take(i as int), selection@),
            decreases visible@.len() - i,
        {
            proof {
                reveal(Seq::filter);
                assert(visible@.take(i + 1).drop_last() =~= visible@.take(i as int));
            }
            if selection.contains(&visible[i]) {
                out.push(visible[i]);
            }
            i = i + 1;
        }
        assert(visible@.take(visible@.len() as int) =~= visible@);
        return DragPayload::Channels(out);
    }
    DragPayload::Channel(ch.id)
}

/// How many signals a drag carries.
pub open spec fn carried(p: DragPayload) -> nat {
    match p {
        DragPayload::Channels(v) => v@.len(),
        _ => 1,
    }
}

/// The text that follows the pointer during a drag.
pub fn drag_preview(p: &DragPayload) -> (r: String)
    ensures
        r@ == (if carried(*p) > 1 {
            "\u{1f4c8} "@ + decimal(carried(*p)) + " signals"@
        } else {
            "\u{1f4c8} 1 signal"@
        }),
{
    let n: usize = match p {
        DragPayload::Channels(v) => v.len(),
        _ => 1,
    };
    if n > 1 {
        let mut out = String::new();
        append_text(&mut out, "\u{1f4c8} ");
        append_digits(&mut out, n as u64, 10);
        append_text(&mut out, " signals");
        assert(out@ =~= "\u{1f4c8} "@ + decimal(n as nat) + " signals"@);
        out
    } else {
        "\u{1f4c8} 1 signal".to_owned()
    }
}

/// The label of a row: a sign for the kind, and what follows the group in the path.
pub fn row_label(ch: &ChannelInfo) -> (r: String)
    ensures
        r@ == (match ch.kind {
            ChannelKind::Scalar => "\u{1f4c8} "@,
            ChannelKind::State { .. } => "\u{25ae} "@,
            ChannelKind::Text => "\u{1f4dd} "@,
        }) + rest_of(ch.path@),
{
    let mut out = match ch.kind {
        ChannelKind::Scalar => "\u{1f4c8} ".to_owned(),
        ChannelKind::State { .. } => "\u{25ae} ".to_owned(),
        ChannelKind::Text => "\u{1f4dd} ".to_owned(),
    };
    append_text(&mut out, strip_group_prefix(ch.path.as_str()));
    out
}

/// The heading of a group: its name and how many samples it has.
pub fn group_heading(name: &str, count: u64) -> (r: String)
    ensures
        r@ == name@ + "  ("@ + count_text(count as nat) + ")"@,
{
    let mut out = name.to_owned();
    append_text(&mut out, "  (");
    append_text(&mut out, fmt_count(count).as_str());
    append_text(&mut out, ")");
    out
}

/// The samples of channels, added up as far as the counter goes.
pub open spec fn samples_of(s: StoreView, channels: Seq<ChannelInfo>) -> u64
    decreases channels.len(),
{
    if channels.len() == 0 {
        0
    } else {
        let sum = samples_of(s, channels.drop_last()) + s.count(channels.last().id);
        if sum > u64::MAX {
            u64::MAX
        } else {
            sum as u64
        }
    }
}

/// How many samples each group has.
pub fn group_counts(store: &MockStore, groups: &Vec<(String, Vec<&ChannelInfo>)>) -> (r: Vec<u64>)
    requires
        store@.wf(),
    ensures
        r@.len() == groups@.len(),
        forall|g: int|
            0 <= g < r@.len() ==> #[trigger] r@[g] == samples_of(
                store@,
                groups@[g].1@.map_values(|c: &ChannelInfo| *c),
            ),
{
    let mut out: Vec<u64> = Vec::new();
    let mut g: usize = 0;
    while g < groups.len()
        invariant
            g <= groups@.len(),
            store@.wf(),
            out@.len() == g,
            forall|k: int|
                0 <= k < g ==> #[trigger] out@[k] == samples_of(
                    store@,
                    groups@[k].1@.map_values(|c: &ChannelInfo| *c),
                ),
        decreases groups@.len() - g,
    {
        let items = &groups[g].1;
        let ghost members = items@.map_values(|c: &ChannelInfo| *c);
        let mut sum: u64 = 0;
        let mut i: usize = 0;
        while i < items.len()
            invariant
                i <= items@.len(),
                store@.wf(),
                members == items@.map_values(|c: &ChannelInfo| *c),
                sum == samples_of(store@, members.take(i as int)),
            decreases items@.len() - i,
        {
            proof {
                assert(members.take(i + 1).drop_last() =~= members.take(i as int));
                assert(members.take(i + 1).last() == *items@[i as int]);
            }
            sum = sum.saturating_add(store.sample_count(items[i].id));
            i = i + 1;
        }
        assert(members.take(items@.len() as int) =~= members);
        out.push(sum);
        g = g + 1;
    }
    out
}

} // verus!
