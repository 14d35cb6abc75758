//! Selection of rows in the channel tree.

use crate::store::ChannelId;
use std::collections::HashSet;
use vstd::prelude::*;

verus! {

broadcast use vstd::std_specs::hash::group_hash_axioms;

/// The first index at or after `i` of `id`, or the end.
pub open spec fn place_from(visible: Seq<ChannelId>, id: ChannelId, i: int) -> int
    decreases visible.len() - i,
{
    if i >= visible.len() || visible[i] == id {
        i
    } else {
        place_from(visible, id, i + 1)
    }
}

/// The channels from the `a`th to the `b`th row, both included, in either order.
pub open spec fn between(visible: Seq<ChannelId>, a: int, b: int) -> Set<ChannelId> {
    if a <= b {
        visible.subrange(a, b + 1).to_set()
    } else {
        visible.subrange(b, a + 1).to_set()
    }
}

/// The selection and its anchor after a click.
pub open spec fn clicked_selection(
    selection: Set<ChannelId>,
    anchor: Option<ChannelId>,
    visible: Seq<ChannelId>,
    clicked: ChannelId,
    ctrl: bool,
    shift: bool,
) -> (Set<ChannelId>, Option<ChannelId>) {
    let from = match anchor {
        Some(a) => a,
        None => clicked,
    };
    let ia = place_from(visible, from, 0);
    let ib = place_from(visible, clicked, 0);
    if shift && ia < visible.len() && ib < visible.len() {
        (between(visible, ia, ib), Some(from))
    } else if ctrl {
        if selection.contains(clicked) {
            (selection.remove(clicked), Some(clicked))
        } else {
            (selection.insert(clicked), Some(clicked))
        }
    } else {
        (Set::empty().insert(clicked), Some(clicked))
    }
}

fn place_of(visible: &[ChannelId], id: ChannelId) -> (r: usize)
    ensures
        r <= visible@.len(),
        r == place_from(visible@, id, 0),
{
    let mut i: usize = 0;
    while i < visible.len() && visible[i] != id
        invariant
            i <= visible@.len(),
            place_from(visible@, id, 0) == place_from(visible@, id, i as int),
        decreases visible@.len() - i,
    {
        i = i + 1;
    }
    i
}

/// Updates the selection for a click on a row.
///
/// A plain click selects that row alone. With ctrl it toggles the row. With shift
/// it selects the rows from the anchor to that one, and the anchor stays; where
/// either is not visible, the click counts as without shift.
pub fn update_selection(
    selection: &mut HashSet<ChannelId>,
    anchor: &mut Option<ChannelId>,
    visible: &[ChannelId],
    clicked: ChannelId,
    ctrl: bool,
    shift: bool,
)
    ensures
        (final(selection)@, *final(anchor)) == clicked_selection(
            old(selection)@,
            *old(anchor),
            visible@,
            clicked,
            ctrl,
            shift,
        ),
{
    if shift {
        let from: ChannelId = match *anchor {
            Some(a) => a,
            None => clicked,
        };
        let ia = place_of(visible, from);
        let ib = place_of(visible, clicked);
        if ia < visible.len() && ib < visible.len() {
            let lo: usize = if ia <= ib {
                ia
            } else {
                ib
            };
            let hi: usize = if ia <= ib {
                ib
            } else {
                ia
            };
            selection.clear();
            let mut i: usize = lo;
            assert(selection@ =~= visible@.subrange(lo as int, lo as int).to_set());
            while i <= hi
                invariant
                    lo <= i <= hi + 1,
                    hi < visible@.len(),
                    selection@ == visible@.subrange(lo as int, i as int).to_set(),
                decreases hi + 1 - i,
            {
                selection.insert(visible[i]);
                proof {
                    let a = visible@.subrange(lo as int, i as int);
                    let b = visible@.subrange(lo as int, i + 1);
                    assert(b =~= a.push(visible@[i as int]));
                    assert forall|x: ChannelId|
                        a.to_set().insert(visible@[i as int]).contains(x) <==> b.to_set().contains(
                            x,
                        ) by {
                        if a.contains(x) {
                            let k = choose|k: int| 0 <= k < a.len() && a[k] == x;
                            assert(b[k] == x);
                        }
                        if x == visible@[i as int] {
                            assert(b[a.len() as int] == x);
                        }
                        if b.contains(x) {
                            let k = choose|k: int| 0 <= k < b.len() && b[k] == x;
                            if k < a.len() {
                                assert(a[k] == x);
                            }
                        }
                    }
                    assert(a.to_set().insert(visible@[i as int]) =~= b.to_set());
                }
                i = i + 1;
            }
            *anchor = Some(from);
            return;
        }
    }
    if ctrl {
        if !selection.remove(&clicked) {
            selection.insert(clicked);
        }
        *anchor = Some(clicked);
        return;
    }
    selection.clear();
    selection.insert(clicked);
    *anchor = Some(clicked);
}

/// A second ctrl-click on the same row takes the first one back.
pub proof fn law_toggle_twice_restores(
    selection: Set<ChannelId>,
    anchor: Option<ChannelId>,
    visible: Seq<ChannelId>,
    clicked: ChannelId,
)
    ensures
        ({
            let once = clicked_selection(selection, anchor, visible, clicked, true, false);
            clicked_selection(once.0, once.1, visible, clicked, true, false).0 == selection
        }),
{
    let once = clicked_selection(selection, anchor, visible, clicked, true, false);
    assert(clicked_selection(once.0, once.1, visible, clicked, true, false).0 =~= selection);
}

} // verus!
