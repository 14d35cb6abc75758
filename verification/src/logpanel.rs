//! The log view as a panel: which columns it shows, how its filters are edited,
//! and which rows come out.

use crate::grouping::strip_group_prefix;
use crate::logview::{filter_rows, truncate_rows, LogRow};
use crate::panels::{ColumnFilter, LogViewPanel};
use crate::store::{ChannelId, ChannelInfo, ChannelKind};
use crate::text::{append_digits, append_text, is_blank_text};
use std::collections::{BTreeSet, HashMap, HashSet};
use vstd::prelude::*;

verus! {

use crate::grouping::rest_of;
use crate::logview::{in_order, is_cut, matching, passes_all, times_of};
use crate::text::{all_blank, decimal};

broadcast use {
    vstd::std_specs::hash::group_hash_axioms,
    vstd::std_specs::btree::group_btree_axioms,
};

/// The values of an enum with `n` labels.
pub open spec fn all_members(n: u32) -> Set<u32> {
    Set::new(|i: u32| i < n)
}

impl LogViewPanel {
    /// Sets the text filter of a column, or takes it away where the text to look for
    /// is blank.
    pub fn set_text_filter(&mut self, col: ChannelId, needle: String, case_sensitive: bool)
        ensures
            final(self).filters@ == (if all_blank(needle@) {
                old(self).filters@.remove(col)
            } else {
                old(self).filters@.insert(col, ColumnFilter::Text { needle, case_sensitive })
            }),
            *final(self) == (LogViewPanel { filters: final(self).filters, ..*old(self) }),
    {
        if is_blank_text(needle.as_str()) {
            self.filters.remove(&col);
        } else {
            self.filters.insert(col, ColumnFilter::Text { needle, case_sensitive });
        }
    }

    /// Sets the range filter of a column, or takes it away where there is no bound.
    pub fn set_range_filter(&mut self, col: ChannelId, min: Option<u64>, max: Option<u64>)
        ensures
            final(self).filters@ == (if min is None && max is None {
                old(self).filters@.remove(col)
            } else {
                old(self).filters@.insert(col, ColumnFilter::Range { min, max })
            }),
            *final(self) == (LogViewPanel { filters: final(self).filters, ..*old(self) }),
    {
        if min.is_none() && max.is_none() {
            self.filters.remove(&col);
        } else {
            self.filters.insert(col, ColumnFilter::Range { min, max });
        }
    }

    /// Sets the enum filter of a column with `labels` values, or takes it away where
    /// all of them are allowed.
    pub fn set_enum_filter(&mut self, col: ChannelId, labels: u32, allowed: BTreeSet<u32>)
        ensures
            final(self).filters@ == (if allowed@ == all_members(labels) {
                old(self).filters@.remove(col)
            } else {
                old(self).filters@.insert(col, ColumnFilter::EnumSet { allowed })
            }),
            *final(self) == (LogViewPanel { filters: final(self).filters, ..*old(self) }),
    {
        if is_all_members(&allowed, labels) {
            self.filters.remove(&col);
        } else {
            self.filters.insert(col, ColumnFilter::EnumSet { allowed });
        }
    }

    /// Takes the filter of a column away.
    pub fn clear_filter(&mut self, col: ChannelId)
        ensures
            final(self).filters@ == old(self).filters@.remove(col),
            *final(self) == (LogViewPanel { filters: final(self).filters, ..*old(self) }),
    {
        self.filters.remove(&col);
    }

    /// Shows or hides a column; one that is newly shown comes last.
    pub fn set_column_shown(&mut self, idx: usize, shown: bool)
        ensures
            final(self).visible@ == (if !shown {
                without_index(old(self).visible@, idx)
            } else if old(self).visible@.contains(idx) {
                old(self).visible@
            } else {
                old(self).visible@.push(idx)
            }),
            *final(self) == (LogViewPanel { visible: final(self).visible, ..*old(self) }),
    {
        if shown {
            if !contains_index(&self.visible, idx) {
                self.visible.push(idx);
            }
        } else {
            self.visible = drop_index(&self.visible, idx);
        }
    }

    /// Sets how many rows are shown at most; at least one is.
    pub fn set_max_rows(&mut self, n: u32)
        ensures
            final(self).max_rows == (if n == 0 {
                1u32
            } else {
                n
            }),
            *final(self) == (LogViewPanel { max_rows: final(self).max_rows, ..*old(self) }),
    {
        self.max_rows = if n == 0 {
            1
        } else {
            n as usize
        };
    }

    /// The columns that are shown, with their labels: those that the panel still has
    /// and whose channel is known.
    pub fn visible_columns(&self, by_id: &HashMap<ChannelId, ChannelInfo>) -> (r: Vec<LogColumn>)
        ensures
            columns_view(r@) == shown_columns(self.columns@, self.visible@, by_id@),
    {
        let mut out: Vec<LogColumn> = Vec::new();
        let mut i: usize = 0;
        assert(columns_view(out@) =~= shown_columns(self.columns@, self.visible@.take(0), by_id@));
        while i < self.visible.len()
            invariant
                i <= self.visible@.len(),
                columns_view(out@) == shown_columns(
                    self.columns@,
                    self.visible@.take(i as int),
                    by_id@,
                ),
            decreases self.visible@.len() - i,
        {
            let idx: usize = self.visible[i];
            assert(self.visible@.take(i + 1).drop_last() =~= self.visible@.take(i as int));
            if idx < self.columns.len() {
                let id = self.columns[idx];
                match by_id.get(&id) {
                    Some(info) => {
                        let is_text = match info.kind {
                            ChannelKind::Text => true,
                            _ => false,
                        };
                        let label = strip_group_prefix(info.path.as_str()).to_owned();
                        let ghost before = out@;
                        out.push(LogColumn { id, label, is_text });
                        assert(columns_view(out@) =~= columns_view(before).push(
                            ColumnView { id, label: rest_of(info.path@), is_text },
                        ));
                    },
                    None => {},
                }
            }
            i = i + 1;
        }
        assert(self.visible@.take(self.visible@.len() as int) =~= self.visible@);
        out
    }
}

fn is_all_members(allowed: &BTreeSet<u32>, labels: u32) -> (r: bool)
    ensures
        r == (allowed@ == all_members(labels)),
{
    let mut i: u32 = 0;
    let mut all = true;
    while i < labels && all
        invariant
            i <= labels,
            all == forall|j: u32| j < i ==> #[trigger] allowed@.contains(j),
        decreases labels - i,
    {
        all = allowed.contains(&i);
        i = i + 1;
    }
    let len: usize = allowed.len();
    proof {
        lemma_members(labels);
        let listed = vstd::std_specs::iter::IteratorSpec::remaining(
            &vstd::std_specs::btree::spec_btree_keys_iter(allowed),
        ).unref();
        assert(listed.to_set() == allowed@);
        vstd::seq_lib::seq_to_set_is_finite(listed);
        if all {
            assert(all_members(labels).subset_of(allowed@));
            vstd::set_lib::lemma_len_subset(all_members(labels), allowed@);
            if allowed@.len() == labels {
                vstd::set_lib::lemma_subset_equality(all_members(labels), allowed@);
            }
        } else if allowed@ == all_members(labels) {
            let j = choose|j: u32| j < i && !allowed@.contains(j);
            assert(all_members(labels).contains(j));
        }
    }
    all && len as u64 == labels as u64
}

proof fn lemma_members(n: u32)
    ensures
        all_members(n).finite(),
        all_members(n).len() == n,
    decreases n,
{
    if n == 0 {
        assert(all_members(0) =~= Set::empty());
    } else {
        lemma_members((n - 1) as u32);
        assert(all_members(n) =~= all_members((n - 1) as u32).insert((n - 1) as u32));
    }
}

/// The indices without one of them.
pub open spec fn without_index(v: Seq<usize>, idx: usize) -> Seq<usize> {
    v.filter(|i: usize| i != idx)
}

fn contains_index(v: &Vec<usize>, idx: usize) -> (r: bool)
    ensures
        r == v@.contains(idx),
{
    let mut i: usize = 0;
    while i < v.len() && v[i] != idx
        invariant
            i <= v@.len(),
            forall|j: int| 0 <= j < i ==> v@[j] != idx,
        decreases v@.len() - i,
    {
        i = i + 1;
    }
    i < v.len()
}

fn drop_index(v: &Vec<usize>, idx: usize) -> (r: Vec<usize>)
    ensures
        r@ == without_index(v@, idx),
{
    let mut out: Vec<usize> = Vec::new();
    let mut i: usize = 0;
    proof {
        reveal(Seq::filter);
        assert(out@ =~= without_index(v@.take(0), idx));
    }
    while i < v.len()
        invariant
            i <= v@.len(),
            out@ == without_index(v@.take(i as int), idx),
        decreases v@.len() - i,
    {
        proof {
            reveal(Seq::filter);
            assert(v@.take(i + 1).drop_last() =~= v@.take(i as int));
        }
        if v[i] != idx {
            out.push(v[i]);
        }
        i = i + 1;
    }
    assert(v@.take(v@.len() as int) =~= v@);
    out
}

/// A column as it is shown. One of text takes the room that is left.
#[derive(Debug)]
pub struct LogColumn {
    pub id: ChannelId,
    pub label: String,
    pub is_text: bool,
}

/// What a [`LogColumn`] says.
#[verifier::ext_equal]
pub struct ColumnView {
    pub id: ChannelId,
    pub label: Seq<char>,
    pub is_text: bool,
}

/// What columns say.
pub open spec fn columns_view(v: Seq<LogColumn>) -> Seq<ColumnView> {
    v.map_values(|c: LogColumn| ColumnView { id: c.id, label: c.label@, is_text: c.is_text })
}

/// The shown columns: those of the indices that lie within the columns and whose
/// channel is known, labelled by what follows the group in the channel's path.
pub open spec fn shown_columns(
    columns: Seq<ChannelId>,
    visible: Seq<usize>,
    by_id: Map<ChannelId, ChannelInfo>,
) -> Seq<ColumnView>
    decreases visible.len(),
{
    if visible.len() == 0 {
        Seq::empty()
    } else {
        let rest = shown_columns(columns, visible.drop_last(), by_id);
        let idx = visible.last();
        if idx < columns.len() && by_id.contains_key(columns[idx as int]) {
            let info = by_id[columns[idx as int]];
            rest.push(
                ColumnView {
                    id: columns[idx as int],
                    label: rest_of(info.path@),
                    is_text: info.kind is Text,
                },
            )
        } else {
            rest
        }
    }
}

/// The rows that a log view shows, and how many there were before.
pub struct LogSelection {
    pub rows: Vec<LogRow>,
    /// Rows that passed the filters.
    pub matched: usize,
    /// Rows in the window.
    pub in_window: usize,
}

proof fn lemma_filter_in_order(rows: Seq<LogRow>, keep: spec_fn(LogRow) -> bool)
    requires
        in_order(times_of(rows)),
    ensures
        in_order(times_of(rows.filter(keep))),
        rows.filter(keep).len() > 0 ==> rows.len() > 0 && rows.filter(keep).last().t
            <= rows.last().t,
    decreases rows.len(),
{
    reveal(Seq::filter);
    if rows.len() > 0 {
        let head = rows.drop_last();
        assert forall|i: int, j: int| 0 <= i <= j < times_of(head).len() implies #[trigger] times_of(
            head,
        )[i] <= #[trigger] times_of(head)[j] by {
            assert(times_of(rows)[i] <= times_of(rows)[j]);
        }
        lemma_filter_in_order(head, keep);
        let f = head.filter(keep);
        if head.len() > 0 {
            assert(times_of(rows)[head.len() - 1] <= times_of(rows)[rows.len() - 1]);
        }
        if keep(rows.last()) {
            let g = rows.filter(keep);
            assert(g =~= f.push(rows.last()));
            assert forall|i: int, j: int| 0 <= i <= j < times_of(g).len() implies #[trigger] times_of(
                g,
            )[i] <= #[trigger] times_of(g)[j] by {
                if j < f.len() {
                    assert(times_of(f)[i] <= times_of(f)[j]);
                } else if i < f.len() {
                    assert(times_of(f)[i] <= times_of(f)[f.len() - 1]);
                }
            }
        }
    }
}

/// Chooses the rows that a log view shows: first the filters are applied to all
/// rows of the window, and what passes is then cut to the limit, so that a rare
/// entry is never dropped before a filter has looked at it.
pub fn select_rows(
    rows: Vec<LogRow>,
    filters: &HashMap<ChannelId, ColumnFilter>,
    priority_by: Option<ChannelId>,
    max_rows: usize,
) -> (r: LogSelection)
    requires
        in_order(times_of(rows@)),
    ensures
        r.in_window == rows@.len(),
        r.matched == matching(rows@, filters@).len(),
        is_cut(matching(rows@, filters@), priority_by, max_rows as nat, r.rows@),
        r.rows@.len() <= max_rows,
        r.matched > max_rows && priority_by is Some ==> r.rows@.len() == max_rows,
{
    let in_window: usize = rows.len();
    proof {
        lemma_filter_in_order(rows@, |r: LogRow| passes_all(r.cell_views(), filters@));
    }
    let passed = filter_rows(rows, filters);
    let (shown, matched) = truncate_rows(passed, priority_by, max_rows);
    LogSelection { rows: shown, matched, in_window }
}

/// Every row that is shown has passed the filters, and every row that has passed is
/// shown where the limit allows.
pub proof fn law_filters_come_first(
    rows: Seq<LogRow>,
    filters: Map<ChannelId, ColumnFilter>,
    priority_by: Option<ChannelId>,
    max: nat,
    shown: Seq<LogRow>,
)
    requires
        rows.len() <= usize::MAX,
        in_order(times_of(rows)),
        is_cut(matching(rows, filters), priority_by, max, shown),
    ensures
        forall|i: int| 0 <= i < shown.len() ==> passes_all((#[trigger] shown[i]).cell_views(), filters),
        forall|j: int|
            0 <= j < rows.len() && matching(rows, filters).len() <= max && passes_all(
                (#[trigger] rows[j]).cell_views(),
                filters,
            ) ==> shown.contains(rows[j]),
{
    let keep = |r: LogRow| passes_all(r.cell_views(), filters);
    let m = matching(rows, filters);
    rows.lemma_filter_len(keep);
    broadcast use vstd::seq_lib::group_filter_ensures;

    lemma_filter_in_order(rows, keep);
    assert forall|i: int| 0 <= i < shown.len() implies passes_all(
        (#[trigger] shown[i]).cell_views(),
        filters,
    ) by {
        assert(m.contains(shown[i])) by {
            crate::logview::lemma_cut_within(m, priority_by, max, shown, i);
        }
        let k = choose|k: int| 0 <= k < m.len() && m[k] == shown[i];
        rows.lemma_filter_pred(keep, k);
    }
    assert forall|j: int|
        0 <= j < rows.len() && m.len() <= max && passes_all(
            (#[trigger] rows[j]).cell_views(),
            filters,
        ) implies shown.contains(rows[j]) by {
        rows.lemma_filter_contains(keep, j);
    }
}

/// The text that tells how many rows are shown.
pub open spec fn counts(shown: nat, matched: nat, in_window: nat) -> Seq<char> {
    "showing "@ + decimal(shown) + " of "@ + decimal(matched) + " matched ("@ + decimal(in_window)
        + " in window)"@ + if matched > shown {
        " \u{2014} truncated"@
    } else {
        Seq::empty()
    }
}

/// The text that tells how many rows are shown; that some were cut is always said.
pub fn counts_text(shown: usize, matched: usize, in_window: usize) -> (r: String)
    ensures
        r@ == counts(shown as nat, matched as nat, in_window as nat),
{
    let mut out = String::new();
    append_text(&mut out, "showing ");
    append_digits(&mut out, shown as u64, 10);
    append_text(&mut out, " of ");
    append_digits(&mut out, matched as u64, 10);
    append_text(&mut out, " matched (");
    append_digits(&mut out, in_window as u64, 10);
    append_text(&mut out, " in window)");
    if matched > shown {
        append_text(&mut out, " \u{2014} truncated");
    }
    assert(out@ =~= counts(shown as nat, matched as nat, in_window as nat));
    out
}

/// Reacts to a click on the row at `t`: a click turns its highlight over, and a
/// double click sets it.
pub fn click_row(highlights: &mut HashSet<u64>, t: u64, clicked: bool, double_clicked: bool)
    ensures
        final(highlights)@ == (if double_clicked || (clicked && !old(highlights)@.contains(t)) {
            old(highlights)@.insert(t)
        } else if clicked {
            old(highlights)@.remove(t)
        } else {
            old(highlights)@
        }),
{
    if clicked {
        if highlights.contains(&t) {
            highlights.remove(&t);
        } else {
            highlights.insert(t);
        }
    }
    if double_clicked {
        highlights.insert(t);
    }
    assert(highlights@ =~= (if double_clicked || (clicked && !old(highlights)@.contains(t)) {
        old(highlights)@.insert(t)
    } else if clicked {
        old(highlights)@.remove(t)
    } else {
        old(highlights)@
    }));
}

} // verus!
