//! What the rows of a log show of the samples in their window.

use vstd::prelude::*;

verus! {

use crate::logview::{
    anchor_index, are_log_rows, by_time, entries_of, first_run_after, first_text, in_time,
    is_text, latest_at, placed, times_of, CellView, LogRow,
};
use crate::numtext::scalar_text;
use crate::store::{
    runs_within, texts_within, within, ChannelId, ChannelInfo, ChannelKind, StateRun, StoreView,
};
use crate::store_laws::ordered_texts;

/// Whether the column at `c` is the one that has the rows: the first text column, and
/// the first column where none is text.
pub open spec fn leads(
    by_id: Map<ChannelId, ChannelInfo>,
    columns: Seq<ChannelId>,
    c: int,
) -> bool {
    &&& 0 <= c < columns.len()
    &&& forall|i: int|
        0 <= i < c ==> !(by_id.contains_key(#[trigger] columns[i]) && by_id[columns[i]].kind
            == ChannelKind::Text)
    &&& (by_id.contains_key(columns[c]) && by_id[columns[c]].kind == ChannelKind::Text) || (c == 0
        && forall|i: int|
        0 <= i < columns.len() ==> !(by_id.contains_key(#[trigger] columns[i])
            && by_id[columns[i]].kind == ChannelKind::Text))
}

proof fn lemma_first_text(by_id: Map<ChannelId, ChannelInfo>, columns: Seq<ChannelId>, i: int)
    requires
        0 <= i <= columns.len(),
    ensures
        i <= first_text(by_id, columns, i) <= columns.len(),
        first_text(by_id, columns, i) < columns.len() ==> is_text(
            by_id,
            columns[first_text(by_id, columns, i)],
        ),
        forall|k: int|
            i <= k < first_text(by_id, columns, i) ==> !is_text(by_id, #[trigger] columns[k]),
    decreases columns.len() - i,
{
    if i < columns.len() && !is_text(by_id, columns[i]) {
        lemma_first_text(by_id, columns, i + 1);
    }
}

proof fn lemma_leads(by_id: Map<ChannelId, ChannelInfo>, columns: Seq<ChannelId>, c: int)
    requires
        leads(by_id, columns, c),
    ensures
        anchor_index(by_id, columns) == c,
{
    lemma_first_text(by_id, columns, 0);
    let i = first_text(by_id, columns, 0);
    if i < c {
        assert(is_text(by_id, columns[i]));
    } else if i > c {
        assert(!is_text(by_id, columns[c]));
        if i < columns.len() {
            assert(is_text(by_id, columns[i]));
        }
    }
}

proof fn lemma_in_time_stays(p: Seq<(u64, CellView)>)
    requires
        in_time(p),
    ensures
        by_time(p) == p,
    decreases p.len(),
{
    if p.len() > 0 {
        let r = p.drop_last();
        assert(in_time(r)) by {
            assert forall|i: int, j: int| 0 <= i <= j < r.len() implies (#[trigger] r[i]).0 <= (
            #[trigger] r[j]).0 by {
                assert(p[i].0 <= p[j].0);
            }
        }
        lemma_in_time_stays(r);
        if r.len() > 0 {
            assert(p[r.len() - 1].0 <= p[r.len() as int].0);
        }
        assert(by_time(p) =~= p);
    }
}

proof fn lemma_placed_keeps(v: Seq<(u64, CellView)>, x: (u64, CellView))
    ensures
        placed(v, x).len() == v.len() + 1,
        placed(v, x).to_multiset() == v.push(x).to_multiset(),
    decreases v.len(),
{
    broadcast use vstd::seq_lib::group_to_multiset_ensures;

    if !(v.len() == 0 || v.last().0 <= x.0) {
        let r = v.drop_last();
        lemma_placed_keeps(r, x);
        assert(v =~= r.push(v.last()));
        assert(placed(v, x).to_multiset() =~= v.push(x).to_multiset());
    }
}

proof fn lemma_by_time_keeps(p: Seq<(u64, CellView)>)
    ensures
        by_time(p).len() == p.len(),
        by_time(p).to_multiset() == p.to_multiset(),
    decreases p.len(),
{
    broadcast use vstd::seq_lib::group_to_multiset_ensures;

    if p.len() > 0 {
        let r = p.drop_last();
        lemma_by_time_keeps(r);
        lemma_placed_keeps(by_time(r), p.last());
        assert(p =~= r.push(p.last()));
        assert(by_time(p).to_multiset() =~= p.to_multiset());
    }
}

/// Whether the row shows the text in the column.
pub open spec fn shows(row: LogRow, ch: ChannelId, text: Seq<char>) -> bool {
    row.cell_views().contains_key(ch) && row.cell_views()[ch] == (CellView {
        display: text,
        raw: None,
    })
}

/// Where a column is a text channel, the first such column has the rows, wherever it
/// stands: there are as many rows as it has texts in the window, up to 200000, and each
/// of these texts has a row at its time that shows it. Where the texts were recorded in
/// order of time, the rows are these texts in their order.
pub proof fn law_every_text_has_its_row(
    store: StoreView,
    by_id: Map<ChannelId, ChannelInfo>,
    columns: Seq<ChannelId>,
    t0: u64,
    t1: u64,
    rows: Seq<LogRow>,
    c: int,
)
    requires
        are_log_rows(store, by_id, columns, t0, t1, rows),
        leads(by_id, columns, c),
        by_id.contains_key(columns[c]),
        by_id[columns[c]].kind == ChannelKind::Text,
        columns[c] < store.texts.len(),
    ensures
        ({
            let texts = texts_within(store.texts[columns[c] as int], t0, t1, 200_000);
            &&& rows.len() == texts.len()
            &&& forall|i: int|
                0 <= i < texts.len() ==> exists|r: int|
                    0 <= r < rows.len() && (#[trigger] rows[r]).t == (#[trigger] texts[i]).0
                        && shows(rows[r], columns[c], texts[i].1)
            &&& ordered_texts(texts) ==> forall|i: int|
                0 <= i < texts.len() ==> (#[trigger] rows[i]).t == texts[i].0 && shows(
                    rows[i],
                    columns[c],
                    texts[i].1,
                )
        }),
{
    broadcast use vstd::seq_lib::group_to_multiset_ensures;

    lemma_leads(by_id, columns, c);
    let ch = columns[c];
    let texts = texts_within(store.texts[ch as int], t0, t1, 200_000);
    let p = entries_of(store, by_id, ch, t0, t1);
    let entries = by_time(p);
    lemma_by_time_keeps(p);
    assert(times_of(rows).len() == entries.len());
    assert forall|r: int| 0 <= r < rows.len() implies (#[trigger] rows[r]).t == entries[r].0 by {
        assert(times_of(rows)[r] == entries[r].0);
    }
    assert forall|i: int| 0 <= i < texts.len() implies exists|r: int|
        0 <= r < rows.len() && (#[trigger] rows[r]).t == (#[trigger] texts[i]).0 && shows(
            rows[r],
            ch,
            texts[i].1,
        ) by {
        assert(p.contains(p[i]));
        assert(entries.to_multiset().contains(p[i]));
        let r = choose|r: int| 0 <= r < entries.len() && entries[r] == p[i];
        assert(rows[r].t == texts[i].0);
        assert(shows(rows[r], ch, texts[i].1));
    }
    if ordered_texts(texts) {
        assert(in_time(p)) by {
            assert forall|i: int, j: int| 0 <= i <= j < p.len() implies (#[trigger] p[i]).0 <= (
            #[trigger] p[j]).0 by {
                assert(texts[i].0 <= texts[j].0);
            }
        }
        lemma_in_time_stays(p);
        assert forall|i: int| 0 <= i < texts.len() implies (#[trigger] rows[i]).t == texts[i].0
            && shows(rows[i], ch, texts[i].1) by {
            assert(entries[i] == p[i]);
        }
    }
}

/// Where no column is text, the first column has the rows. If it is a numeric channel
/// with at most 200000 samples in the window, there are as many rows as samples, and
/// each sample has a row at its time that shows its number.
pub proof fn law_every_number_has_its_row(
    store: StoreView,
    by_id: Map<ChannelId, ChannelInfo>,
    columns: Seq<ChannelId>,
    t0: u64,
    t1: u64,
    rows: Seq<LogRow>,
)
    requires
        are_log_rows(store, by_id, columns, t0, t1, rows),
        leads(by_id, columns, 0),
        by_id.contains_key(columns[0]),
        by_id[columns[0]].kind == ChannelKind::Scalar,
        t0 < t1,
        within(store.samples(columns[0]), t0, t1).len() <= 200_000,
    ensures
        ({
            let samples = within(store.samples(columns[0]), t0, t1);
            &&& rows.len() == samples.len()
            &&& forall|i: int|
                0 <= i < samples.len() ==> exists|r: int|
                    0 <= r < rows.len() && (#[trigger] rows[r]).t == (#[trigger] samples[i]).0
                        && rows[r].cell_views().contains_key(columns[0])
                        && rows[r].cell_views()[columns[0]] == (CellView {
                        display: scalar_text(samples[i].1),
                        raw: Some(samples[i].1),
                    })
        }),
{
    broadcast use vstd::seq_lib::group_to_multiset_ensures;

    lemma_leads(by_id, columns, 0);
    let ch = columns[0];
    let samples = within(store.samples(ch), t0, t1);
    let p = entries_of(store, by_id, ch, t0, t1);
    let entries = by_time(p);
    lemma_by_time_keeps(p);
    assert(times_of(rows).len() == entries.len());
    assert forall|i: int| 0 <= i < samples.len() implies exists|r: int|
        0 <= r < rows.len() && (#[trigger] rows[r]).t == (#[trigger] samples[i]).0
            && rows[r].cell_views().contains_key(ch) && rows[r].cell_views()[ch] == (CellView {
            display: scalar_text(samples[i].1),
            raw: Some(samples[i].1),
        }) by {
        assert(p.contains(p[i]));
        assert(entries.to_multiset().contains(p[i]));
        let r = choose|r: int| 0 <= r < entries.len() && entries[r] == p[i];
        assert(times_of(rows)[r] == entries[r].0);
        assert(rows[r].t == samples[i].0);
    }
}

/// Whether `r` is the last of the latest points up to `t`, or nothing where all are
/// later.
pub open spec fn is_latest_point(
    p: Seq<(u64, CellView)>,
    t: u64,
    r: Option<(u64, CellView)>,
) -> bool {
    match r {
        None => forall|i: int| 0 <= i < p.len() ==> t < (#[trigger] p[i]).0,
        Some(x) => exists|i: int|
            #![trigger p[i]]
            0 <= i < p.len() && p[i] == x && x.0 <= t && (forall|k: int|
                0 <= k < p.len() && (#[trigger] p[k]).0 <= t ==> p[k].0 < x.0 || (p[k].0 == x.0 && k
                    <= i)),
    }
}

proof fn lemma_latest(p: Seq<(u64, CellView)>, t: u64)
    ensures
        is_latest_point(p, t, latest_at(p, t)),
    decreases p.len(),
{
    if p.len() > 0 {
        let head = p.drop_last();
        lemma_latest(head, t);
        let r = latest_at(head, t);
        let x = p.last();
        if x.0 <= t && (r matches Some(y) ==> y.0 <= x.0) {
            let i = p.len() - 1;
            assert(p[i] == x);
            assert forall|k: int| 0 <= k < p.len() && (#[trigger] p[k]).0 <= t implies p[k].0 < x.0
                || (p[k].0 == x.0 && k <= i) by {
                if k < i {
                    assert(head[k] == p[k]);
                }
            }
        } else if r is Some {
            let y = r->0;
            let i = choose|i: int|
                #![trigger head[i]]
                0 <= i < head.len() && head[i] == y && y.0 <= t && (forall|k: int|
                    0 <= k < head.len() && (#[trigger] head[k]).0 <= t ==> head[k].0 < y.0 || (
                    head[k].0 == y.0 && k <= i));
            assert(p[i] == y);
            assert forall|k: int| 0 <= k < p.len() && (#[trigger] p[k]).0 <= t implies p[k].0 < y.0
                || (p[k].0 == y.0 && k <= i) by {
                if k < head.len() {
                    assert(head[k] == p[k]);
                }
            }
        } else {
            assert forall|i: int| 0 <= i < p.len() implies t < (#[trigger] p[i]).0 by {
                if i < head.len() {
                    assert(head[i] == p[i]);
                }
            }
        }
    }
}

/// A row shows of every other numeric or text column the latest value of the window up
/// to the row's time, of several at that time the one that came last; and nothing of a
/// column that has no value by then.
pub proof fn law_cells_show_the_latest_value(
    store: StoreView,
    by_id: Map<ChannelId, ChannelInfo>,
    columns: Seq<ChannelId>,
    t0: u64,
    t1: u64,
    rows: Seq<LogRow>,
    c: int,
    r: int,
    k: int,
)
    requires
        are_log_rows(store, by_id, columns, t0, t1, rows),
        leads(by_id, columns, c),
        0 <= r < rows.len(),
        0 <= k < columns.len(),
        columns[k] != columns[c],
        by_id.contains_key(columns[k]),
        !(by_id[columns[k]].kind is State),
    ensures
        ({
            let p = entries_of(store, by_id, columns[k], t0, t1);
            let cells = rows[r].cell_views();
            exists|x: Option<(u64, CellView)>|
                #![trigger is_latest_point(p, rows[r].t, x)]
                is_latest_point(p, rows[r].t, x) && (match x {
                    Some(y) => cells.contains_key(columns[k]) && cells[columns[k]] == y.1,
                    None => !cells.contains_key(columns[k]),
                })
        }),
{
    lemma_leads(by_id, columns, c);
    let anchor = columns[c];
    let entries = by_time(entries_of(store, by_id, anchor, t0, t1));
    assert(times_of(rows).len() == entries.len());
    assert(times_of(rows)[r] == entries[r].0);
    let t = rows[r].t;
    let p = entries_of(store, by_id, columns[k], t0, t1);
    lemma_latest(p, t);
    assert(columns.contains(columns[k]));
    assert(is_latest_point(p, t, latest_at(p, t)));
}

/// What the entries of a column are: its texts in the window, up to 200000, or its
/// numbers there, one by one while they are no more than that.
pub proof fn law_entries_are_the_samples(
    store: StoreView,
    by_id: Map<ChannelId, ChannelInfo>,
    ch: ChannelId,
    t0: u64,
    t1: u64,
    i: int,
)
    requires
        by_id.contains_key(ch),
        t0 < t1,
    ensures
        by_id[ch].kind == ChannelKind::Text && ch < store.texts.len() ==> ({
            let w = texts_within(store.texts[ch as int], t0, t1, 200_000);
            let p = entries_of(store, by_id, ch, t0, t1);
            &&& p.len() == w.len()
            &&& 0 <= i < w.len() ==> p[i] == (w[i].0, CellView { display: w[i].1, raw: None })
        }),
        by_id[ch].kind == ChannelKind::Scalar && within(store.samples(ch), t0, t1).len() <= 200_000
            ==> ({
            let w = within(store.samples(ch), t0, t1);
            let p = entries_of(store, by_id, ch, t0, t1);
            &&& p.len() == w.len()
            &&& 0 <= i < w.len() ==> p[i] == (
                w[i].0,
                CellView { display: scalar_text(w[i].1), raw: Some(w[i].1) },
            )
        }),
{
}

proof fn lemma_first_run_after(runs: Seq<StateRun>, t: u64, i: int)
    requires
        0 <= i <= runs.len(),
    ensures
        i <= first_run_after(runs, t, i) <= runs.len(),
        first_run_after(runs, t, i) < runs.len() ==> runs[first_run_after(runs, t, i)].t_start > t,
        forall|k: int| i <= k < first_run_after(runs, t, i) ==> (#[trigger] runs[k]).t_start <= t,
    decreases runs.len() - i,
{
    if i < runs.len() && runs[i].t_start <= t {
        lemma_first_run_after(runs, t, i + 1);
    }
}

/// A row shows of a state column the label of the run that covers the row's time, where
/// the runs follow one another in time, and nothing where no run does.
pub proof fn law_cells_show_the_state(
    store: StoreView,
    by_id: Map<ChannelId, ChannelInfo>,
    columns: Seq<ChannelId>,
    t0: u64,
    t1: u64,
    rows: Seq<LogRow>,
    c: int,
    r: int,
    k: int,
)
    requires
        are_log_rows(store, by_id, columns, t0, t1, rows),
        leads(by_id, columns, c),
        0 <= r < rows.len(),
        0 <= k < columns.len(),
        columns[k] != columns[c],
        by_id.contains_key(columns[k]),
        by_id[columns[k]].kind is State,
        forall|a: int, b: int|
            0 <= a < b < runs_within(store.runs(columns[k]), t0, t1).len() ==> (
            #[trigger] runs_within(store.runs(columns[k]), t0, t1)[a]).t_end <= (
            #[trigger] runs_within(store.runs(columns[k]), t0, t1)[b]).t_start,
        forall|a: int|
            0 <= a < runs_within(store.runs(columns[k]), t0, t1).len() ==> (
            #[trigger] runs_within(store.runs(columns[k]), t0, t1)[a]).t_start <= runs_within(
                store.runs(columns[k]),
                t0,
                t1,
            )[a].t_end,
        rows[r].t < u64::MAX,
    ensures
        ({
            let runs = runs_within(store.runs(columns[k]), t0, t1);
            let cells = rows[r].cell_views();
            let labels = by_id[columns[k]].kind->State_labels@;
            &&& forall|a: int|
                0 <= a < runs.len() && (#[trigger] runs[a]).t_start <= rows[r].t < runs[a].t_end
                    ==> cells.contains_key(columns[k]) && cells[columns[k]].display == (
                if runs[a].value < labels.len() {
                    labels[runs[a].value as int]@
                } else {
                    crate::text::decimal(runs[a].value as nat)
                }) && cells[columns[k]].raw == Some(
                    crate::num::double_of_nat(runs[a].value as nat) as u64,
                )
            &&& (forall|a: int|
                0 <= a < runs.len() ==> !((#[trigger] runs[a]).t_start <= rows[r].t
                    < runs[a].t_end)) ==> !cells.contains_key(columns[k])
        }),
{
    lemma_leads(by_id, columns, c);
    let entries = by_time(entries_of(store, by_id, columns[c], t0, t1));
    assert(times_of(rows).len() == entries.len());
    assert(times_of(rows)[r] == entries[r].0);
    let t = rows[r].t;
    let ch = columns[k];
    let runs = runs_within(store.runs(ch), t0, t1);
    assert(columns.contains(columns[k]));
    lemma_first_run_after(runs, t, 0);
    let n = first_run_after(runs, t, 0);
    assert forall|a: int| 0 <= a < runs.len() && (#[trigger] runs[a]).t_start <= t
        < runs[a].t_end implies a == n - 1 by {
        if a < n - 1 {
            assert(runs[a].t_end <= runs[n - 1].t_start);
        } else if a >= n {
            if a > n {
                assert(runs[n].t_end <= runs[a].t_start);
                assert(runs[n].t_start <= runs[n].t_end);
            }
        }
    }
    if n > 0 {
        assert(runs[n - 1].t_start <= t);
    }
}

/// A row has cells of its own columns only.
pub proof fn law_rows_show_their_columns_only(
    store: StoreView,
    by_id: Map<ChannelId, ChannelInfo>,
    columns: Seq<ChannelId>,
    t0: u64,
    t1: u64,
    rows: Seq<LogRow>,
    r: int,
    ch: ChannelId,
)
    requires
        columns.len() > 0,
        are_log_rows(store, by_id, columns, t0, t1, rows),
        0 <= r < rows.len(),
        rows[r].cell_views().contains_key(ch),
    ensures
        columns.contains(ch),
{
    lemma_first_text(by_id, columns, 0);
    let c = anchor_index(by_id, columns);
    assert(columns.contains(columns[c]));
}

/// Where no column is text and the first is a state channel, there are as many rows as
/// its runs that reach into the window, and each run has a row at its start that shows its
/// label.
pub proof fn law_every_run_has_its_row(
    store: StoreView,
    by_id: Map<ChannelId, ChannelInfo>,
    columns: Seq<ChannelId>,
    t0: u64,
    t1: u64,
    rows: Seq<LogRow>,
)
    requires
        are_log_rows(store, by_id, columns, t0, t1, rows),
        leads(by_id, columns, 0),
        by_id.contains_key(columns[0]),
        by_id[columns[0]].kind is State,
    ensures
        ({
            let runs = runs_within(store.runs(columns[0]), t0, t1);
            let labels = by_id[columns[0]].kind->State_labels@;
            &&& rows.len() == runs.len()
            &&& forall|i: int|
                0 <= i < runs.len() ==> exists|r: int|
                    0 <= r < rows.len() && (#[trigger] rows[r]).t == (#[trigger] runs[i]).t_start
                        && rows[r].cell_views().contains_key(columns[0])
                        && rows[r].cell_views()[columns[0]].display == (if runs[i].value
                        < labels.len() {
                        labels[runs[i].value as int]@
                    } else {
                        crate::text::decimal(runs[i].value as nat)
                    })
        }),
{
    broadcast use vstd::seq_lib::group_to_multiset_ensures;

    lemma_leads(by_id, columns, 0);
    let ch = columns[0];
    let runs = runs_within(store.runs(ch), t0, t1);
    let p = entries_of(store, by_id, ch, t0, t1);
    let entries = by_time(p);
    lemma_by_time_keeps(p);
    assert(times_of(rows).len() == entries.len());
    let labels = by_id[ch].kind->State_labels@;
    assert forall|i: int| 0 <= i < runs.len() implies exists|r: int|
        0 <= r < rows.len() && (#[trigger] rows[r]).t == (#[trigger] runs[i]).t_start
            && rows[r].cell_views().contains_key(ch) && rows[r].cell_views()[ch].display == (
        if runs[i].value < labels.len() {
            labels[runs[i].value as int]@
        } else {
            crate::text::decimal(runs[i].value as nat)
        }) by {
        assert(p.contains(p[i]));
        assert(entries.to_multiset().contains(p[i]));
        let r = choose|r: int| 0 <= r < entries.len() && entries[r] == p[i];
        assert(times_of(rows)[r] == entries[r].0);
        assert(rows[r].t == runs[i].t_start);
    }
}

} // verus!
