//! Log rows: one row per entry of an anchor channel, joined with the other
//! columns, filtered and cut to a number that can be shown.

use crate::grouping::{contains_chars, lower_chars};
use crate::num::{f64_of_u64, i64_of_f64, number_below};
use crate::numtext::format_scalar_value;
use crate::panels::ColumnFilter;
use crate::store::{copy_texts, ChannelId, ChannelInfo, ChannelKind, MockStore, StateRun};
use crate::text::{append_digits, chars_of};
use std::collections::HashMap;
use vstd::prelude::*;

verus! {

use crate::grouping::{lowered, occurs_in};
use crate::num::{below, double_of_nat, int_of_double, is_nan};
use crate::numtext::scalar_text;
use crate::store::{downsampled, runs_within, texts_view, texts_within, Bucket, StoreView};
use crate::text::decimal;

broadcast use {
    vstd::std_specs::hash::group_hash_axioms,
    vstd::std_specs::btree::group_btree_axioms,
};

/// Entries that are scanned per window at most.
pub const LOG_SCAN_MAX: usize = 200_000;

/// Which filter a column has, by the kind of its channel.
#[derive(Debug)]
pub enum FilterKind {
    Text,
    Numeric,
    Enum(Vec<String>),
}

impl FilterKind {
    pub fn from_channel(kind: &ChannelKind) -> (r: Self)
        ensures
            match *kind {
                ChannelKind::Text => r is Text,
                ChannelKind::Scalar => r is Numeric,
                ChannelKind::State { labels } => r matches FilterKind::Enum(l)
                    && l@.map_values(|x: String| x@) == labels@.map_values(|x: String| x@),
            },
    {
        match kind {
            ChannelKind::Text => FilterKind::Text,
            ChannelKind::Scalar => FilterKind::Numeric,
            ChannelKind::State { labels } => FilterKind::Enum(copy_texts(labels)),
        }
    }
}

/// A cell of a log row: its text, and its number where it has one.
#[derive(Debug)]
pub struct LogCell {
    pub display: String,
    pub raw: Option<u64>,
}

/// What a [`LogCell`] says.
#[verifier::ext_equal]
pub struct CellView {
    pub display: Seq<char>,
    pub raw: Option<u64>,
}

impl View for LogCell {
    type V = CellView;

    open spec fn view(&self) -> CellView {
        CellView { display: self.display@, raw: self.raw }
    }
}

impl Clone for LogCell {
    fn clone(&self) -> (r: Self)
        ensures
            r@ == self@,
    {
        LogCell { display: self.display.clone(), raw: self.raw }
    }
}

/// One row of a log view.
#[derive(Debug)]
pub struct LogRow {
    pub t: u64,
    pub cells: HashMap<ChannelId, LogCell>,
}

impl LogRow {
    /// What the cells say.
    pub open spec fn cell_views(&self) -> Map<ChannelId, CellView> {
        self.cells@.map_values(|c: LogCell| c@)
    }
}

/// A value that a filter looks at.
pub enum FilterValue<'a> {
    Num(u64),
    Text(&'a str),
}

/// What a [`FilterValue`] says.
pub enum ValueView {
    Num(u64),
    Text(Seq<char>),
}

impl<'a> View for FilterValue<'a> {
    type V = ValueView;

    open spec fn view(&self) -> ValueView {
        match self {
            FilterValue::Num(n) => ValueView::Num(*n),
            FilterValue::Text(s) => ValueView::Text(s@),
        }
    }
}

/// Whether the double is the whole number `v`, which is not negative, or is cut
/// to it.
pub open spec fn cuts_to(b: u64, v: u32) -> bool {
    int_of_double(b) == v
}

/// Whether a text contains another, with or without regard to ASCII case.
pub open spec fn text_matches(s: Seq<char>, needle: Seq<char>, case_sensitive: bool) -> bool {
    if case_sensitive {
        occurs_in(s, needle)
    } else {
        occurs_in(lowered(s), lowered(needle))
    }
}

/// Whether a number lies within bounds.
pub open spec fn within_bounds(n: u64, min: Option<u64>, max: Option<u64>) -> bool {
    &&& min matches Some(m) ==> !is_nan(n) && !is_nan(m) && !below(n, m)
    &&& max matches Some(m) ==> !is_nan(n) && !is_nan(m) && !below(m, n)
}

impl ColumnFilter {
    /// Whether the filter rules anything out: a text filter without a needle and
    /// a range without bounds do not.
    pub open spec fn active(self) -> bool {
        match self {
            ColumnFilter::Text { needle, .. } => needle@.len() > 0,
            ColumnFilter::Range { min, max } => min is Some || max is Some,
            ColumnFilter::EnumSet { .. } => true,
        }
    }

    /// Whether a cell passes: text is searched, a number is held against a range
    /// or a set. A cell of the other sort, or none, does not pass.
    pub open spec fn admits(self, v: Option<ValueView>) -> bool {
        match (self, v) {
            (
                ColumnFilter::Text { needle, case_sensitive },
                Some(ValueView::Text(s)),
            ) => text_matches(s, needle@, case_sensitive),
            (ColumnFilter::Range { min, max }, Some(ValueView::Num(n))) => within_bounds(
                n,
                min,
                max,
            ),
            (ColumnFilter::EnumSet { allowed }, Some(ValueView::Num(n))) => exists|x: u32|
                cuts_to(n, x) && #[trigger] allowed@.contains(x),
            _ => false,
        }
    }

    pub fn is_active(&self) -> (r: bool)
        ensures
            r == self.active(),
    {
        match self {
            ColumnFilter::Text { needle, .. } => !needle.as_str().is_empty(),
            ColumnFilter::Range { min, max } => min.is_some() || max.is_some(),
            ColumnFilter::EnumSet { .. } => true,
        }
    }

    pub fn accepts(&self, v: Option<FilterValue<'_>>) -> (r: bool)
        ensures
            r == self.admits(
                match v {
                    Some(x) => Some(x@),
                    None => None,
                },
            ),
    {
        match (self, v) {
            (ColumnFilter::Text { needle, case_sensitive }, Some(FilterValue::Text(s))) => {
                if *case_sensitive {
                    contains_chars(&chars_of(s), &chars_of(needle.as_str()))
                } else {
                    contains_chars(&lower_chars(s), &lower_chars(needle.as_str()))
                }
            },
            (ColumnFilter::Range { min, max }, Some(FilterValue::Num(n))) => {
                let above = match min {
                    Some(m) => at_least(n, *m),
                    None => true,
                };
                let under = match max {
                    Some(m) => at_least(*m, n),
                    None => true,
                };
                above && under
            },
            (ColumnFilter::EnumSet { allowed }, Some(FilterValue::Num(n))) => {
                let whole: i64 = i64_of_f64(n);
                if whole < 0 || whole > 0xffff_ffff {
                    return false;
                }
                let x: u32 = whole as u32;
                let r = allowed.contains(&x);
                assert(forall|y: u32| cuts_to(n, y) ==> y == x);
                r
            },
            _ => false,
        }
    }
}

/// Whether `a` is a number not below the number `b`.
fn at_least(a: u64, b: u64) -> (r: bool)
    ensures
        r == (!is_nan(a) && !is_nan(b) && !below(a, b)),
{
    !crate::num::number_is_nan(a) && !crate::num::number_is_nan(b) && !number_below(a, b)
}

/// The value of a cell that filters look at: its number, or its text where it has
/// none.
pub open spec fn filter_value(cells: Map<ChannelId, CellView>, ch: ChannelId) -> Option<ValueView> {
    if cells.contains_key(ch) {
        match cells[ch].raw {
            Some(n) => Some(ValueView::Num(n)),
            None => Some(ValueView::Text(cells[ch].display)),
        }
    } else {
        None
    }
}

/// Whether a row passes the filter of one column.
pub open spec fn passes(
    cells: Map<ChannelId, CellView>,
    ch: ChannelId,
    f: ColumnFilter,
) -> bool {
    f.active() ==> f.admits(filter_value(cells, ch))
}

/// Whether a row passes all filters.
pub open spec fn passes_all(
    cells: Map<ChannelId, CellView>,
    filters: Map<ChannelId, ColumnFilter>,
) -> bool {
    forall|ch: ChannelId| #[trigger]
        filters.contains_key(ch) ==> passes(cells, ch, filters[ch])
}

fn row_passes(row: &LogRow, ch: ChannelId, f: &ColumnFilter) -> (r: bool)
    ensures
        r == passes(row.cell_views(), ch, *f),
{
    if !f.is_active() {
        return true;
    }
    match row.cells.get(&ch) {
        Some(c) => match c.raw {
            Some(n) => f.accepts(Some(FilterValue::Num(n))),
            None => f.accepts(Some(FilterValue::Text(c.display.as_str()))),
        },
        None => f.accepts(None),
    }
}

/// Whether a row passes every active filter.
pub fn row_passes_filters(row: &LogRow, filters: &HashMap<ChannelId, ColumnFilter>) -> (r: bool)
    ensures
        r == passes_all(row.cell_views(), filters@),
{
    let mut ok = true;
    let ghost m = filters@;
    for kv in it: filters.iter()
        invariant
            m == filters@,
            forall|j: int|
                0 <= j < it.seq().len() ==> m.contains_key(*(#[trigger] it.seq()[j]).0)
                    && m[*it.seq()[j].0] == *it.seq()[j].1,
            forall|k: ChannelId| #[trigger]
                m.contains_key(k) ==> exists|i: int|
                    0 <= i < it.seq().len() && it.seq()[i] == (&k, &m[k]),
            ok == forall|j: int|
                0 <= j < it.index() ==> passes(
                    row.cell_views(),
                    *(#[trigger] it.seq()[j]).0,
                    *it.seq()[j].1,
                ),
    {
        if !row_passes(row, *kv.0, kv.1) {
            ok = false;
        }
    }
    ok
}

/// The rows that pass every active filter, in their order.
pub open spec fn matching(rows: Seq<LogRow>, filters: Map<ChannelId, ColumnFilter>) -> Seq<LogRow> {
    rows.filter(|r: LogRow| passes_all(r.cell_views(), filters))
}

/// The rows at the picked places.
pub open spec fn picked(rows: Seq<LogRow>, picks: Seq<usize>) -> Seq<LogRow> {
    picks.map_values(|i: usize| rows[i as int])
}

/// Takes the rows at the picked places, in the order of the picks.
fn take_rows(rows: Vec<LogRow>, picks: &Vec<usize>) -> (r: Vec<LogRow>)
    requires
        forall|j: int| 0 <= j < picks@.len() ==> #[trigger] picks@[j] < rows@.len(),
        picks@.no_duplicates(),
    ensures
        r@ == picked(rows@, picks@),
{
    let ghost all = rows@;
    let n: usize = rows.len();
    let mut rows = rows;
    let mut slots: Vec<Option<LogRow>> = Vec::new();
    while rows.len() > 0
        invariant
            n == all.len(),
            rows@.len() + slots@.len() == n,
            rows@ == all.take(rows@.len() as int),
            forall|k: int| 0 <= k < slots@.len() ==> #[trigger] slots@[k] == Some(all[n - 1 - k]),
        decreases rows@.len(),
    {
        let row = rows.pop();
        slots.push(row);
        assert(rows@ =~= all.take(rows@.len() as int));
    }
    let mut out: Vec<LogRow> = Vec::new();
    let mut j: usize = 0;
    while j < picks.len()
        invariant
            j <= picks@.len(),
            n == all.len() == slots@.len(),
            forall|j: int| 0 <= j < picks@.len() ==> #[trigger] picks@[j] < n,
            picks@.no_duplicates(),
            out@.len() == j,
            forall|k: int| 0 <= k < j ==> #[trigger] out@[k] == all[picks@[k] as int],
            forall|k: int|
                j <= k < picks@.len() ==> slots@[n - 1 - #[trigger] picks@[k]] == Some(
                    all[picks@[k] as int],
                ),
        decreases picks@.len() - j,
    {
        let at: usize = n - 1 - picks[j];
        let row = slots[at].take();
        match row {
            Some(x) => {
                out.push(x);
            },
            None => {
                assert(slots@[n - 1 - picks@[j as int]] is None);
                assert(false);
            },
        }
        j = j + 1;
    }
    assert(out@ =~= picked(all, picks@));
    out
}

/// Keeps the rows that pass every active filter.
pub fn filter_rows(rows: Vec<LogRow>, filters: &HashMap<ChannelId, ColumnFilter>) -> (r: Vec<LogRow>)
    ensures
        r@ == matching(rows@, filters@),
{
    let ghost keep = |r: LogRow| passes_all(r.cell_views(), filters@);
    let mut picks: Vec<usize> = Vec::new();
    let mut i: usize = 0;
    proof {
        reveal(Seq::filter);
        assert(picked(rows@, picks@) =~= rows@.take(0).filter(keep));
    }
    while i < rows.len()
        invariant
            i <= rows@.len(),
            keep == (|r: LogRow| passes_all(r.cell_views(), filters@)),
            forall|j: int| 0 <= j < picks@.len() ==> #[trigger] picks@[j] < i,
            picks@.no_duplicates(),
            picked(rows@, picks@) == rows@.take(i as int).filter(keep),
        decreases rows@.len() - i,
    {
        let ghost before = picks@;
        proof {
            reveal(Seq::filter);
            assert(rows@.take(i + 1).drop_last() =~= rows@.take(i as int));
        }
        if row_passes_filters(&rows[i], filters) {
            picks.push(i);
            assert(picked(rows@, picks@) =~= picked(rows@, before).push(rows@[i as int]));
        }
        i = i + 1;
    }
    assert(rows@.take(rows@.len() as int) =~= rows@);
    take_rows(rows, &picks)
}

/// The text of a state value: its label, or the number where it has none.
pub open spec fn state_text(value: u32, labels: Seq<Seq<char>>) -> Seq<char> {
    if value < labels.len() {
        labels[value as int]
    } else {
        decimal(value as nat)
    }
}

/// The text of a state value.
pub fn state_value_text(value: u32, labels: &Vec<String>) -> (r: String)
    ensures
        r@ == state_text(value, labels@.map_values(|l: String| l@)),
{
    let i: usize = value as usize;
    if i < labels.len() {
        labels[i].clone()
    } else {
        let mut out = String::new();
        append_digits(&mut out, value as u64, 10);
        assert(out@ =~= decimal(value as nat));
        out
    }
}

/// The first index at or after `i` of a run that starts after `t`, or the end.
pub open spec fn first_run_after(runs: Seq<StateRun>, t: u64, i: int) -> int
    decreases runs.len() - i,
{
    if i >= runs.len() || runs[i].t_start > t {
        i
    } else {
        first_run_after(runs, t, i + 1)
    }
}

/// The state at `t`: that of the last run that starts by then, unless it has ended.
pub open spec fn state_value(runs: Seq<StateRun>, t: u64) -> Option<u32> {
    let i = first_run_after(runs, t, 0);
    if i > 0 && (t < runs[i - 1].t_end || runs[i - 1].t_end == u64::MAX) {
        Some(runs[i - 1].value)
    } else {
        None
    }
}

/// The state at `t`.
pub fn state_value_at(runs: &Vec<StateRun>, t: u64) -> (r: Option<u32>)
    ensures
        r == state_value(runs@, t),
{
    let mut i: usize = 0;
    while i < runs.len() && runs[i].t_start <= t
        invariant
            i <= runs@.len(),
            first_run_after(runs@, t, 0) == first_run_after(runs@, t, i as int),
        decreases runs@.len() - i,
    {
        i = i + 1;
    }
    if i == 0 {
        return None;
    }
    let run = runs[i - 1];
    if t < run.t_end || run.t_end == u64::MAX {
        Some(run.value)
    } else {
        None
    }
}

/// The timed cells of a numeric or text column in the window, as the store gives
/// them.
pub open spec fn points_of(
    store: StoreView,
    kind: ChannelKind,
    ch: ChannelId,
    t0: u64,
    t1: u64,
) -> Seq<(u64, CellView)> {
    match kind {
        ChannelKind::Scalar => downsampled(store.samples(ch), t0, t1, LOG_SCAN_MAX).map_values(
            |b: Bucket| (b.t, CellView { display: scalar_text(b.max), raw: Some(b.max) }),
        ),
        ChannelKind::Text => if ch < store.texts.len() {
            texts_within(store.texts[ch as int], t0, t1, LOG_SCAN_MAX).map_values(
                |p: (u64, Seq<char>)| (p.0, CellView { display: p.1, raw: None }),
            )
        } else {
            Seq::empty()
        },
        ChannelKind::State { .. } => Seq::empty(),
    }
}

/// The point with the latest time up to `t`; of several at that time the last.
pub open spec fn latest_at(p: Seq<(u64, CellView)>, t: u64) -> Option<(u64, CellView)>
    decreases p.len(),
{
    if p.len() == 0 {
        None
    } else {
        let r = latest_at(p.drop_last(), t);
        let x = p.last();
        if x.0 <= t && (r matches Some(y) ==> y.0 <= x.0) {
            Some(x)
        } else {
            r
        }
    }
}

/// The cell of a column at `t`: the value it had last by then.
pub open spec fn cell_of(
    store: StoreView,
    by_id: Map<ChannelId, ChannelInfo>,
    ch: ChannelId,
    t0: u64,
    t1: u64,
    t: u64,
) -> Option<CellView> {
    if !by_id.contains_key(ch) {
        None
    } else {
        match by_id[ch].kind {
            ChannelKind::State { labels } => match state_value(
                runs_within(store.runs(ch), t0, t1),
                t,
            ) {
                Some(v) => Some(state_cell(v, labels@)),
                None => None,
            },
            kind => match latest_at(points_of(store, kind, ch, t0, t1), t) {
                Some(p) => Some(p.1),
                None => None,
            },
        }
    }
}

/// The cells of a row at `t`.
pub open spec fn cells_at(
    store: StoreView,
    by_id: Map<ChannelId, ChannelInfo>,
    columns: Seq<ChannelId>,
    t0: u64,
    t1: u64,
    t: u64,
) -> Map<ChannelId, CellView> {
    Map::new(
        |ch: ChannelId| columns.contains(ch) && cell_of(store, by_id, ch, t0, t1, t) is Some,
        |ch: ChannelId| cell_of(store, by_id, ch, t0, t1, t)->0,
    )
}

/// Whether the column is a text channel.
pub open spec fn is_text(by_id: Map<ChannelId, ChannelInfo>, ch: ChannelId) -> bool {
    by_id.contains_key(ch) && by_id[ch].kind is Text
}

/// The first index at or after `i` of a text column, or the end.
pub open spec fn first_text(
    by_id: Map<ChannelId, ChannelInfo>,
    columns: Seq<ChannelId>,
    i: int,
) -> int
    decreases columns.len() - i,
{
    if i >= columns.len() || is_text(by_id, columns[i]) {
        i
    } else {
        first_text(by_id, columns, i + 1)
    }
}

/// The index of the anchor: the first text column, else the first.
pub open spec fn anchor_index(by_id: Map<ChannelId, ChannelInfo>, columns: Seq<ChannelId>) -> int {
    let i = first_text(by_id, columns, 0);
    if i < columns.len() {
        i
    } else {
        0
    }
}

/// Points in order of time with one more, behind those of its time.
pub open spec fn placed(v: Seq<(u64, CellView)>, x: (u64, CellView)) -> Seq<(u64, CellView)>
    decreases v.len(),
{
    if v.len() == 0 || v.last().0 <= x.0 {
        v.push(x)
    } else {
        placed(v.drop_last(), x).push(v.last())
    }
}

/// The points in order of time; those of one time stay as they came.
pub open spec fn by_time(p: Seq<(u64, CellView)>) -> Seq<(u64, CellView)>
    decreases p.len(),
{
    if p.len() == 0 {
        p
    } else {
        placed(by_time(p.drop_last()), p.last())
    }
}

/// The cell of a state.
pub open spec fn state_cell(value: u32, labels: Seq<String>) -> CellView {
    CellView {
        display: state_text(value, labels.map_values(|l: String| l@)),
        raw: Some(double_of_nat(value as nat) as u64),
    }
}

/// The entries of the anchor in the window: its points, or its runs at their starts.
pub open spec fn entries_of(
    store: StoreView,
    by_id: Map<ChannelId, ChannelInfo>,
    anchor: ChannelId,
    t0: u64,
    t1: u64,
) -> Seq<(u64, CellView)> {
    if !by_id.contains_key(anchor) {
        Seq::empty()
    } else {
        match by_id[anchor].kind {
            ChannelKind::State { labels } => runs_within(store.runs(anchor), t0, t1).map_values(
                |r: StateRun| (r.t_start, state_cell(r.value, labels@)),
            ),
            kind => points_of(store, kind, anchor, t0, t1),
        }
    }
}

/// Whether these are the rows of a log: one for each entry of the anchor, in order of
/// time, with the entry itself and what the other columns had last by then.
pub open spec fn are_log_rows(
    store: StoreView,
    by_id: Map<ChannelId, ChannelInfo>,
    columns: Seq<ChannelId>,
    t0: u64,
    t1: u64,
    rows: Seq<LogRow>,
) -> bool {
    let anchor = columns[anchor_index(by_id, columns)];
    let entries = by_time(entries_of(store, by_id, anchor, t0, t1));
    &&& times_of(rows) == entries.map_values(|e: (u64, CellView)| e.0)
    &&& forall|i: int|
        0 <= i < rows.len() ==> (#[trigger] rows[i]).cell_views() == cells_at(
            store,
            by_id,
            columns,
            t0,
            t1,
            entries[i].0,
        ).insert(anchor, entries[i].1)
}

/// Points in order of time.
pub open spec fn in_time(v: Seq<(u64, CellView)>) -> bool {
    forall|i: int, j: int| 0 <= i <= j < v.len() ==> (#[trigger] v[i]).0 <= (#[trigger] v[j]).0
}

/// The last of the ordered points up to `t`.
spec fn look(v: Seq<(u64, CellView)>, t: u64) -> Option<(u64, CellView)>
    decreases v.len(),
{
    if v.len() == 0 {
        None
    } else if v.last().0 <= t {
        Some(v.last())
    } else {
        look(v.drop_last(), t)
    }
}

proof fn lemma_look_time(v: Seq<(u64, CellView)>, t: u64)
    requires
        in_time(v),
    ensures
        look(v, t) matches Some(y) ==> v.len() > 0 && y.0 <= v.last().0 && y.0 <= t,
    decreases v.len(),
{
    if v.len() > 0 && v.last().0 > t {
        lemma_look_time(v.drop_last(), t);
        if v.len() > 1 {
            assert(v[v.len() - 2].0 <= v.last().0);
        }
    }
}

proof fn lemma_placed(v: Seq<(u64, CellView)>, x: (u64, CellView))
    requires
        in_time(v),
    ensures
        in_time(placed(v, x)),
        placed(v, x).len() == v.len() + 1,
        placed(v, x).last().0 == (if v.len() > 0 && v.last().0 > x.0 {
            v.last().0
        } else {
            x.0
        }),
    decreases v.len(),
{
    let w = placed(v, x);
    if v.len() == 0 || v.last().0 <= x.0 {
        assert forall|i: int, j: int| 0 <= i <= j < w.len() implies (#[trigger] w[i]).0 <= (
        #[trigger] w[j]).0 by {
            if i < v.len() {
                assert(v[i].0 <= v[v.len() - 1].0);
            }
        }
    } else {
        let r = v.drop_last();
        lemma_placed(r, x);
        let p = placed(r, x);
        if r.len() > 0 {
            assert(v[v.len() - 2].0 <= v.last().0);
        }
        assert forall|i: int, j: int| 0 <= i <= j < w.len() implies (#[trigger] w[i]).0 <= (
        #[trigger] w[j]).0 by {
            if j == p.len() {
                if i < p.len() {
                    assert(p[i].0 <= p[p.len() - 1].0);
                }
            } else {
                assert(p[i].0 <= p[j].0);
            }
        }
    }
}

proof fn lemma_look_placed(v: Seq<(u64, CellView)>, x: (u64, CellView), t: u64)
    requires
        in_time(v),
    ensures
        look(placed(v, x), t) == (if x.0 <= t && (look(v, t) matches Some(y) ==> y.0 <= x.0) {
            Some(x)
        } else {
            look(v, t)
        }),
    decreases v.len(),
{
    let w = placed(v, x);
    lemma_look_time(v, t);
    if v.len() == 0 || v.last().0 <= x.0 {
        assert(w.drop_last() =~= v);
    } else {
        lemma_look_placed(v.drop_last(), x, t);
        assert(w.drop_last() =~= placed(v.drop_last(), x));
    }
}

proof fn lemma_by_time(p: Seq<(u64, CellView)>)
    ensures
        in_time(by_time(p)),
        by_time(p).len() == p.len(),
        forall|t: u64| #[trigger] look(by_time(p), t) == latest_at(p, t),
    decreases p.len(),
{
    if p.len() > 0 {
        let head = p.drop_last();
        lemma_by_time(head);
        lemma_placed(by_time(head), p.last());
        assert forall|t: u64| #[trigger] look(by_time(p), t) == latest_at(p, t) by {
            lemma_look_placed(by_time(head), p.last(), t);
            assert(look(by_time(head), t) == latest_at(head, t));
        }
    }
}

/// The points of one time, as they came.
pub open spec fn at_time(p: Seq<(u64, CellView)>, t: u64) -> Seq<(u64, CellView)>
    decreases p.len(),
{
    if p.len() == 0 {
        p
    } else if p.last().0 == t {
        at_time(p.drop_last(), t).push(p.last())
    } else {
        at_time(p.drop_last(), t)
    }
}

proof fn lemma_at_time_placed(v: Seq<(u64, CellView)>, x: (u64, CellView), t: u64)
    ensures
        at_time(placed(v, x), t) == (if x.0 == t {
            at_time(v, t).push(x)
        } else {
            at_time(v, t)
        }),
        placed(v, x).len() == v.len() + 1,
    decreases v.len(),
{
    let w = placed(v, x);
    if v.len() == 0 || v.last().0 <= x.0 {
        assert(w.drop_last() =~= v);
    } else {
        lemma_at_time_placed(v.drop_last(), x, t);
        assert(w.drop_last() =~= placed(v.drop_last(), x));
    }
}

/// Putting entries in order of time loses none of them: those of each time are all
/// there, as they came.
pub proof fn law_no_entry_is_lost(p: Seq<(u64, CellView)>, t: u64)
    ensures
        in_time(by_time(p)),
        by_time(p).len() == p.len(),
        at_time(by_time(p), t) == at_time(p, t),
    decreases p.len(),
{
    lemma_by_time(p);
    if p.len() > 0 {
        law_no_entry_is_lost(p.drop_last(), t);
        lemma_at_time_placed(by_time(p.drop_last()), p.last(), t);
    }
}

/// What a list of timed cells says.
pub open spec fn timed_view(v: Seq<(u64, LogCell)>) -> Seq<(u64, CellView)> {
    v.map_values(|p: (u64, LogCell)| (p.0, p.1@))
}

proof fn lemma_timed_push(v: Seq<(u64, LogCell)>, x: (u64, LogCell))
    ensures
        timed_view(v.push(x)) == timed_view(v).push((x.0, x.1@)),
{
    assert(timed_view(v.push(x)) =~= timed_view(v).push((x.0, x.1@)));
}

/// Puts a timed cell among ordered ones.
fn place(v: &mut Vec<(u64, LogCell)>, x: (u64, LogCell))
    ensures
        timed_view(final(v)@) == placed(timed_view(old(v)@), (x.0, x.1@)),
{
    let ghost start = timed_view(v@);
    let ghost xv = (x.0, x.1@);
    let mut later: Vec<(u64, LogCell)> = Vec::new();
    proof {
        assert(timed_view(later@).reverse() =~= Seq::empty());
        assert(placed(start, xv) =~= placed(timed_view(v@), xv) + timed_view(later@).reverse());
    }
    while v.len() > 0 && v[v.len() - 1].0 > x.0
        invariant
            xv == (x.0, x.1@),
            placed(start, xv) == placed(timed_view(v@), xv) + timed_view(later@).reverse(),
        decreases v@.len(),
    {
        let ghost before = timed_view(v@);
        let ghost tail = timed_view(later@);
        match v.pop() {
            Some(y) => {
                later.push(y);
                proof {
                    let yv = (y.0, y.1@);
                    assert(timed_view(v@) =~= before.drop_last());
                    assert(before.last() == yv);
                    lemma_timed_push(later@.drop_last(), y);
                    assert(later@.drop_last().push(y) =~= later@);
                    assert(timed_view(later@.drop_last()) =~= tail);
                    assert(placed(before.drop_last(), xv).push(yv) + tail.reverse() =~= placed(
                        before.drop_last(),
                        xv,
                    ) + tail.push(yv).reverse());
                }
            },
            None => {
                assert(false);
            },
        }
    }
    let ghost base = timed_view(v@);
    proof {
        lemma_timed_push(v@, x);
        if base.len() > 0 {
            assert(base.last().0 == v@[v@.len() - 1].0);
        }
    }
    v.push(x);
    assert(timed_view(v@) =~= placed(base, xv));
    let ghost mid = timed_view(v@);
    let ghost rest = timed_view(later@);
    assert(mid + rest.reverse() =~= timed_view(v@) + timed_view(later@).reverse());
    while later.len() > 0
        invariant
            timed_view(v@) + timed_view(later@).reverse() == mid + rest.reverse(),
        decreases later@.len(),
    {
        let ghost before = timed_view(later@);
        let ghost have = timed_view(v@);
        match later.pop() {
            Some(y) => {
                proof {
                    let yv = (y.0, y.1@);
                    assert(timed_view(later@) =~= before.drop_last());
                    assert(before.last() == yv);
                    lemma_timed_push(v@, y);
                    assert(have.push(yv) + before.drop_last().reverse() =~= have
                        + before.reverse());
                }
                v.push(y);
            },
            None => {
                assert(false);
            },
        }
    }
    assert(timed_view(later@).reverse() =~= Seq::empty());
    assert(timed_view(v@) =~= mid + rest.reverse());
}

/// The cells of a numeric or text column in the window, in order of time.
fn load_points(store: &MockStore, kind: &ChannelKind, ch: ChannelId, t0: u64, t1: u64) -> (r: Vec<
    (u64, LogCell),
>)
    ensures
        timed_view(r@) == by_time(points_of(store@, *kind, ch, t0, t1)),
{
    let mut out: Vec<(u64, LogCell)> = Vec::new();
    let ghost all = points_of(store@, *kind, ch, t0, t1);
    proof {
        assert(timed_view(out@) =~= Seq::empty());
        assert(all.take(0) =~= Seq::empty());
    }
    match kind {
        ChannelKind::Scalar => {
            let raw = store.query_raw(ch, t0, t1, LOG_SCAN_MAX);
            let mut i: usize = 0;
            while i < raw.len()
                invariant
                    i <= raw@.len() == all.len(),
                    forall|k: int|
                        0 <= k < raw@.len() ==> #[trigger] all[k] == (
                            raw@[k].0,
                            (CellView { display: scalar_text(raw@[k].1), raw: Some(raw@[k].1) }),
                        ),
                    timed_view(out@) == by_time(all.take(i as int)),
                decreases raw@.len() - i,
            {
                let (t, v) = raw[i];
                let x = (t, LogCell { display: format_scalar_value(v), raw: Some(v) });
                proof {
                    assert(all.take(i + 1).drop_last() =~= all.take(i as int));
                    assert(all.take(i + 1).last() == (x.0, x.1@));
                }
                place(&mut out, x);
                i = i + 1;
            }
            assert(all.take(raw@.len() as int) =~= all);
        },
        ChannelKind::Text => {
            let texts = store.query_text(ch, t0, t1, LOG_SCAN_MAX);
            let ghost shown = texts_view(texts@);
            assert(all =~= shown.map_values(
                |p: (u64, Seq<char>)| (p.0, CellView { display: p.1, raw: None }),
            ));
            assert(forall|k: int|
                0 <= k < texts@.len() ==> #[trigger] shown[k] == (texts@[k].0, texts@[k].1@));
            let mut i: usize = 0;
            while i < texts.len()
                invariant
                    i <= texts@.len() == all.len(),
                    forall|k: int|
                        0 <= k < texts@.len() ==> #[trigger] all[k] == (
                            texts@[k].0,
                            (CellView { display: texts@[k].1@, raw: None }),
                        ),
                    timed_view(out@) == by_time(all.take(i as int)),
                decreases texts@.len() - i,
            {
                let x = (texts[i].0, LogCell { display: texts[i].1.clone(), raw: None });
                proof {
                    assert(all.take(i + 1).drop_last() =~= all.take(i as int));
                    assert(all.take(i + 1).last() == (x.0, x.1@));
                }
                place(&mut out, x);
                i = i + 1;
            }
            assert(all.take(texts@.len() as int) =~= all);
        },
        ChannelKind::State { .. } => {
            assert(all =~= all.take(0));
        },
    }
    out
}

proof fn lemma_look_split(v: Seq<(u64, CellView)>, t: u64, n: int)
    requires
        0 <= n <= v.len(),
        n > 0 ==> v[n - 1].0 <= t,
        forall|i: int| n <= i < v.len() ==> (#[trigger] v[i]).0 > t,
    ensures
        look(v, t) == (if n == 0 {
            None
        } else {
            Some(v[n - 1])
        }),
    decreases v.len(),
{
    if v.len() > n {
        assert(v[v.len() - 1].0 > t);
        lemma_look_split(v.drop_last(), t, n);
    }
}

/// The last of the ordered cells up to `t`.
fn look_up(v: &Vec<(u64, LogCell)>, t: u64) -> (r: Option<LogCell>)
    requires
        in_time(timed_view(v@)),
    ensures
        match look(timed_view(v@), t) {
            Some(p) => r matches Some(c) && c@ == p.1,
            None => r is None,
        },
{
    let mut lo: usize = 0;
    let mut hi: usize = v.len();
    let ghost tv = timed_view(v@);
    while lo < hi
        invariant
            lo <= hi <= v@.len(),
            tv == timed_view(v@),
            in_time(tv),
            lo > 0 ==> tv[lo - 1].0 <= t,
            forall|i: int| hi <= i < tv.len() ==> (#[trigger] tv[i]).0 > t,
        decreases hi - lo,
    {
        let mid: usize = lo + (hi - lo) / 2;
        assert(tv[mid as int].0 == v@[mid as int].0);
        if v[mid].0 <= t {
            lo = mid + 1;
        } else {
            hi = mid;
        }
    }
    proof {
        lemma_look_split(tv, t, lo as int);
    }
    if lo == 0 {
        None
    } else {
        assert(tv[lo - 1].1 == v@[lo - 1].1@);
        Some(v[lo - 1].1.clone())
    }
}

/// What a column carries forward: its cells, or its runs.
enum ColSource {
    Unknown,
    Values(Vec<(u64, LogCell)>),
    States(Vec<StateRun>),
}

/// Whether the source holds what the store has for the column.
spec fn is_source(
    s: ColSource,
    store: StoreView,
    by_id: Map<ChannelId, ChannelInfo>,
    ch: ChannelId,
    t0: u64,
    t1: u64,
) -> bool {
    match s {
        ColSource::Unknown => !by_id.contains_key(ch),
        ColSource::Values(v) => by_id.contains_key(ch) && !(by_id[ch].kind is State) && timed_view(v@)
            == by_time(points_of(store, by_id[ch].kind, ch, t0, t1)),
        ColSource::States(runs) => by_id.contains_key(ch) && by_id[ch].kind is State && runs@
            == runs_within(store.runs(ch), t0, t1),
    }
}

fn load_source(
    store: &MockStore,
    by_id: &HashMap<ChannelId, ChannelInfo>,
    ch: ChannelId,
    t0: u64,
    t1: u64,
) -> (r: ColSource)
    ensures
        is_source(r, store@, by_id@, ch, t0, t1),
{
    match by_id.get(&ch) {
        None => ColSource::Unknown,
        Some(info) => match &info.kind {
            ChannelKind::State { .. } => ColSource::States(store.query_state(ch, t0, t1)),
            kind => ColSource::Values(load_points(store, kind, ch, t0, t1)),
        },
    }
}

/// The cell of a column at `t`.
fn cell_at(
    s: &ColSource,
    Ghost(store): Ghost<StoreView>,
    by_id: &HashMap<ChannelId, ChannelInfo>,
    ch: ChannelId,
    Ghost(t0): Ghost<u64>,
    Ghost(t1): Ghost<u64>,
    t: u64,
) -> (r: Option<LogCell>)
    requires
        is_source(*s, store, by_id@, ch, t0, t1),
    ensures
        match cell_of(store, by_id@, ch, t0, t1, t) {
            Some(c) => r matches Some(x) && x@ == c,
            None => r is None,
        },
{
    match s {
        ColSource::Unknown => None,
        ColSource::Values(v) => {
            proof {
                lemma_by_time(points_of(store, by_id@[ch].kind, ch, t0, t1));
                assert(look(timed_view(v@), t) == latest_at(
                    points_of(store, by_id@[ch].kind, ch, t0, t1),
                    t,
                ));
            }
            look_up(v, t)
        },
        ColSource::States(runs) => match by_id.get(&ch) {
            Some(info) => match &info.kind {
                ChannelKind::State { labels } => match state_value_at(runs, t) {
                    Some(v) => Some(cell_of_state(v, labels)),
                    None => None,
                },
                _ => None,
            },
            None => None,
        },
    }
}

/// The cell of a state.
fn cell_of_state(value: u32, labels: &Vec<String>) -> (r: LogCell)
    ensures
        r@ == state_cell(value, labels@),
{
    LogCell { display: state_value_text(value, labels), raw: Some(f64_of_u64(value as u64)) }
}

/// The entries of the anchor in order of time.
fn anchor_entries(
    s: &ColSource,
    Ghost(store): Ghost<StoreView>,
    by_id: &HashMap<ChannelId, ChannelInfo>,
    anchor: ChannelId,
    Ghost(t0): Ghost<u64>,
    Ghost(t1): Ghost<u64>,
) -> (r: Vec<(u64, LogCell)>)
    requires
        is_source(*s, store, by_id@, anchor, t0, t1),
    ensures
        timed_view(r@) == by_time(entries_of(store, by_id@, anchor, t0, t1)),
{
    let ghost all = entries_of(store, by_id@, anchor, t0, t1);
    let mut out: Vec<(u64, LogCell)> = Vec::new();
    assert(timed_view(out@) =~= Seq::empty());
    match s {
        ColSource::Unknown => {},
        ColSource::Values(v) => {
            let mut i: usize = 0;
            while i < v.len()
                invariant
                    i <= v@.len(),
                    out@.len() == i,
                    forall|k: int|
                        0 <= k < i ==> #[trigger] out@[k].0 == v@[k].0 && out@[k].1@ == v@[k].1@,
                decreases v@.len() - i,
            {
                out.push((v[i].0, v[i].1.clone()));
                i = i + 1;
            }
            assert(timed_view(out@) =~= timed_view(v@));
        },
        ColSource::States(runs) => {
            if let Some(info) = by_id.get(&anchor) {
                if let ChannelKind::State { labels } = &info.kind {
                    let mut i: usize = 0;
                    assert(all.take(0) =~= Seq::empty());
                    while i < runs.len()
                        invariant
                            i <= runs@.len() == all.len(),
                            forall|k: int|
                                0 <= k < runs@.len() ==> #[trigger] all[k] == (
                                    runs@[k].t_start,
                                    state_cell(runs@[k].value, labels@),
                                ),
                            timed_view(out@) == by_time(all.take(i as int)),
                        decreases runs@.len() - i,
                    {
                        let x = (runs[i].t_start, cell_of_state(runs[i].value, labels));
                        proof {
                            assert(all.take(i + 1).drop_last() =~= all.take(i as int));
                            assert(all.take(i + 1).last() == (x.0, x.1@));
                        }
                        place(&mut out, x);
                        i = i + 1;
                    }
                    assert(all.take(runs@.len() as int) =~= all);
                }
            }
        },
    }
    out
}

/// The times of rows.
pub open spec fn times_of(rows: Seq<LogRow>) -> Seq<u64> {
    rows.map_values(|r: LogRow| r.t)
}

/// Builds the rows of a log in `[t0, t1)`, before filters and truncation: one row
/// per entry of the anchor, which is the first text column or else the first, with
/// every other column's last value by then.
pub fn build_log_rows(
    store: &MockStore,
    by_id: &HashMap<ChannelId, ChannelInfo>,
    columns: &[ChannelId],
    t0: u64,
    t1: u64,
) -> (r: Vec<LogRow>)
    ensures
        columns@.len() == 0 ==> r@.len() == 0,
        columns@.len() > 0 ==> are_log_rows(store@, by_id@, columns@, t0, t1, r@),
        in_order(times_of(r@)),
{
    let mut rows: Vec<LogRow> = Vec::new();
    let n: usize = columns.len();
    if n == 0 {
        return rows;
    }
    let mut sources: Vec<ColSource> = Vec::new();
    let mut anchor: usize = n;
    let mut i: usize = 0;
    while i < n
        invariant
            i <= n == columns@.len(),
            sources@.len() == i,
            forall|k: int|
                0 <= k < i ==> is_source(
                    #[trigger] sources@[k],
                    store@,
                    by_id@,
                    columns@[k],
                    t0,
                    t1,
                ),
            anchor < n ==> anchor == first_text(by_id@, columns@, 0),
            anchor <= n,
            anchor == n ==> first_text(by_id@, columns@, 0) == first_text(
                by_id@,
                columns@,
                i as int,
            ),
        decreases n - i,
    {
        let ch = columns[i];
        sources.push(load_source(store, by_id, ch, t0, t1));
        if anchor == n {
            match by_id.get(&ch) {
                Some(info) => match &info.kind {
                    ChannelKind::Text => {
                        anchor = i;
                    },
                    _ => {},
                },
                None => {},
            }
        }
        i = i + 1;
    }
    if anchor == n {
        anchor = 0;
    }
    let anchor_ch = columns[anchor];
    let entries = anchor_entries(
        &sources[anchor],
        Ghost(store@),
        by_id,
        anchor_ch,
        Ghost(t0),
        Ghost(t1),
    );
    let mut k: usize = 0;
    while k < entries.len()
        invariant
            k <= entries@.len(),
            n == columns@.len() == sources@.len(),
            forall|k: int|
                0 <= k < n ==> is_source(
                    #[trigger] sources@[k],
                    store@,
                    by_id@,
                    columns@[k],
                    t0,
                    t1,
                ),
            rows@.len() == k,
            forall|j: int| 0 <= j < k ==> (#[trigger] rows@[j]).t == entries@[j].0,
            forall|j: int|
                0 <= j < k ==> (#[trigger] rows@[j]).cell_views() == cells_at(
                    store@,
                    by_id@,
                    columns@,
                    t0,
                    t1,
                    entries@[j].0,
                ).insert(anchor_ch, entries@[j].1@),
        decreases entries@.len() - k,
    {
        let t = entries[k].0;
        let mut cells: HashMap<ChannelId, LogCell> = HashMap::new();
        let mut c: usize = 0;
        while c < n
            invariant
                c <= n == columns@.len() == sources@.len(),
                forall|k: int|
                    0 <= k < n ==> is_source(
                        #[trigger] sources@[k],
                        store@,
                        by_id@,
                        columns@[k],
                        t0,
                        t1,
                    ),
                forall|x: ChannelId| #[trigger]
                    cells@.contains_key(x) <==> columns@.take(c as int).contains(x) && cell_of(
                        store@,
                        by_id@,
                        x,
                        t0,
                        t1,
                        t,
                    ) is Some,
                forall|x: ChannelId| #[trigger]
                    cells@.contains_key(x) ==> Some(cells@[x]@) == cell_of(
                        store@,
                        by_id@,
                        x,
                        t0,
                        t1,
                        t,
                    ),
            decreases n - c,
        {
            let ch = columns[c];
            let ghost before = cells@;
            match cell_at(&sources[c], Ghost(store@), by_id, ch, Ghost(t0), Ghost(t1), t) {
                Some(cell) => {
                    cells.insert(ch, cell);
                },
                None => {},
            }
            proof {
                let a = columns@.take(c as int);
                let b = columns@.take(c + 1);
                assert(b =~= a.push(ch));
                assert forall|x: ChannelId| #[trigger] b.contains(x) <==> a.contains(x) || x
                    == ch by {
                    if a.contains(x) {
                        let i = choose|i: int| 0 <= i < a.len() && a[i] == x;
                        assert(b[i] == x);
                    }
                    assert(b[c as int] == ch);
                    if b.contains(x) && x != ch {
                        let i = choose|i: int| 0 <= i < b.len() && b[i] == x;
                        assert(a[i] == x);
                    }
                }
            }
            c = c + 1;
        }
        assert(columns@.take(n as int) =~= columns@);
        cells.insert(anchor_ch, entries[k].1.clone());
        let row = LogRow { t, cells };
        assert(row.cell_views() =~= cells_at(store@, by_id@, columns@, t0, t1, t).insert(
            anchor_ch,
            entries@[k as int].1@,
        ));
        rows.push(row);
        k = k + 1;
    }
    proof {
        let all = entries_of(store@, by_id@, anchor_ch, t0, t1);
        let tv = timed_view(entries@);
        lemma_by_time(all);
        assert(times_of(rows@) =~= tv.map_values(|e: (u64, CellView)| e.0));
        assert forall|i: int, j: int| 0 <= i <= j < rows@.len() implies #[trigger] times_of(
            rows@,
        )[i] <= #[trigger] times_of(rows@)[j] by {
            assert(tv[i].0 <= tv[j].0);
        }
    }
    rows
}

/// Times that never decrease.
pub open spec fn in_order(times: Seq<u64>) -> bool {
    forall|i: int, j: int| 0 <= i <= j < times.len() ==> #[trigger] times[i] <= #[trigger] times[j]
}

/// Which of `n` equal slices of the time from first to last holds the time at `i`.
pub open spec fn slice_of(times: Seq<u64>, n: nat, i: int) -> int {
    ((times[i] - times[0]) * n) / (times[times.len() - 1] - times[0] + 1)
}

/// How far apart the kept ones of `len` must lie for `n` of them to do.
pub open spec fn stride(len: nat, n: nat) -> nat {
    if len % n == 0 {
        len / n
    } else {
        len / n + 1
    }
}

/// Whether a sample of `n` over time keeps the time at `i`: all of them where there
/// are no more than `n`, otherwise the first in each slice of time, or every so
/// many where all times are the same.
pub open spec fn in_sample(times: Seq<u64>, n: nat, i: int) -> bool {
    if n == 0 {
        false
    } else if times.len() <= n {
        true
    } else if times[0] == times[times.len() - 1] {
        i % (stride(times.len(), n) as int) == 0 && i / (stride(times.len(), n) as int) < n
    } else {
        i == 0 || slice_of(times, n, i) != slice_of(times, n, i - 1)
    }
}

/// The places below `k` that a sample keeps.
pub open spec fn sample_upto(times: Seq<u64>, n: nat, k: int) -> Seq<usize>
    decreases k,
{
    if k <= 0 {
        Seq::empty()
    } else if in_sample(times, n, k - 1) {
        sample_upto(times, n, k - 1).push((k - 1) as usize)
    } else {
        sample_upto(times, n, k - 1)
    }
}

/// The places that a sample of `n` over time keeps.
pub open spec fn sample_of(times: Seq<u64>, n: nat) -> Seq<usize> {
    sample_upto(times, n, times.len() as int)
}

proof fn lemma_slice(times: Seq<u64>, n: nat, i: int, j: int)
    requires
        in_order(times),
        0 <= i <= j < times.len(),
        n > 0,
    ensures
        0 <= slice_of(times, n, i) <= slice_of(times, n, j) < n,
        (times[j] - times[0]) * n <= u64::MAX * n,
{
    let span = times[times.len() - 1] - times[0] + 1;
    let a = times[i] - times[0];
    let b = times[j] - times[0];
    let m = n as int;
    assert(0 <= a <= b < span);
    assert(0 <= a * m <= b * m <= 0xffff_ffff_ffff_ffff * m) by (nonlinear_arith)
        requires
            0 <= a <= b <= 0xffff_ffff_ffff_ffff,
            m > 0,
    ;
    assert(b * m < span * m) by (nonlinear_arith)
        requires
            b < span,
            m > 0,
    ;
    vstd::arithmetic::div_mod::lemma_div_is_ordered(a * m, b * m, span);
    vstd::arithmetic::div_mod::lemma_div_pos_is_pos(a * m, span);
    assert(span * m == m * span) by (nonlinear_arith);
    vstd::arithmetic::div_mod::lemma_multiply_divide_lt(b * m, span, m);
}

proof fn lemma_sample_upto(times: Seq<u64>, n: nat, k: int)
    requires
        in_order(times),
        0 <= k <= times.len() <= usize::MAX,
    ensures
        sample_upto(times, n, k).len() <= n,
        k > 0 && n > 0 && times.len() > n && times[0] != times[times.len() - 1]
            ==> sample_upto(times, n, k).len() <= slice_of(times, n, k - 1) + 1,
        k > 0 && n > 0 && times.len() > n && times[0] == times[times.len() - 1]
            ==> sample_upto(times, n, k).len() <= (k - 1) / (stride(times.len(), n) as int) + 1,
        sample_upto(times, n, k).len() <= k,
        forall|j: int|
            0 <= j < sample_upto(times, n, k).len() ==> #[trigger] sample_upto(times, n, k)[j] < k,
        forall|i: int, j: int|
            0 <= i < j < sample_upto(times, n, k).len() ==> #[trigger] sample_upto(times, n, k)[i]
                < #[trigger] sample_upto(times, n, k)[j],
    decreases k,
{
    if k > 0 {
        lemma_sample_upto(times, n, k - 1);
        let i = k - 1;
        if n > 0 && times.len() > n {
            if times[0] == times[times.len() - 1] {
                let s = stride(times.len(), n) as int;
                assert(s > 0) by {
                    vstd::arithmetic::div_mod::lemma_div_non_zero(times.len() as int, n as int);
                }
                if i > 0 {
                    vstd::arithmetic::div_mod::lemma_div_is_ordered(i - 1, i, s);
                    if i % s == 0 {
                        let q = i / s;
                        vstd::arithmetic::div_mod::lemma_fundamental_div_mod(i, s);
                        assert(i - 1 == s * (q - 1) + (s - 1)) by (nonlinear_arith)
                            requires
                                i == s * q,
                        ;
                        assert(s * (q - 1) == (q - 1) * s) by (nonlinear_arith);
                        vstd::arithmetic::div_mod::lemma_fundamental_div_mod_converse(
                            i - 1,
                            s,
                            q - 1,
                            s - 1,
                        );
                    }
                } else {
                    vstd::arithmetic::div_mod::lemma_div_basics(s);
                }
            } else {
                lemma_slice(times, n, i, i);
                if i > 0 {
                    lemma_slice(times, n, i - 1, i);
                }
            }
        }
    }
}

/// A sample never holds more than what was asked for.
pub proof fn law_sample_fits(times: Seq<u64>, n: nat)
    requires
        in_order(times),
        times.len() <= usize::MAX,
    ensures
        sample_of(times, n).len() <= n,
{
    lemma_sample_upto(times, n, times.len() as int);
}

/// The places that a sample of `n` over time keeps.
fn sample_places(times: &Vec<u64>, n: usize) -> (r: Vec<usize>)
    requires
        in_order(times@),
    ensures
        r@ == sample_of(times@, n as nat),
{
    let len: usize = times.len();
    let mut out: Vec<usize> = Vec::new();
    proof {
        if n > 0 {
            vstd::arithmetic::div_mod::lemma_fundamental_div_mod(len as int, n as int);
            let q = len as int / n as int;
            assert(n * q >= q) by (nonlinear_arith)
                requires
                    n >= 1,
                    q >= 0,
            ;
        }
    }
    let step: usize = if n == 0 {
        1
    } else if len % n == 0 {
        len / n
    } else {
        len / n + 1
    };
    let mut i: usize = 0;
    while i < len
        invariant
            i <= len == times@.len(),
            in_order(times@),
            n > 0 ==> step == stride(len as nat, n as nat),
            out@ == sample_upto(times@, n as nat, i as int),
        decreases len - i,
    {
        let keep: bool = if n == 0 {
            false
        } else if len <= n {
            true
        } else if times[0] == times[len - 1] {
            assert(step > 0) by {
                vstd::arithmetic::div_mod::lemma_div_non_zero(len as int, n as int);
            }
            i % step == 0 && i / step < n
        } else if i == 0 {
            true
        } else {
            proof {
                lemma_slice(times@, n as nat, i as int, i as int);
                lemma_slice(times@, n as nat, i - 1, i - 1);
                assert(u64::MAX * n <= u128::MAX) by (nonlinear_arith)
                    requires
                        n <= 0xffff_ffff_ffff_ffff,
                ;
                assert(n as u128 == n);
            }
            let first: u64 = times[0];
            let span: u128 = (times[len - 1] - first) as u128 + 1;
            let here: u128 = (times[i] - first) as u128 * n as u128 / span;
            let before: u128 = (times[i - 1] - first) as u128 * n as u128 / span;
            here != before
        };
        if keep {
            out.push(i);
        }
        i = i + 1;
    }
    out
}

/// Whether a sample of `n` that is filled up keeps the time at `i`: those of a sample
/// over time do, and of the others the first, as far as there is room for them.
pub open spec fn in_full_sample(times: Seq<u64>, n: nat, i: int) -> bool {
    let room = n - sample_of(times, n).len();
    in_sample(times, n, i) || i - sample_upto(times, n, i).len() < room
}

/// The places below `k` that a sample keeps that is filled up.
pub open spec fn full_sample_upto(times: Seq<u64>, n: nat, k: int) -> Seq<usize>
    decreases k,
{
    if k <= 0 {
        Seq::empty()
    } else if in_full_sample(times, n, k - 1) {
        full_sample_upto(times, n, k - 1).push((k - 1) as usize)
    } else {
        full_sample_upto(times, n, k - 1)
    }
}

/// The places that a sample of `n` over time keeps, filled up to `n` where slices of
/// time are empty.
pub open spec fn full_sample_of(times: Seq<u64>, n: nat) -> Seq<usize> {
    full_sample_upto(times, n, times.len() as int)
}

proof fn lemma_full_sample_upto(times: Seq<u64>, n: nat, k: int)
    requires
        in_order(times),
        0 <= k <= times.len() <= usize::MAX,
    ensures
        ({
            let skipped = k - sample_upto(times, n, k).len();
            let room = n - sample_of(times, n).len();
            &&& 0 <= skipped
            &&& 0 <= room
            &&& full_sample_upto(times, n, k).len() == sample_upto(times, n, k).len() + (
            if skipped < room {
                skipped
            } else {
                room
            })
        }),
        forall|j: int|
            0 <= j < full_sample_upto(times, n, k).len() ==> #[trigger] full_sample_upto(
                times,
                n,
                k,
            )[j] < k,
        forall|i: int, j: int|
            0 <= i < j < full_sample_upto(times, n, k).len() ==> #[trigger] full_sample_upto(
                times,
                n,
                k,
            )[i] < #[trigger] full_sample_upto(times, n, k)[j],
    decreases k,
{
    lemma_sample_upto(times, n, k);
    lemma_sample_upto(times, n, times.len() as int);
    if k > 0 {
        lemma_full_sample_upto(times, n, k - 1);
    }
}

/// A sample that is filled up holds as many as were asked for, where there are as many.
pub proof fn law_full_sample_is_full(times: Seq<u64>, n: nat)
    requires
        in_order(times),
        n <= times.len() <= usize::MAX,
    ensures
        full_sample_of(times, n).len() == n,
{
    lemma_full_sample_upto(times, n, times.len() as int);
}

/// What a sample keeps from `k` on comes behind what it keeps before.
proof fn lemma_sample_prefix(times: Seq<u64>, n: nat, k: int, m: int)
    requires
        0 <= k <= m <= usize::MAX,
    ensures
        sample_upto(times, n, k).len() <= sample_upto(times, n, m).len(),
        sample_upto(times, n, m).take(sample_upto(times, n, k).len() as int) == sample_upto(
            times,
            n,
            k,
        ),
        forall|j: int|
            sample_upto(times, n, k).len() <= j < sample_upto(times, n, m).len() ==> k
                <= #[trigger] sample_upto(times, n, m)[j],
    decreases m - k,
{
    let head = sample_upto(times, n, k);
    if k < m {
        lemma_sample_prefix(times, n, k, m - 1);
        let before = sample_upto(times, n, m - 1);
        assert(sample_upto(times, n, m).take(head.len() as int) =~= before.take(
            head.len() as int,
        ));
    } else {
        assert(head.take(head.len() as int) =~= head);
    }
}

/// The places that a sample of `n` over time keeps, filled up to `n`.
fn full_sample_places(times: &Vec<u64>, n: usize) -> (r: Vec<usize>)
    requires
        in_order(times@),
    ensures
        r@ == full_sample_of(times@, n as nat),
{
    let len: usize = times.len();
    let kept = sample_places(times, n);
    proof {
        assert(times@.len() == len);
        lemma_sample_upto(times@, n as nat, len as int);
    }
    let room: usize = n - kept.len();
    let mut out: Vec<usize> = Vec::new();
    let mut j: usize = 0;
    let mut i: usize = 0;
    while i < len
        invariant
            i <= len == times@.len(),
            in_order(times@),
            kept@ == sample_of(times@, n as nat),
            room == n - kept@.len(),
            j == sample_upto(times@, n as nat, i as int).len(),
            j <= i,
            out@ == full_sample_upto(times@, n as nat, i as int),
        decreases len - i,
    {
        proof {
            lemma_sample_upto(times@, n as nat, i + 1);
            lemma_sample_prefix(times@, n as nat, i as int, len as int);
            lemma_sample_prefix(times@, n as nat, i + 1, len as int);
            let next = sample_upto(times@, n as nat, i + 1);
            if in_sample(times@, n as nat, i as int) {
                assert(kept@.take(next.len() as int)[j as int] == i);
            } else if j < kept@.len() {
                assert(kept@[j as int] >= i + 1);
            }
        }
        if j < kept.len() && kept[j] == i {
            out.push(i);
            j = j + 1;
        } else if i - j < room {
            out.push(i);
        }
        i = i + 1;
    }
    out
}

/// Collects the times of rows.
fn collect_times(rows: &Vec<LogRow>) -> (r: Vec<u64>)
    ensures
        r@ == times_of(rows@),
{
    let mut out: Vec<u64> = Vec::new();
    let mut i: usize = 0;
    while i < rows.len()
        invariant
            i <= rows@.len(),
            out@.len() == i,
            forall|j: int| 0 <= j < i ==> #[trigger] out@[j] == rows@[j].t,
        decreases rows@.len() - i,
    {
        out.push(rows[i].t);
        i = i + 1;
    }
    assert(out@ =~= times_of(rows@));
    out
}

/// Samples rows that are in order of time down to at most `n`, spread evenly over
/// time rather than over the rows, so that bursts do not dominate.
pub fn sample_even_over_time(rows: Vec<LogRow>, n: usize) -> (r: Vec<LogRow>)
    requires
        in_order(times_of(rows@)),
    ensures
        r@ == picked(rows@, sample_of(times_of(rows@), n as nat)),
        r@.len() <= n,
{
    let times = collect_times(&rows);
    let places = sample_places(&times, n);
    let len: usize = times.len();
    proof {
        assert(times@.len() == len);
        lemma_sample_upto(times@, n as nat, times@.len() as int);
    }
    take_rows(rows, &places)
}

/// The score of a row: the whole part of its priority cell's number, or the least
/// one where there is none.
pub open spec fn score_of(cells: Map<ChannelId, CellView>, by: ChannelId) -> i64 {
    if cells.contains_key(by) && cells[by].raw is Some {
        int_of_double(cells[by].raw->0) as i64
    } else {
        i64::MIN
    }
}

/// The scores of rows.
pub open spec fn scores_of(rows: Seq<LogRow>, by: ChannelId) -> Seq<i64> {
    rows.map_values(|r: LogRow| score_of(r.cell_views(), by))
}

/// How many scores are above `s`.
pub open spec fn above(scores: Seq<i64>, s: int) -> nat
    decreases scores.len(),
{
    if scores.len() == 0 {
        0
    } else {
        above(scores.drop_last(), s) + if scores.last() > s {
            1nat
        } else {
            0nat
        }
    }
}

/// The places of the score `s`.
pub open spec fn tier(scores: Seq<i64>, s: int) -> Seq<usize>
    decreases scores.len(),
{
    if scores.len() == 0 {
        Seq::empty()
    } else if scores.last() == s {
        tier(scores.drop_last(), s).push((scores.len() - 1) as usize)
    } else {
        tier(scores.drop_last(), s)
    }
}

/// The places of the score `s` that a sample of `n` over time keeps, filled up to `n`.
pub open spec fn tier_sample(times: Seq<u64>, scores: Seq<i64>, s: int, n: nat) -> Seq<usize> {
    let places = tier(scores, s);
    full_sample_of(places.map_values(|i: usize| times[i as int]), n).map_values(
        |k: usize| places[k as int],
    )
}

/// Whether truncation to `max` keeps the row at `i`: its whole tier does where it
/// fits beneath the higher ones; of the first tier that does not, a sample over time
/// fills the rest exactly; the others go.
pub open spec fn survives(times: Seq<u64>, scores: Seq<i64>, max: nat, i: int) -> bool {
    let s = scores[i] as int;
    let room = max - above(scores, s);
    if tier(scores, s).len() <= room {
        true
    } else {
        room > 0 && tier_sample(times, scores, s, room as nat).contains(i as usize)
    }
}

/// Whether the row at `i` is shown before that at `j`: by time, then from high to
/// low score, then by place.
pub open spec fn shown_before(times: Seq<u64>, scores: Seq<i64>, i: usize, j: usize) -> bool {
    let (ti, tj) = (times[i as int], times[j as int]);
    let (si, sj) = (scores[i as int], scores[j as int]);
    ti < tj || (ti == tj && (si > sj || (si == sj && i < j)))
}

/// Whether each of the places is shown before the next ones.
pub open spec fn display_order(times: Seq<u64>, scores: Seq<i64>, p: Seq<usize>) -> bool {
    forall|a: int, b: int|
        0 <= a < b < p.len() ==> shown_before(times, scores, #[trigger] p[a], #[trigger] p[b])
}

/// Whether these are the places that truncation shows, in order.
pub open spec fn is_truncation(
    times: Seq<u64>,
    scores: Seq<i64>,
    max: nat,
    p: Seq<usize>,
) -> bool {
    &&& display_order(times, scores, p)
    &&& forall|i: usize| #[trigger]
        p.contains(i) <==> i < scores.len() && survives(times, scores, max, i as int)
}

proof fn lemma_above(scores: Seq<i64>, s: int)
    ensures
        above(scores, s - 1) == above(scores, s) + tier(scores, s).len(),
    decreases scores.len(),
{
    if scores.len() > 0 {
        lemma_above(scores.drop_last(), s);
    }
}

proof fn lemma_above_order(scores: Seq<i64>, a: int, b: int)
    requires
        a <= b,
    ensures
        above(scores, a) >= above(scores, b),
        (forall|i: int| 0 <= i < scores.len() ==> !(a < #[trigger] scores[i] <= b)) ==> above(
            scores,
            a,
        ) == above(scores, b),
        above(scores, b) <= scores.len(),
    decreases scores.len(),
{
    if scores.len() > 0 {
        lemma_above_order(scores.drop_last(), a, b);
        assert(scores[scores.len() - 1] == scores.last());
        assert(forall|i: int|
            0 <= i < scores.len() - 1 ==> scores.drop_last()[i] == #[trigger] scores[i]);
    }
}

proof fn lemma_tier(scores: Seq<i64>, s: int)
    requires
        scores.len() <= usize::MAX,
    ensures
        forall|k: int|
            0 <= k < tier(scores, s).len() ==> (#[trigger] tier(scores, s)[k]) < scores.len()
                && scores[tier(scores, s)[k] as int] == s,
        forall|i: usize| i < scores.len() && scores[i as int] == s ==> #[trigger] tier(
            scores,
            s,
        ).contains(i),
        forall|a: int, b: int|
            0 <= a < b < tier(scores, s).len() ==> #[trigger] tier(scores, s)[a] < #[trigger] tier(
                scores,
                s,
            )[b],
    decreases scores.len(),
{
    if scores.len() > 0 {
        let head = scores.drop_last();
        lemma_tier(head, s);
        let whole = tier(scores, s);
        assert forall|k: int| 0 <= k < whole.len() implies (#[trigger] whole[k]) < scores.len()
            && scores[whole[k] as int] == s by {
            if k < tier(head, s).len() {
                assert(whole[k] == tier(head, s)[k]);
                assert(scores[whole[k] as int] == head[whole[k] as int]);
            }
        }
        assert forall|i: usize| i < scores.len() && scores[i as int] == s implies #[trigger] whole.contains(
            i,
        ) by {
            if i < head.len() {
                assert(head[i as int] == s);
                assert(tier(head, s).contains(i));
                let k = choose|k: int| 0 <= k < tier(head, s).len() && tier(head, s)[k] == i;
                assert(whole[k] == i);
            } else {
                assert(whole[whole.len() - 1] == i);
            }
        }
        assert forall|a: int, b: int| 0 <= a < b < whole.len() implies #[trigger] whole[a]
            < #[trigger] whole[b] by {
            if b < tier(head, s).len() {
                assert(whole[a] == tier(head, s)[a] && whole[b] == tier(head, s)[b]);
            } else {
                assert(whole[a] == tier(head, s)[a]);
            }
        }
    }
}

/// How many of the marks are set.
spec fn marked(keep: Seq<bool>) -> nat
    decreases keep.len(),
{
    if keep.len() == 0 {
        0
    } else {
        marked(keep.drop_last()) + if keep.last() {
            1nat
        } else {
            0nat
        }
    }
}

proof fn lemma_mark(keep: Seq<bool>, i: int)
    requires
        0 <= i < keep.len(),
        !keep[i],
    ensures
        marked(keep.update(i, true)) == marked(keep) + 1,
    decreases keep.len(),
{
    let next = keep.update(i, true);
    if i == keep.len() - 1 {
        assert(next.drop_last() =~= keep.drop_last());
    } else {
        assert(next.drop_last() =~= keep.drop_last().update(i, true));
        lemma_mark(keep.drop_last(), i);
    }
}

proof fn lemma_none_marked(keep: Seq<bool>)
    requires
        forall|i: int| 0 <= i < keep.len() ==> !#[trigger] keep[i],
    ensures
        marked(keep) == 0,
    decreases keep.len(),
{
    if keep.len() > 0 {
        lemma_none_marked(keep.drop_last());
    }
}

/// Sets the marks at places, all of them different and not set before.
fn mark_all(keep: &mut Vec<bool>, places: &Vec<usize>)
    requires
        places@.no_duplicates(),
        forall|k: int|
            0 <= k < places@.len() ==> (#[trigger] places@[k]) < old(keep)@.len() && !old(
                keep,
            )@[places@[k] as int],
    ensures
        final(keep)@.len() == old(keep)@.len(),
        forall|i: int|
            0 <= i < old(keep)@.len() ==> #[trigger] final(keep)@[i] == (old(keep)@[i]
                || places@.contains(i as usize)),
        marked(final(keep)@) == marked(old(keep)@) + places@.len(),
{
    let ghost start = keep@;
    let len: usize = keep.len();
    let mut k: usize = 0;
    assert(places@.take(0) =~= Seq::empty());
    while k < places.len()
        invariant
            k <= places@.len(),
            places@.no_duplicates(),
            keep@.len() == start.len() == len,
            forall|k: int|
                0 <= k < places@.len() ==> (#[trigger] places@[k]) < len
                    && !start[places@[k] as int],
            forall|i: int|
                0 <= i < len ==> #[trigger] keep@[i] == (start[i] || places@.take(
                    k as int,
                ).contains(i as usize)),
            marked(keep@) == marked(start) + k,
        decreases places@.len() - k,
    {
        let at: usize = places[k];
        let ghost done = places@.take(k as int);
        let ghost more = places@.take(k + 1);
        proof {
            assert(more =~= done.push(at));
            assert(!done.contains(at)) by {
                if done.contains(at) {
                    let j = choose|j: int| 0 <= j < done.len() && done[j] == at;
                    assert(places@[j] == places@[k as int]);
                }
            }
            assert forall|x: usize| #[trigger] more.contains(x) <==> done.contains(x) || x
                == at by {
                if done.contains(x) {
                    let j = choose|j: int| 0 <= j < done.len() && done[j] == x;
                    assert(more[j] == x);
                }
                assert(more[k as int] == at);
                if more.contains(x) && x != at {
                    let j = choose|j: int| 0 <= j < more.len() && more[j] == x;
                    assert(done[j] == x);
                }
            }
            assert(keep@[at as int] == (start[at as int] || done.contains(at as int as usize)));
            lemma_mark(keep@, at as int);
        }
        keep.set(at, true);
        k = k + 1;
    }
    assert(places@.take(places@.len() as int) =~= places@);
}

/// The places of a score.
fn tier_places(scores: &Vec<i64>, s: i64) -> (r: Vec<usize>)
    ensures
        r@ == tier(scores@, s as int),
{
    let mut out: Vec<usize> = Vec::new();
    let mut i: usize = 0;
    while i < scores.len()
        invariant
            i <= scores@.len(),
            out@ == tier(scores@.take(i as int), s as int),
        decreases scores@.len() - i,
    {
        assert(scores@.take(i + 1).drop_last() =~= scores@.take(i as int));
        if scores[i] == s {
            out.push(i);
        }
        i = i + 1;
    }
    assert(scores@.take(scores@.len() as int) =~= scores@);
    out
}

/// The highest score that is below `cut`, if there is one.
fn next_score(scores: &Vec<i64>, cut: i128) -> (r: Option<i64>)
    ensures
        match r {
            Some(s) => s < cut && scores@.contains(s) && forall|i: int|
                0 <= i < scores@.len() ==> !(s < #[trigger] scores@[i] < cut),
            None => forall|i: int| 0 <= i < scores@.len() ==> #[trigger] scores@[i] >= cut,
        },
{
    let mut best: Option<i64> = None;
    let mut i: usize = 0;
    while i < scores.len()
        invariant
            i <= scores@.len(),
            match best {
                Some(s) => s < cut && scores@.contains(s) && forall|j: int|
                    0 <= j < i ==> !(s < #[trigger] scores@[j] < cut),
                None => forall|j: int| 0 <= j < i ==> #[trigger] scores@[j] >= cut,
            },
        decreases scores@.len() - i,
    {
        let s: i64 = scores[i];
        if (s as i128) < cut {
            match best {
                Some(b) => {
                    if s > b {
                        best = Some(s);
                    }
                },
                None => {
                    best = Some(s);
                },
            }
        }
        i = i + 1;
    }
    best
}

/// The places of a score that a sample of `n` over time keeps, filled up to `n`.
fn sampled_tier(times: &Vec<u64>, scores: &Vec<i64>, places: &Vec<usize>, s: i64, n: usize) -> (r:
    Vec<usize>)
    requires
        in_order(times@),
        times@.len() == scores@.len(),
        places@ == tier(scores@, s as int),
        n <= places@.len(),
    ensures
        r@ == tier_sample(times@, scores@, s as int, n as nat),
        r@.len() == n,
        r@.no_duplicates(),
        forall|k: int| 0 <= k < r@.len() ==> places@.contains(#[trigger] r@[k]),
{
    let len: usize = scores.len();
    proof {
        assert(scores@.len() == len);
        lemma_tier(scores@, s as int);
    }
    let mut at: Vec<u64> = Vec::new();
    let mut i: usize = 0;
    while i < places.len()
        invariant
            i <= places@.len(),
            times@.len() == scores@.len(),
            forall|k: int| 0 <= k < places@.len() ==> (#[trigger] places@[k]) < scores@.len(),
            at@.len() == i,
            forall|k: int| 0 <= k < i ==> #[trigger] at@[k] == times@[places@[k] as int],
        decreases places@.len() - i,
    {
        at.push(times[places[i]]);
        i = i + 1;
    }
    assert(at@ =~= places@.map_values(|i: usize| times@[i as int]));
    assert(in_order(at@)) by {
        assert forall|i: int, j: int| 0 <= i <= j < at@.len() implies #[trigger] at@[i]
            <= #[trigger] at@[j] by {
            if i < j {
                assert(places@[i] < places@[j]);
            }
            assert(times@[places@[i] as int] <= times@[places@[j] as int]);
        }
    }
    let kept = full_sample_places(&at, n);
    let n_at: usize = at.len();
    proof {
        assert(at@.len() == n_at);
        lemma_full_sample_upto(at@, n as nat, at@.len() as int);
        law_full_sample_is_full(at@, n as nat);
    }
    let mut out: Vec<usize> = Vec::new();
    let mut k: usize = 0;
    while k < kept.len()
        invariant
            k <= kept@.len(),
            forall|j: int| 0 <= j < kept@.len() ==> (#[trigger] kept@[j]) < places@.len(),
            out@.len() == k,
            forall|j: int| 0 <= j < k ==> #[trigger] out@[j] == places@[kept@[j] as int],
        decreases kept@.len() - k,
    {
        out.push(places[kept[k]]);
        k = k + 1;
    }
    proof {
        assert(out@ =~= tier_sample(times@, scores@, s as int, n as nat));
        assert forall|a: int, b: int| 0 <= a < b < out@.len() implies out@[a] != out@[b] by {
            assert(kept@[a] < kept@[b]);
            assert(places@[kept@[a] as int] < places@[kept@[b] as int]);
        }
    }
    out
}

/// Marks the rows that survive truncation to `max`.
fn mark_survivors(times: &Vec<u64>, scores: &Vec<i64>, max: usize) -> (r: Vec<bool>)
    requires
        in_order(times@),
        times@.len() == scores@.len(),
    ensures
        r@.len() == scores@.len(),
        forall|i: int|
            0 <= i < scores@.len() ==> #[trigger] r@[i] == survives(
                times@,
                scores@,
                max as nat,
                i,
            ),
        marked(r@) <= max,
        scores@.len() > max ==> marked(r@) == max,
{
    let len: usize = scores.len();
    let mut keep: Vec<bool> = Vec::new();
    let mut i: usize = 0;
    while i < len
        invariant
            i <= len,
            keep@.len() == i,
            forall|j: int| 0 <= j < i ==> !#[trigger] keep@[j],
        decreases len - i,
    {
        keep.push(false);
        i = i + 1;
    }
    let mut cut: i128 = 0x8000_0000_0000_0000;
    let mut taken: usize = 0;
    let mut done = false;
    proof {
        lemma_none_marked(keep@);
        lemma_above_order(scores@, cut - 1, i64::MAX as int);
        assert(above(scores@, cut - 1) == 0) by {
            lemma_none_above(scores@, cut - 1);
        }
    }
    while taken < max && !done
        invariant
            in_order(times@),
            times@.len() == scores@.len() == keep@.len() == len,
            i64::MIN <= cut <= i64::MAX + 1,
            forall|i: int|
                0 <= i < len ==> #[trigger] keep@[i] == (scores@[i] >= cut && survives(
                    times@,
                    scores@,
                    max as nat,
                    i,
                )),
            marked(keep@) <= max,
            !done ==> taken <= max && taken == above(scores@, cut - 1) && marked(keep@) == taken,
            done ==> ((forall|i: int| 0 <= i < len ==> #[trigger] scores@[i] >= cut)
                && marked(keep@) == above(scores@, cut - 1)) || (above(scores@, cut - 1) >= max
                && marked(keep@) == max),
        decreases (if done {
            0int
        } else {
            1int
        }), cut - i64::MIN,
    {
        match next_score(scores, cut) {
            None => {
                done = true;
            },
            Some(s) => {
                let places = tier_places(scores, s);
                let ghost before = keep@;
                proof {
                    lemma_tier(scores@, s as int);
                    lemma_above(scores@, s as int);
                    assert(forall|i: int|
                        0 <= i < len ==> !(s < #[trigger] scores@[i] <= cut - 1));
                    lemma_above_order(scores@, s as int, cut - 1);
                    lemma_above_order(scores@, s - 1, s as int);
                    assert(above(scores@, s as int) == taken);
                }
                let room: usize = max - taken;
                if places.len() <= room {
                    mark_all(&mut keep, &places);
                    proof {
                        assert forall|i: int| 0 <= i < len implies #[trigger] keep@[i] == (
                        scores@[i] >= s && survives(times@, scores@, max as nat, i)) by {
                            assert(keep@[i] == (before[i] || places@.contains(i as usize)));
                            assert(places@.contains(i as usize) <==> scores@[i] == s);
                        }
                    }
                    taken = taken + places.len();
                    cut = s as i128;
                } else {
                    let some = sampled_tier(times, scores, &places, s, room);
                    assert forall|k: int| 0 <= k < some@.len() implies (#[trigger] some@[k]) < len
                        && !keep@[some@[k] as int] by {
                        assert(places@.contains(some@[k]));
                    }
                    mark_all(&mut keep, &some);
                    proof {
                        assert forall|i: int| 0 <= i < len implies #[trigger] keep@[i] == (
                        scores@[i] >= s && survives(times@, scores@, max as nat, i)) by {
                            assert(keep@[i] == (before[i] || some@.contains(i as usize)));
                            if some@.contains(i as usize) {
                                let k = choose|k: int|
                                    0 <= k < some@.len() && some@[k] == i as usize;
                                assert(places@.contains(some@[k]));
                                assert(scores@[i] == s);
                            }
                        }
                    }
                    cut = s as i128;
                    done = true;
                }
            },
        }
    }
    proof {
        assert forall|i: int| 0 <= i < len implies #[trigger] keep@[i] == survives(
            times@,
            scores@,
            max as nat,
            i,
        ) by {
            if scores@[i] < cut {
                lemma_above_order(scores@, scores@[i] as int, cut - 1);
                lemma_tier(scores@, scores@[i] as int);
                assert(tier(scores@, scores@[i] as int).contains(i as usize));
            }
        }
        if forall|i: int| 0 <= i < len ==> #[trigger] scores@[i] >= cut {
            lemma_all_above(scores@, cut - 1);
        }
    }
    keep
}

proof fn lemma_none_above(scores: Seq<i64>, s: int)
    requires
        s >= i64::MAX,
    ensures
        above(scores, s) == 0,
    decreases scores.len(),
{
    if scores.len() > 0 {
        lemma_none_above(scores.drop_last(), s);
    }
}

proof fn lemma_all_above(scores: Seq<i64>, s: int)
    requires
        forall|i: int| 0 <= i < scores.len() ==> #[trigger] scores[i] > s,
    ensures
        above(scores, s) == scores.len(),
    decreases scores.len(),
{
    if scores.len() > 0 {
        assert(scores[scores.len() - 1] == scores.last());
        assert(forall|i: int|
            0 <= i < scores.len() - 1 ==> scores.drop_last()[i] == #[trigger] scores[i]);
        lemma_all_above(scores.drop_last(), s);
    }
}

/// Puts a place among others in the order in which rows are shown.
fn insert_place(times: &Vec<u64>, scores: &Vec<i64>, p: &mut Vec<usize>, i: usize)
    requires
        times@.len() == scores@.len(),
        i < scores@.len(),
        forall|k: int| 0 <= k < old(p)@.len() ==> (#[trigger] old(p)@[k]) < i,
        display_order(times@, scores@, old(p)@),
    ensures
        final(p)@.len() == old(p)@.len() + 1,
        display_order(times@, scores@, final(p)@),
        forall|x: usize| #[trigger] final(p)@.contains(x) <==> old(p)@.contains(x) || x == i,
{
    let ghost start = p@;
    let mut at: usize = p.len();
    while at > 0 && (times[p[at - 1]] > times[i] || (times[p[at - 1]] == times[i]
        && scores[p[at - 1]] < scores[i]))
        invariant
            at <= p@.len(),
            p@ == start,
            times@.len() == scores@.len(),
            i < scores@.len(),
            forall|k: int| 0 <= k < start.len() ==> (#[trigger] start[k]) < i,
            forall|k: int|
                at <= k < start.len() ==> shown_before(times@, scores@, i, #[trigger] start[k]),
        decreases at,
    {
        at = at - 1;
    }
    p.insert(at, i);
    proof {
        let q = p@;
        assert forall|x: usize| #[trigger] q.contains(x) <==> start.contains(x) || x == i by {
            if start.contains(x) {
                let k = choose|k: int| 0 <= k < start.len() && start[k] == x;
                if k < at {
                    assert(q[k] == x);
                } else {
                    assert(q[k + 1] == x);
                }
            }
            assert(q[at as int] == i);
            if q.contains(x) && x != i {
                let k = choose|k: int| 0 <= k < q.len() && q[k] == x;
                if k < at {
                    assert(start[k] == x);
                } else {
                    assert(start[k - 1] == x);
                }
            }
        }
        assert forall|a: int, b: int| 0 <= a < b < q.len() implies shown_before(
            times@,
            scores@,
            #[trigger] q[a],
            #[trigger] q[b],
        ) by {
            let ja = if a < at { a } else { a - 1 };
            let jb = if b < at { b } else { b - 1 };
            if a != at && b != at {
                assert(q[a] == start[ja] && q[b] == start[jb]);
            } else if a == at {
                assert(q[b] == start[jb]);
            } else {
                assert(q[a] == start[ja]);
                assert(start[at - 1] < i);
                if a < at - 1 {
                    assert(shown_before(times@, scores@, start[a], start[at - 1]));
                }
            }
        }
    }
}

/// The marked places in the order in which rows are shown.
fn ordered_places(times: &Vec<u64>, scores: &Vec<i64>, keep: &Vec<bool>) -> (r: Vec<usize>)
    requires
        times@.len() == scores@.len() == keep@.len(),
    ensures
        display_order(times@, scores@, r@),
        forall|i: usize| #[trigger] r@.contains(i) <==> i < keep@.len() && keep@[i as int],
        r@.len() == marked(keep@),
{
    let mut out: Vec<usize> = Vec::new();
    let mut i: usize = 0;
    assert(keep@.take(0) =~= Seq::empty());
    while i < keep.len()
        invariant
            i <= keep@.len(),
            times@.len() == scores@.len() == keep@.len(),
            display_order(times@, scores@, out@),
            forall|x: usize| #[trigger] out@.contains(x) <==> x < i && keep@[x as int],
            out@.len() == marked(keep@.take(i as int)),
        decreases keep@.len() - i,
    {
        assert(keep@.take(i + 1).drop_last() =~= keep@.take(i as int));
        if keep[i] {
            assert forall|k: int| 0 <= k < out@.len() implies (#[trigger] out@[k]) < i by {
                assert(out@.contains(out@[k]));
            }
            insert_place(times, scores, &mut out, i);
        }
        i = i + 1;
    }
    assert(keep@.take(keep@.len() as int) =~= keep@);
    out
}

/// Collects the scores of rows.
fn collect_scores(rows: &Vec<LogRow>, by: ChannelId) -> (r: Vec<i64>)
    ensures
        r@ == scores_of(rows@, by),
{
    let mut out: Vec<i64> = Vec::new();
    let mut i: usize = 0;
    while i < rows.len()
        invariant
            i <= rows@.len(),
            out@.len() == i,
            forall|j: int| 0 <= j < i ==> #[trigger] out@[j] == score_of(rows@[j].cell_views(), by),
        decreases rows@.len() - i,
    {
        let score: i64 = match rows[i].cells.get(&by) {
            Some(c) => match c.raw {
                Some(n) => i64_of_f64(n),
                None => i64::MIN,
            },
            None => i64::MIN,
        };
        out.push(score);
        i = i + 1;
    }
    assert(out@ =~= scores_of(rows@, by));
    out
}

/// Whether these are the rows that truncation to `max` shows: all where they fit,
/// otherwise those with the highest scores, or a sample over time where there is no
/// score.
pub open spec fn is_cut(
    rows: Seq<LogRow>,
    priority_by: Option<ChannelId>,
    max: nat,
    shown: Seq<LogRow>,
) -> bool {
    if rows.len() <= max {
        shown == rows
    } else {
        match priority_by {
            None => shown == picked(rows, sample_of(times_of(rows), max)),
            Some(by) => exists|p: Seq<usize>|
                #![trigger picked(rows, p)]
                is_truncation(times_of(rows), scores_of(rows, by), max, p) && shown == picked(
                    rows,
                    p,
                ),
        }
    }
}

/// Reduces rows that are in order of time to at most `max_rows`, and tells how many
/// there were. Rows with a higher score, which is the number in the column
/// `priority_by`, are kept first, exactly up to `max_rows`; without such a column the
/// rows are sampled evenly over time.
pub fn truncate_rows(
    rows: Vec<LogRow>,
    priority_by: Option<ChannelId>,
    max_rows: usize,
) -> (r: (Vec<LogRow>, usize))
    requires
        rows@.len() > max_rows ==> in_order(times_of(rows@)),
    ensures
        r.1 == rows@.len(),
        r.0@.len() <= max_rows,
        rows@.len() > max_rows && priority_by is Some ==> r.0@.len() == max_rows,
        is_cut(rows@, priority_by, max_rows as nat, r.0@),
{
    let total: usize = rows.len();
    if total <= max_rows {
        return (rows, total);
    }
    match priority_by {
        None => (sample_even_over_time(rows, max_rows), total),
        Some(by) => {
            let times = collect_times(&rows);
            let scores = collect_scores(&rows, by);
            let keep = mark_survivors(&times, &scores, max_rows);
            let places = ordered_places(&times, &scores, &keep);
            proof {
                assert forall|k: int| 0 <= k < places@.len() implies (#[trigger] places@[k])
                    < rows@.len() by {
                    assert(places@.contains(places@[k]));
                }
                assert forall|a: int, b: int| 0 <= a < b < places@.len() implies places@[a]
                    != places@[b] by {
                    assert(shown_before(times@, scores@, places@[a], places@[b]));
                }
                assert(is_truncation(
                    times_of(rows@),
                    scores_of(rows@, by),
                    max_rows as nat,
                    places@,
                ));
            }
            (take_rows(rows, &places), total)
        },
    }
}

/// Every row that a cut shows is one of the rows.
pub proof fn lemma_cut_within(
    rows: Seq<LogRow>,
    priority_by: Option<ChannelId>,
    max: nat,
    shown: Seq<LogRow>,
    i: int,
)
    requires
        rows.len() <= usize::MAX,
        in_order(times_of(rows)),
        is_cut(rows, priority_by, max, shown),
        0 <= i < shown.len(),
    ensures
        rows.contains(shown[i]),
{
    if rows.len() > max {
        match priority_by {
            None => {
                lemma_sample_upto(times_of(rows), max, rows.len() as int);
                let k = sample_of(times_of(rows), max)[i];
                assert(rows[k as int] == shown[i]);
            },
            Some(by) => {
                let p = choose|p: Seq<usize>|
                    #![trigger picked(rows, p)]
                    is_truncation(times_of(rows), scores_of(rows, by), max, p) && shown == picked(
                        rows,
                        p,
                    );
                assert(p.contains(p[i]));
                assert(rows[p[i] as int] == shown[i]);
            },
        }
    }
}

/// Rows with a higher score are kept first: where a row is shown, so is every row
/// with a higher score.
pub proof fn law_higher_scores_are_kept_first(
    rows: Seq<LogRow>,
    by: ChannelId,
    max: nat,
    shown: Seq<LogRow>,
    k: int,
    j: int,
)
    requires
        rows.len() <= usize::MAX,
        is_cut(rows, Some(by), max, shown),
        0 <= k < shown.len(),
        0 <= j < rows.len(),
        score_of(shown[k].cell_views(), by) < score_of(rows[j].cell_views(), by),
    ensures
        shown.contains(rows[j]),
{
    if rows.len() <= max {
        assert(shown[j] == rows[j]);
    } else {
        let times = times_of(rows);
        let scores = scores_of(rows, by);
        let p = choose|p: Seq<usize>|
            #![trigger picked(rows, p)]
            is_truncation(times, scores, max, p) && shown == picked(rows, p);
        assert(p.contains(p[k]));
        let low = scores[p[k] as int] as int;
        let high = scores[j] as int;
        lemma_tier(scores, low);
        assert(tier(scores, low).contains(p[k]));
        lemma_above(scores, high);
        lemma_above_order(scores, low, high - 1);
        assert(survives(times, scores, max, j));
        assert(p.contains(j as usize));
        let at = choose|at: int| 0 <= at < p.len() && p[at] == j as usize;
        assert(shown[at] == rows[j]);
    }
}

} // verus!
