//! What filters, samples and groups keep.

use vstd::prelude::*;

verus! {

use crate::grouping::{
    ascii_lower, find_back, find_from, fitted_label, group_of, leaf_of, lemma_find_from,
    lowered, occurs_at, rest_of, text_before,
};
use crate::logpanel::{shown_columns, ColumnView};
use crate::logview::{
    above, cuts_to, full_sample_of, full_sample_upto, in_order, in_sample, is_truncation,
    passes, sample_upto, score_of, slice_of, survives, text_matches, tier, tier_sample,
    within_bounds, CellView, ValueView,
};
use crate::num::{double_of_int, double_of_nat, is_nan};
use crate::num_laws::{law_doubles_keep_the_order, law_whole_doubles_cut_back};
use crate::panels::ColumnFilter;
use crate::store::{ChannelId, ChannelInfo};

/// A text filter passes every text that holds its needle, wherever that stands.
pub proof fn law_needle_is_found_anywhere(a: Seq<char>, needle: Seq<char>, b: Seq<char>, case: bool)
    ensures
        text_matches(a + needle + b, needle, case),
{
    let s = a + needle + b;
    if case {
        assert(s.subrange(a.len() as int, (a.len() + needle.len()) as int) =~= needle);
        assert(occurs_at(s, needle, a.len() as int));
    } else {
        let (l, n) = (lowered(s), lowered(needle));
        assert(l.subrange(a.len() as int, (a.len() + n.len()) as int) =~= n);
        assert(occurs_at(l, n, a.len() as int));
    }
}

/// A text filter passes no text that does not hold its needle: what passes is the needle
/// with something before and behind it.
pub proof fn law_what_passes_holds_the_needle(s: Seq<char>, needle: Seq<char>) -> (at: int)
    requires
        text_matches(s, needle, true),
    ensures
        0 <= at <= s.len() - needle.len(),
        s == s.take(at) + needle + s.skip(at + needle.len()),
{
    let at = choose|i: int| occurs_at(s, needle, i);
    assert(s =~= s.take(at) + s.subrange(at, at + needle.len()) + s.skip(at + needle.len()));
    at
}

/// Without regard to case, two texts that differ only in the case of ASCII letters pass
/// alike, and so do two needles; and what passes with regard to case passes without.
pub proof fn law_case_does_not_matter(s: Seq<char>, t: Seq<char>, n: Seq<char>, m: Seq<char>)
    requires
        lowered(s) == lowered(t),
        lowered(n) == lowered(m),
    ensures
        text_matches(s, n, false) == text_matches(t, m, false),
        text_matches(s, n, true) ==> text_matches(s, n, false),
{
    if text_matches(s, n, true) {
        let i = choose|i: int| occurs_at(s, n, i);
        assert(lowered(s).subrange(i, i + n.len()) =~= lowered(n)) by {
            assert(s.subrange(i, i + n.len()) == n);
            assert forall|k: int| 0 <= k < n.len() implies lowered(s)[i + k] == lowered(n)[k] by {
                assert(s.subrange(i, i + n.len())[k] == n[k]);
            }
        }
        assert(occurs_at(lowered(s), lowered(n), i));
    }
}

/// An ASCII capital and its small letter are the same in lower case, and no other
/// character changes.
pub proof fn law_lower_case_of_letters(i: int, c: char)
    ensures
        0 <= i < 26 ==> ascii_lower((65 + i) as char) == (97 + i) as char,
        0 <= i < 26 ==> ascii_lower((97 + i) as char) == (97 + i) as char,
        !('A' <= c && c <= 'Z') ==> ascii_lower(c) == c,
{
}

/// A range filter passes the whole numbers from its lower to its upper bound, both of
/// them included; a bound that is missing holds nothing back.
pub proof fn law_range_holds_both_bounds(n: int, lo: int, hi: int)
    requires
        -0x20_0000_0000_0000 < n < 0x20_0000_0000_0000,
        -0x20_0000_0000_0000 < lo < 0x20_0000_0000_0000,
        -0x20_0000_0000_0000 < hi < 0x20_0000_0000_0000,
    ensures
        ({
            let (x, a, b) = (
                double_of_int(n) as u64,
                double_of_int(lo) as u64,
                double_of_int(hi) as u64,
            );
            &&& within_bounds(x, Some(a), Some(b)) <==> lo <= n <= hi
            &&& within_bounds(x, Some(a), None) <==> lo <= n
            &&& within_bounds(x, None, Some(b)) <==> n <= hi
            &&& within_bounds(x, None, None)
        }),
{
    law_whole_doubles_cut_back(n);
    law_whole_doubles_cut_back(lo);
    law_whole_doubles_cut_back(hi);
    law_doubles_keep_the_order(n, lo);
    law_doubles_keep_the_order(hi, n);
}

/// What is not a number lies within no bounds, but where there are none.
pub proof fn law_nan_is_in_no_range(x: u64, min: Option<u64>, max: Option<u64>)
    requires
        is_nan(x),
    ensures
        within_bounds(x, min, max) <==> min is None && max is None,
{
}

/// A set of states passes exactly its members.
pub proof fn law_set_passes_its_members(allowed: std::collections::BTreeSet<u32>, v: u32)
    ensures
        (ColumnFilter::EnumSet { allowed }).admits(
            Some(ValueView::Num(double_of_nat(v as nat) as u64)),
        ) <==> allowed@.contains(v),
{
    law_whole_doubles_cut_back(v as int);
    let n = double_of_nat(v as nat) as u64;
    assert(cuts_to(n, v));
    let f = ColumnFilter::EnumSet { allowed };
    if f.admits(Some(ValueView::Num(n))) {
        assert(exists|x: u32| cuts_to(n, x) && #[trigger] allowed@.contains(x));
        let x = choose|x: u32| cuts_to(n, x) && #[trigger] allowed@.contains(x);
        assert(x == v);
        assert(allowed@.contains(v));
    }
    if allowed@.contains(v) {
        assert(cuts_to(n, v) && allowed@.contains(v));
        assert(f->allowed == allowed);
        assert(f->allowed@.contains(v));
        assert(f.admits(Some(ValueView::Num(n))));
    }
}

/// A filter that is not active passes every row; an active one passes no row that has
/// nothing in its column.
pub proof fn law_only_active_filters_hold_back(
    cells: Map<ChannelId, CellView>,
    ch: ChannelId,
    f: ColumnFilter,
)
    ensures
        !f.active() ==> passes(cells, ch, f),
        f.active() && !cells.contains_key(ch) ==> !passes(cells, ch, f),
{
}

/// The score of a row is the whole number in its column, and the least where there is
/// none.
pub proof fn law_score_is_the_number(cells: Map<ChannelId, CellView>, by: ChannelId, n: int)
    requires
        -0x20_0000_0000_0000 < n < 0x20_0000_0000_0000,
    ensures
        cells.contains_key(by) && cells[by].raw == Some(double_of_int(n) as u64) ==> score_of(
            cells,
            by,
        ) == n,
        !cells.contains_key(by) ==> score_of(cells, by) == i64::MIN,
        cells.contains_key(by) && cells[by].raw is None ==> score_of(cells, by) == i64::MIN,
{
    law_whole_doubles_cut_back(n);
}

/// Truncated rows are shown in order of time, and at one time the higher score first.
pub proof fn law_truncated_rows_stay_in_time_order(
    times: Seq<u64>,
    scores: Seq<i64>,
    max: nat,
    p: Seq<usize>,
    a: int,
    b: int,
)
    requires
        is_truncation(times, scores, max, p),
        0 <= a < b < p.len(),
    ensures
        times[p[a] as int] <= times[p[b] as int],
        times[p[a] as int] == times[p[b] as int] ==> scores[p[a] as int] >= scores[p[b] as int],
        p[a] != p[b],
{
    assert(crate::logview::shown_before(times, scores, p[a], p[b]));
}

proof fn lemma_slice_order(times: Seq<u64>, n: nat, i: int, j: int)
    requires
        in_order(times),
        n > 0,
        0 <= i <= j < times.len(),
    ensures
        0 <= slice_of(times, n, i) <= slice_of(times, n, j) < n,
        slice_of(times, n, i) == slice_of(times, n, j) ==> (times[j] - times[i]) * n
            < times[times.len() - 1] - times[0] + 1,
{
    let last = times.len() - 1;
    let d = times[last] - times[0] + 1;
    assert(times[0] <= times[i] && times[i] <= times[j] && times[j] <= times[last]);
    let (x, y) = ((times[i] - times[0]) * n, (times[j] - times[0]) * n);
    assert(0 <= x <= y < d * n) by (nonlinear_arith)
        requires
            x == (times[i] - times[0]) * n,
            y == (times[j] - times[0]) * n,
            0 <= times[i] - times[0] <= times[j] - times[0] < d,
            n > 0,
    ;
    assert(d * n == n * d) by (nonlinear_arith);
    vstd::arithmetic::div_mod::lemma_div_is_ordered(x, y, d);
    vstd::arithmetic::div_mod::lemma_fundamental_div_mod(x, d);
    vstd::arithmetic::div_mod::lemma_fundamental_div_mod(y, d);
    assert(0 <= x / d && y / d < n) by (nonlinear_arith)
        requires
            0 <= x,
            y < n * d,
            d > 0,
    ;
    assert(y - x == (times[j] - times[i]) * n) by (nonlinear_arith)
        requires
            x == (times[i] - times[0]) * n,
            y == (times[j] - times[0]) * n,
    ;
}

/// A sample over time leaves no gap: where rows are dropped and the times differ, each
/// row has a kept one at or before it that is less than an `n`th of the whole time away;
/// and no two kept ones share such a slice of time.
pub proof fn law_sample_leaves_no_gap(times: Seq<u64>, n: nat, i: int) -> (k: int)
    requires
        in_order(times),
        0 < n < times.len(),
        times[0] != times[times.len() - 1],
        0 <= i < times.len(),
    ensures
        0 <= k <= i,
        in_sample(times, n, k),
        (times[i] - times[k]) * n < times[times.len() - 1] - times[0] + 1,
        slice_of(times, n, k) == slice_of(times, n, i),
        forall|j: int|
            k < j <= i ==> #[trigger] slice_of(times, n, j) == slice_of(times, n, k) && !in_sample(
                times,
                n,
                j,
            ),
    decreases i,
{
    if in_sample(times, n, i) {
        lemma_slice_order(times, n, i, i);
        i
    } else {
        let k = law_sample_leaves_no_gap(times, n, i - 1);
        lemma_slice_order(times, n, k, i);
        assert forall|j: int| k < j <= i implies #[trigger] slice_of(times, n, j) == slice_of(
            times,
            n,
            k,
        ) && !in_sample(times, n, j) by {}
        k
    }
}

/// The places that a sample keeps, in their order, are those that are in it.
pub proof fn law_sample_lists_what_it_keeps(times: Seq<u64>, n: nat, k: int)
    requires
        0 <= k <= times.len() <= usize::MAX,
    ensures
        forall|i: int|
            0 <= i < k ==> (sample_upto(times, n, k).contains(i as usize) <==> #[trigger] in_sample(
                times,
                n,
                i,
            )),
        forall|a: int| 0 <= a < sample_upto(times, n, k).len() ==> #[trigger] sample_upto(
            times,
            n,
            k,
        )[a] < k,
        forall|a: int, b: int|
            0 <= a < b < sample_upto(times, n, k).len() ==> #[trigger] sample_upto(times, n, k)[a]
                < #[trigger] sample_upto(times, n, k)[b],
    decreases k,
{
    if k > 0 {
        law_sample_lists_what_it_keeps(times, n, k - 1);
        let before = sample_upto(times, n, k - 1);
        let all = sample_upto(times, n, k);
        assert forall|i: int| 0 <= i < k implies (all.contains(i as usize) <==> #[trigger] in_sample(
            times,
            n,
            i,
        )) by {
            if in_sample(times, n, k - 1) {
                assert(all.last() == (k - 1) as usize);
                assert(all[all.len() - 1] == (k - 1) as usize);
            }
            if i < k - 1 {
                if before.contains(i as usize) {
                    let a = choose|a: int| 0 <= a < before.len() && before[a] == i as usize;
                    assert(all[a] == i as usize);
                }
                if all.contains(i as usize) {
                    let a = choose|a: int| 0 <= a < all.len() && all[a] == i as usize;
                    assert(a < before.len());
                    assert(before[a] == i as usize);
                }
            } else {
                if all.contains(i as usize) && !in_sample(times, n, i) {
                    let a = choose|a: int| 0 <= a < before.len() && before[a] == i as usize;
                    assert(before[a] < k - 1);
                }
            }
        }
    }
}

/// The shown columns are, in their order, those of the visible places whose channel is
/// known, each under what follows the group in its path.
pub proof fn law_shown_columns_are_the_visible(
    columns: Seq<ChannelId>,
    visible: Seq<usize>,
    by_id: Map<ChannelId, ChannelInfo>,
)
    ensures
        shown_columns(columns, visible, by_id) == visible.filter_map(
            |i: usize|
                if i < columns.len() && by_id.contains_key(columns[i as int]) {
                    Some(
                        ColumnView {
                            id: columns[i as int],
                            label: rest_of(by_id[columns[i as int]].path@),
                            is_text: by_id[columns[i as int]].kind is Text,
                        },
                    )
                } else {
                    None
                },
        ),
    decreases visible.len(),
{
    let f = |i: usize|
        if i < columns.len() && by_id.contains_key(columns[i as int]) {
            Some(
                ColumnView {
                    id: columns[i as int],
                    label: rest_of(by_id[columns[i as int]].path@),
                    is_text: by_id[columns[i as int]].kind is Text,
                },
            )
        } else {
            None
        };
    if visible.len() > 0 {
        law_shown_columns_are_the_visible(columns, visible.drop_last(), by_id);
    }
    assert(shown_columns(columns, visible, by_id) =~= visible.filter_map(f));
}

/// The group of a path ends at its first dot, and the rest begins behind it.
pub proof fn law_group_ends_at_the_first_dot(group: Seq<char>, rest: Seq<char>)
    requires
        !group.contains('.'),
    ensures
        group_of(group + seq!['.'] + rest) == group,
        rest_of(group + seq!['.'] + rest) == rest,
        group_of(group) == group,
        rest_of(group) == group,
{
    let path = group + seq!['.'] + rest;
    let n = group.len() as int;
    lemma_find_from(path, '.', 0);
    let i = find_from(path, '.', 0);
    assert(path[n] == '.');
    assert(i == n) by {
        if i < n {
            assert(path[i] == group[i]);
            assert(group.contains(group[i]));
        }
    }
    assert(group_of(path) =~= group);
    assert(rest_of(path) =~= rest);
    lemma_find_from(group, '.', 0);
    let k = find_from(group, '.', 0);
    if k < group.len() {
        assert(group.contains(group[k]));
    }
    assert(group_of(group) =~= group);
}

proof fn lemma_find_back_at(s: Seq<char>, c: char, n: int)
    requires
        0 <= n <= s.len(),
    ensures
        -1 <= find_back(s, c, n) < n,
        find_back(s, c, n) >= 0 ==> s[find_back(s, c, n)] == c,
        forall|j: int| find_back(s, c, n) < j < n ==> #[trigger] s[j] != c,
    decreases n,
{
    if n > 0 && s[n - 1] != c {
        lemma_find_back_at(s, c, n - 1);
    }
}

/// The short name of a path is what stands behind its last dot.
pub proof fn law_leaf_begins_after_the_last_dot(head: Seq<char>, leaf: Seq<char>)
    requires
        !leaf.contains('.'),
    ensures
        leaf_of(head + seq!['.'] + leaf) == leaf,
        leaf_of(leaf) == leaf,
{
    let path = head + seq!['.'] + leaf;
    let n = head.len() as int;
    lemma_find_back_at(path, '.', path.len() as int);
    let i = find_back(path, '.', path.len() as int);
    assert(path[n] == '.');
    assert(i == n) by {
        if i > n {
            assert(path[i] == leaf[i - n - 1]);
            assert(leaf.contains(leaf[i - n - 1]));
        }
    }
    assert(leaf_of(path) =~= leaf);
    lemma_find_back_at(leaf, '.', leaf.len() as int);
    let k = find_back(leaf, '.', leaf.len() as int);
    if k >= 0 {
        assert(leaf.contains(leaf[k]));
    }
    assert(leaf_of(leaf) =~= leaf);
}

/// A text comes before another where it is the beginning of it, or has the lower
/// character at the first place where they differ.
pub proof fn law_texts_are_ordered_by_characters(
    head: Seq<char>,
    a: Seq<char>,
    b: Seq<char>,
)
    requires
        a.len() == 0 || b.len() == 0 || a[0] != b[0],
    ensures
        text_before(head + a, head + b) <==> b.len() > 0 && (a.len() == 0 || a[0] < b[0]),
    decreases head.len(),
{
    if head.len() == 0 {
        assert(head + a =~= a);
        assert(head + b =~= b);
    } else {
        law_texts_are_ordered_by_characters(head.skip(1), a, b);
        assert((head + a).skip(1) =~= head.skip(1) + a);
        assert((head + b).skip(1) =~= head.skip(1) + b);
    }
}

/// A label that is cut keeps its beginning, fills the room, and ends in an ellipsis; one
/// that fits is not cut.
pub proof fn law_cut_label_keeps_its_beginning(label: Seq<char>, n: nat)
    requires
        n >= 2,
    ensures
        label.len() <= n ==> fitted_label(label, n) == label,
        label.len() > n ==> fitted_label(label, n).len() == n && fitted_label(label, n).last()
            == '\u{2026}' && fitted_label(label, n).drop_last() == label.take(n - 1),
{
    if label.len() > n {
        assert(fitted_label(label, n).drop_last() =~= label.take(n - 1));
    }
}

proof fn lemma_places_upto(times: Seq<u64>, n: nat, k: int)
    requires
        0 <= k <= times.len() <= usize::MAX,
    ensures
        forall|i: int|
            0 <= i < k && in_sample(times, n, i) ==> #[trigger] full_sample_upto(
                times,
                n,
                k,
            ).contains(i as usize),
    decreases k,
{
    if k > 0 {
        lemma_places_upto(times, n, k - 1);
        let before = full_sample_upto(times, n, k - 1);
        let all = full_sample_upto(times, n, k);
        assert forall|i: int| 0 <= i < k && in_sample(times, n, i) implies #[trigger] all.contains(
            i as usize,
        ) by {
            if i == k - 1 {
                assert(all[all.len() - 1] == i as usize);
            } else {
                assert(before.contains(i as usize));
                let a = choose|a: int| 0 <= a < before.len() && before[a] == i as usize;
                assert(all[a] == i as usize);
            }
        }
    }
}

/// A sample that is filled up keeps all that the sample over time keeps.
pub proof fn law_filling_up_takes_nothing_away(times: Seq<u64>, n: nat, i: int)
    requires
        0 <= i < times.len() <= usize::MAX,
        in_sample(times, n, i),
    ensures
        full_sample_of(times, n).contains(i as usize),
{
    lemma_places_upto(times, n, times.len() as int);
    assert(full_sample_upto(times, n, times.len() as int).contains(i as usize));
}

/// A tier lists, in their order, all places that have its score and no others.
pub proof fn law_tier_lists_its_score(scores: Seq<i64>, s: int)
    requires
        scores.len() <= usize::MAX,
    ensures
        forall|i: usize| #[trigger]
            tier(scores, s).contains(i) <==> i < scores.len() && scores[i as int] == s,
        forall|a: int, b: int|
            0 <= a < b < tier(scores, s).len() ==> #[trigger] tier(scores, s)[a] < #[trigger] tier(
                scores,
                s,
            )[b],
    decreases scores.len(),
{
    if scores.len() > 0 {
        let rest = scores.drop_last();
        law_tier_lists_its_score(rest, s);
        let (before, all) = (tier(rest, s), tier(scores, s));
        assert forall|i: usize| #[trigger] all.contains(i) <==> i < scores.len() && scores[i as int]
            == s by {
            if before.contains(i) {
                let a = choose|a: int| 0 <= a < before.len() && before[a] == i;
                assert(all[a] == i);
            }
            if scores.last() == s && i == scores.len() - 1 {
                assert(all[all.len() - 1] == i);
            }
            if all.contains(i) {
                let a = choose|a: int| 0 <= a < all.len() && all[a] == i;
                if a < before.len() {
                    assert(before[a] == i);
                    assert(before.contains(i));
                }
            }
        }
        assert forall|a: int, b: int| 0 <= a < b < all.len() implies #[trigger] all[a]
            < #[trigger] all[b] by {
            assert(before.contains(before[a]));
            if b < before.len() {
                assert(before[a] < before[b]);
            }
        }
    }
}

/// Of the tier that does not fit, what a sample over the times of its own rows keeps is
/// kept: the sample is taken of that tier alone, as large as the room that the higher
/// tiers leave.
pub proof fn law_cut_tier_is_sampled_over_time(
    times: Seq<u64>,
    scores: Seq<i64>,
    max: nat,
    p: Seq<usize>,
    s: int,
    k: int,
)
    requires
        is_truncation(times, scores, max, p),
        times.len() == scores.len() <= usize::MAX,
        above(scores, s) < max,
        0 <= k < tier(scores, s).len(),
        max - above(scores, s) < tier(scores, s).len(),
        in_sample(
            Seq::new(tier(scores, s).len(), |j: int| times[tier(scores, s)[j] as int]),
            (max - above(scores, s)) as nat,
            k,
        ),
    ensures
        p.contains(tier(scores, s)[k]),
{
    law_tier_lists_its_score(scores, s);
    let places = tier(scores, s);
    let room = (max - above(scores, s)) as nat;
    let own = places.map_values(|i: usize| times[i as int]);
    assert(own =~= Seq::new(places.len(), |j: int| times[places[j] as int]));
    lemma_tier_len(scores, s);
    law_filling_up_takes_nothing_away(own, room, k);
    let full = full_sample_of(own, room);
    let a = choose|a: int| 0 <= a < full.len() && full[a] == k as usize;
    let kept = tier_sample(times, scores, s, room);
    assert(kept[a] == places[k]);
    assert(places.contains(places[k]));
    assert(kept.contains(places[k]));
    assert(survives(times, scores, max, places[k] as int));
}

proof fn lemma_tier_len(scores: Seq<i64>, s: int)
    ensures
        tier(scores, s).len() <= scores.len(),
    decreases scores.len(),
{
    if scores.len() > 0 {
        lemma_tier_len(scores.drop_last(), s);
    }
}

/// Above a score are all rows of higher ones: the number above one score is that above
/// the next, together with those that have the next.
pub proof fn law_rows_above_are_the_higher_tiers(scores: Seq<i64>, s: int)
    ensures
        above(scores, s) == above(scores, s + 1) + tier(scores, s + 1).len(),
        above(scores, i64::MAX as int) == 0,
    decreases scores.len(),
{
    if scores.len() > 0 {
        law_rows_above_are_the_higher_tiers(scores.drop_last(), s);
    }
}

/// A filter holds back where it asks for something: a text filter with a needle, a range
/// with at least one bound, and every set.
pub proof fn law_filters_that_ask_hold_back(ch: ChannelId, f: ColumnFilter)
    ensures
        passes(Map::empty(), ch, f) <==> (match f {
            ColumnFilter::Text { needle, .. } => needle@.len() == 0,
            ColumnFilter::Range { min, max } => min is None && max is None,
            ColumnFilter::EnumSet { .. } => false,
        }),
{
}

/// A cell with a number is filtered by the number, one without by its text: the needle is
/// not looked for in a number, and no range holds a text.
pub proof fn law_numbers_are_filtered_as_numbers(
    cells: Map<ChannelId, CellView>,
    ch: ChannelId,
    f: ColumnFilter,
)
    requires
        cells.contains_key(ch),
    ensures
        f matches ColumnFilter::Text { needle, case_sensitive } ==> needle@.len() > 0 ==> (passes(
            cells,
            ch,
            f,
        ) <==> cells[ch].raw is None && text_matches(cells[ch].display, needle@, case_sensitive)),
        f matches ColumnFilter::Range { min, max } ==> min is Some || max is Some ==> (passes(
            cells,
            ch,
            f,
        ) <==> cells[ch].raw is Some && within_bounds(cells[ch].raw->0, min, max)),
{
}

} // verus!
