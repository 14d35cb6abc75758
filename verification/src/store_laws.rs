//! What the queries of a store tell of the samples that went into it.

use vstd::prelude::*;

verus! {

use crate::num::{double_of_nat, is_nan};
use crate::store::{
    covering, downsampled, envelope, first_after, in_window, line_at, observe, ordered, part_of,
    part_upto, runs_within, spans_value, texts_within, within, Bucket, ChannelId, KindView,
    Sample, StateRun, StoreView,
};
use crate::workspace::stored;

/// Whether the bucket sums up the samples from `from` up to `to`: it stands at the time
/// of the first, its bounds are values of some of them, and each that is a number lies
/// between the bounds.
pub open spec fn sums_up(b: Bucket, w: Seq<(u64, u64)>, from: int, to: int) -> bool {
    &&& 0 <= from < to <= w.len()
    &&& b.t == w[from].0
    &&& exists|i: int| from <= i < to && (#[trigger] w[i]).1 == b.min
    &&& exists|i: int| from <= i < to && (#[trigger] w[i]).1 == b.max
    &&& forall|i: int| from <= i < to && !is_nan((#[trigger] w[i]).1) ==> spans_value(b, w[i].1)
}

/// Whether the buckets sum up all of the samples, cut into runs that begin at `cuts`.
pub open spec fn cut_at(b: Seq<Bucket>, w: Seq<(u64, u64)>, cuts: Seq<int>) -> bool {
    &&& cuts.len() == b.len() + 1
    &&& cuts[0] == 0
    &&& cuts.last() == w.len()
    &&& forall|k: int| 0 <= k < b.len() ==> sums_up(#[trigger] b[k], w, cuts[k], cuts[k + 1])
}

/// Whether two times count as the same part of `[t0, t1)`, where the parts from `last`
/// on are one.
pub open spec fn same_part(a: u64, b: u64, t0: u64, t1: u64, n: usize, last: int) -> bool {
    part_of(a, t0, t1, n) == part_of(b, t0, t1, n) || (part_of(a, t0, t1, n) >= last && part_of(
        b,
        t0,
        t1,
        n,
    ) >= last)
}

/// Whether the samples are cut exactly where they pass from one part to another.
pub open spec fn cut_between_parts(
    w: Seq<(u64, u64)>,
    cuts: Seq<int>,
    t0: u64,
    t1: u64,
    n: usize,
    last: int,
) -> bool {
    forall|i: int|
        0 < i < w.len() ==> (cuts.contains(i) <==> !same_part(
            (#[trigger] w[i]).0,
            w[i - 1].0,
            t0,
            t1,
            n,
            last,
        ))
}

/// The runs of samples that [`envelope`] sums up.
spec fn cuts_of(w: Seq<(u64, u64)>, t0: u64, t1: u64, n: usize, last: int) -> Seq<int>
    decreases w.len(),
{
    if w.len() == 0 {
        seq![0]
    } else if w.len() > 1 && same_part(w[w.len() - 2].0, w.last().0, t0, t1, n, last) {
        let c = cuts_of(w.drop_last(), t0, t1, n, last);
        c.update(c.len() - 1, w.len() as int)
    } else {
        cuts_of(w.drop_last(), t0, t1, n, last).push(w.len() as int)
    }
}

proof fn lemma_cuts(w: Seq<(u64, u64)>, t0: u64, t1: u64, n: usize, last: int)
    ensures
        cut_at(envelope(w, t0, t1, n, last), w, cuts_of(w, t0, t1, n, last)),
        cut_between_parts(w, cuts_of(w, t0, t1, n, last), t0, t1, n, last),
        forall|k: int|
            0 <= k < cuts_of(w, t0, t1, n, last).len() ==> 0 <= #[trigger] cuts_of(
                w,
                t0,
                t1,
                n,
                last,
            )[k] <= w.len(),
        w.len() > 0 ==> envelope(w, t0, t1, n, last).len() > 0,
    decreases w.len(),
{
    let e = envelope(w, t0, t1, n, last);
    let c = cuts_of(w, t0, t1, n, last);
    if w.len() > 0 {
        let r = w.drop_last();
        let e1 = envelope(r, t0, t1, n, last);
        let c1 = cuts_of(r, t0, t1, n, last);
        lemma_cuts(r, t0, t1, n, last);
        let p = w.last();
        let joined = w.len() > 1 && same_part(w[w.len() - 2].0, p.0, t0, t1, n, last);
        assert(joined ==> e1.len() > 0);
        assert(joined <==> w.len() > 1 && part_upto(w[w.len() - 2].0, t0, t1, n, last)
            == part_upto(p.0, t0, t1, n, last));
        assert forall|k: int| 0 <= k < e.len() implies sums_up(
            #[trigger] e[k],
            w,
            c[k],
            c[k + 1],
        ) by {
            if k < e.len() - 1 {
                assert(e[k] == e1[k]);
                assert(sums_up(e1[k], r, c1[k], c1[k + 1]));
                assert(c[k] == c1[k] && c[k + 1] == c1[k + 1]);
                lemma_sums_up_grown(e[k], w, c[k], c[k + 1]);
            } else if joined {
                let b = e1[k];
                assert(sums_up(b, r, c1[k], c1[k + 1]));
                assert(c1[k + 1] == r.len());
                lemma_joined(b, e[k], w, c[k]);
            } else {
                assert(c[k] == r.len());
                assert(w[r.len() as int] == p);
            }
        }
        assert forall|i: int| 0 < i < w.len() implies (c.contains(i) <==> !same_part(
            (#[trigger] w[i]).0,
            w[i - 1].0,
            t0,
            t1,
            n,
            last,
        )) by {
            if i < r.len() {
                assert(r[i] == w[i] && r[i - 1] == w[i - 1]);
                if c1.contains(i) {
                    let k = choose|k: int| 0 <= k < c1.len() && c1[k] == i;
                    assert(c[k] == i);
                }
                if c.contains(i) {
                    let k = choose|k: int| 0 <= k < c.len() && c[k] == i;
                    assert(c1[k] == i);
                }
            } else {
                if joined {
                    if c.contains(i) {
                        let k = choose|k: int| 0 <= k < c.len() && c[k] == i;
                        assert(k < c.len() - 1);
                        assert(c1[k] == i);
                        assert(k < e1.len());
                        assert(sums_up(e1[k], r, c1[k], c1[k + 1]));
                    }
                } else {
                    assert(c[c.len() - 2] == i);
                }
            }
        }
    }
}

proof fn lemma_sums_up_grown(b: Bucket, w: Seq<(u64, u64)>, from: int, to: int)
    requires
        w.len() > 0,
        sums_up(b, w.drop_last(), from, to),
    ensures
        sums_up(b, w, from, to),
{
    let r = w.drop_last();
    let i = choose|i: int| from <= i < to && (#[trigger] r[i]).1 == b.min;
    assert(w[i].1 == b.min);
    let j = choose|j: int| from <= j < to && (#[trigger] r[j]).1 == b.max;
    assert(w[j].1 == b.max);
    assert forall|i: int| from <= i < to && !is_nan((#[trigger] w[i]).1) implies spans_value(
        b,
        w[i].1,
    ) by {
        assert(r[i] == w[i]);
    }
}

proof fn lemma_joined(b: Bucket, grown: Bucket, w: Seq<(u64, u64)>, from: int)
    requires
        w.len() > 0,
        sums_up(b, w.drop_last(), from, w.len() - 1),
        grown.t == b.t,
        grown.min == crate::num::lesser(b.min, w.last().1),
        grown.max == crate::num::greater(b.max, w.last().1),
    ensures
        sums_up(grown, w, from, w.len() as int),
{
    let r = w.drop_last();
    let i = choose|i: int| from <= i < w.len() - 1 && (#[trigger] r[i]).1 == b.min;
    assert(w[i].1 == b.min);
    let j = choose|j: int| from <= j < w.len() - 1 && (#[trigger] r[j]).1 == b.max;
    assert(w[j].1 == b.max);
    assert(w[w.len() - 1] == w.last());
    assert forall|i: int|
        from <= i < w.len() && !is_nan((#[trigger] w[i]).1) implies spans_value(
        grown,
        w[i].1,
    ) by {
        if i < r.len() {
            assert(r[i] == w[i]);
        }
    }
}

/// The buckets of a query sum up the samples of the window, cut into runs of neighbours.
/// While the samples are no more than the buckets asked for, each stands by itself. Else
/// they are cut where they pass from one of the equal parts of the window to another;
/// only from the last part on nothing is cut, where there would be too many buckets.
pub proof fn law_buckets_sum_up_their_samples(s: Seq<(u64, u64)>, t0: u64, t1: u64, n: usize)
    requires
        n > 0,
        t0 < t1,
    ensures
        within(s, t0, t1).len() <= n ==> downsampled(s, t0, t1, n).len() == within(
            s,
            t0,
            t1,
        ).len() && exists|cuts: Seq<int>|
            cut_at(downsampled(s, t0, t1, n), within(s, t0, t1), cuts),
        within(s, t0, t1).len() > n ==> exists|cuts: Seq<int>, last: int|
            (last == i64::MAX || last == n - 1) && cut_at(
                downsampled(s, t0, t1, n),
                within(s, t0, t1),
                cuts,
            ) && #[trigger] cut_between_parts(within(s, t0, t1), cuts, t0, t1, n, last),
{
    let w = within(s, t0, t1);
    let d = downsampled(s, t0, t1, n);
    if w.len() <= n {
        let cuts = Seq::new(w.len() + 1, |i: int| i);
        assert forall|k: int| 0 <= k < d.len() implies sums_up(
            #[trigger] d[k],
            w,
            cuts[k],
            cuts[k + 1],
        ) by {
            assert(w[k].1 == d[k].min);
        }
        assert(cut_at(d, w, cuts));
    } else {
        let last = if envelope(w, t0, t1, n, i64::MAX as int).len() <= n {
            i64::MAX as int
        } else {
            n - 1
        };
        lemma_cuts(w, t0, t1, n, last);
        assert(cut_between_parts(w, cuts_of(w, t0, t1, n, last), t0, t1, n, last));
    }
}

proof fn lemma_run_is_one_part(
    w: Seq<(u64, u64)>,
    t0: u64,
    t1: u64,
    n: usize,
    last: int,
    k: int,
    i: int,
)
    requires
        0 <= k < envelope(w, t0, t1, n, last).len(),
        cuts_of(w, t0, t1, n, last)[k] <= i < cuts_of(w, t0, t1, n, last)[k + 1],
    ensures
        0 <= i < w.len(),
        same_part(envelope(w, t0, t1, n, last)[k].t, w[i].0, t0, t1, n, last),
    decreases w.len(),
{
    let e = envelope(w, t0, t1, n, last);
    let c = cuts_of(w, t0, t1, n, last);
    lemma_cuts(w, t0, t1, n, last);
    assert(sums_up(e[k], w, c[k], c[k + 1]));
    let r = w.drop_last();
    let e1 = envelope(r, t0, t1, n, last);
    let c1 = cuts_of(r, t0, t1, n, last);
    lemma_cuts(r, t0, t1, n, last);
    let joined = w.len() > 1 && same_part(w[w.len() - 2].0, w.last().0, t0, t1, n, last);
    if k < e.len() - 1 {
        assert(c[k + 1] == c1[k + 1]);
        lemma_run_is_one_part(r, t0, t1, n, last, k, i);
    } else if joined {
        assert(sums_up(e1[k], r, c1[k], c1[k + 1]));
        if i < r.len() {
            lemma_run_is_one_part(r, t0, t1, n, last, k, i);
        } else {
            lemma_run_is_one_part(r, t0, t1, n, last, k, r.len() - 1);
        }
    }
}

/// Bucket bounds are attained: each bound of a bucket is the value of a sample of the
/// window that falls into the same part of the window as the bucket does. The parts from
/// the last on count as one.
pub proof fn law_bucket_bounds_are_attained(
    s: Seq<(u64, u64)>,
    t0: u64,
    t1: u64,
    n: usize,
    k: int,
)
    requires
        0 <= k < downsampled(s, t0, t1, n).len(),
    ensures
        exists|i: int|
            0 <= i < within(s, t0, t1).len() && (#[trigger] within(s, t0, t1)[i]).1 == downsampled(
                s,
                t0,
                t1,
                n,
            )[k].min && same_part(
                downsampled(s, t0, t1, n)[k].t,
                within(s, t0, t1)[i].0,
                t0,
                t1,
                n,
                n - 1,
            ),
        exists|i: int|
            0 <= i < within(s, t0, t1).len() && (#[trigger] within(s, t0, t1)[i]).1 == downsampled(
                s,
                t0,
                t1,
                n,
            )[k].max && same_part(
                downsampled(s, t0, t1, n)[k].t,
                within(s, t0, t1)[i].0,
                t0,
                t1,
                n,
                n - 1,
            ),
{
    let w = within(s, t0, t1);
    let b = downsampled(s, t0, t1, n)[k];
    if w.len() <= n {
        assert(w[k].1 == b.min && w[k].1 == b.max);
    } else {
        let last = if envelope(w, t0, t1, n, i64::MAX as int).len() <= n {
            i64::MAX as int
        } else {
            n - 1
        };
        let (i, j) = lemma_attained(w, t0, t1, n, last, k);
        lemma_last_part(b.t, w[i].0, t0, t1, n);
        lemma_last_part(b.t, w[j].0, t0, t1, n);
    }
}

/// Where the parts that no number is beyond count as one, no two parts do.
proof fn lemma_last_part(a: u64, b: u64, t0: u64, t1: u64, n: usize)
    requires
        same_part(a, b, t0, t1, n, i64::MAX as int) || same_part(a, b, t0, t1, n, n - 1),
    ensures
        same_part(a, b, t0, t1, n, n - 1),
{
    assert(part_of(a, t0, t1, n) <= i64::MAX);
    assert(part_of(b, t0, t1, n) <= i64::MAX);
}

/// The samples that have the bounds of a bucket.
proof fn lemma_attained(
    w: Seq<(u64, u64)>,
    t0: u64,
    t1: u64,
    n: usize,
    last: int,
    k: int,
) -> (at: (int, int))
    requires
        0 <= k < envelope(w, t0, t1, n, last).len(),
    ensures
        0 <= at.0 < w.len(),
        0 <= at.1 < w.len(),
        w[at.0].1 == envelope(w, t0, t1, n, last)[k].min,
        w[at.1].1 == envelope(w, t0, t1, n, last)[k].max,
        same_part(envelope(w, t0, t1, n, last)[k].t, w[at.0].0, t0, t1, n, last),
        same_part(envelope(w, t0, t1, n, last)[k].t, w[at.1].0, t0, t1, n, last),
{
    let b = envelope(w, t0, t1, n, last)[k];
    let c = cuts_of(w, t0, t1, n, last);
    lemma_cuts(w, t0, t1, n, last);
    assert(sums_up(b, w, c[k], c[k + 1]));
    let i = choose|i: int| c[k] <= i < c[k + 1] && (#[trigger] w[i]).1 == b.min;
    lemma_run_is_one_part(w, t0, t1, n, last, k, i);
    let j = choose|j: int| c[k] <= j < c[k + 1] && (#[trigger] w[j]).1 == b.max;
    lemma_run_is_one_part(w, t0, t1, n, last, k, j);
    (i, j)
}

/// The samples of a window, where they are in order of time, are a piece of the
/// channel's samples without a gap: all before it are earlier than the window, all
/// behind it are not before its end.
pub proof fn law_window_is_a_slice(s: Seq<(u64, u64)>, t0: u64, t1: u64) -> (cut: (int, int))
    requires
        ordered(s),
        t0 <= t1,
    ensures
        0 <= cut.0 <= cut.1 <= s.len(),
        within(s, t0, t1) == s.subrange(cut.0, cut.1),
        forall|i: int| 0 <= i < cut.0 ==> (#[trigger] s[i]).0 < t0,
        forall|i: int| cut.0 <= i < cut.1 ==> t0 <= (#[trigger] s[i]).0 < t1,
        forall|i: int| cut.1 <= i < s.len() ==> t1 <= (#[trigger] s[i]).0,
    decreases s.len(),
{
    reveal(Seq::filter);
    if s.len() == 0 {
        assert(within(s, t0, t1) =~= s.subrange(0, 0));
        (0, 0)
    } else {
        let r = s.drop_last();
        let (a, b) = law_window_is_a_slice(r, t0, t1);
        let p = s.last();
        assert forall|i: int| 0 <= i < r.len() implies r[i] == #[trigger] s[i] by {}
        if t0 <= p.0 && p.0 < t1 {
            if b < r.len() {
                assert(s[b].0 <= p.0);
            }
            assert(within(s, t0, t1) =~= s.subrange(a, s.len() as int));
            (a, s.len() as int)
        } else if p.0 < t0 {
            if a < r.len() {
                assert(s[a].0 <= p.0);
            }
            assert(within(s, t0, t1) =~= s.subrange(s.len() as int, s.len() as int));
            (s.len() as int, s.len() as int)
        } else {
            assert(within(s, t0, t1) =~= s.subrange(a, b));
            (a, b)
        }
    }
}

/// Text timestamps that do not decrease.
pub open spec fn ordered_texts(s: Seq<(u64, Seq<char>)>) -> bool {
    forall|i: int, j: int| 0 <= i <= j < s.len() ==> (#[trigger] s[i]).0 <= (#[trigger] s[j]).0
}

proof fn lemma_texts_slice(s: Seq<(u64, Seq<char>)>, t0: u64, t1: u64) -> (cut: (int, int))
    requires
        ordered_texts(s),
        t0 <= t1,
    ensures
        0 <= cut.0 <= cut.1 <= s.len(),
        s.filter(|p: (u64, Seq<char>)| t0 <= p.0 < t1) == s.subrange(cut.0, cut.1),
        forall|i: int| 0 <= i < cut.0 ==> (#[trigger] s[i]).0 < t0,
        forall|i: int| cut.0 <= i < cut.1 ==> t0 <= (#[trigger] s[i]).0 < t1,
        forall|i: int| cut.1 <= i < s.len() ==> t1 <= (#[trigger] s[i]).0,
    decreases s.len(),
{
    reveal(Seq::filter);
    let f = |p: (u64, Seq<char>)| t0 <= p.0 < t1;
    if s.len() == 0 {
        assert(s.filter(f) =~= s.subrange(0, 0));
        (0, 0)
    } else {
        let r = s.drop_last();
        let (a, b) = lemma_texts_slice(r, t0, t1);
        let p = s.last();
        assert forall|i: int| 0 <= i < r.len() implies r[i] == #[trigger] s[i] by {}
        if t0 <= p.0 && p.0 < t1 {
            if b < r.len() {
                assert(s[b].0 <= p.0);
            }
            assert(s.filter(f) =~= s.subrange(a, s.len() as int));
            (a, s.len() as int)
        } else if p.0 < t0 {
            if a < r.len() {
                assert(s[a].0 <= p.0);
            }
            assert(s.filter(f) =~= s.subrange(s.len() as int, s.len() as int));
            (s.len() as int, s.len() as int)
        } else {
            assert(s.filter(f) =~= s.subrange(a, b));
            (a, b)
        }
    }
}

/// The texts of a window, where they are in order of time, are a piece of the channel's
/// texts without a gap. It begins at the first that is not before the window, and ends
/// at the end of the window or where it has as many as were asked for.
pub proof fn law_text_window_is_a_slice(
    s: Seq<(u64, Seq<char>)>,
    t0: u64,
    t1: u64,
    max: usize,
) -> (cut: (int, int))
    requires
        ordered_texts(s),
        t0 <= t1,
    ensures
        0 <= cut.0 <= cut.1 <= s.len(),
        texts_within(s, t0, t1, max) == s.subrange(cut.0, cut.1),
        forall|i: int| 0 <= i < cut.0 ==> (#[trigger] s[i]).0 < t0,
        forall|i: int| cut.0 <= i < cut.1 ==> t0 <= (#[trigger] s[i]).0 < t1,
        cut.1 - cut.0 <= max,
        cut.1 - cut.0 == max || forall|i: int| cut.1 <= i < s.len() ==> t1 <= (#[trigger] s[i]).0,
{
    let (a, b) = lemma_texts_slice(s, t0, t1);
    assert((|p: (u64, Seq<char>)| crate::store::in_window(p.0, t0, t1)) =~= (|
        p: (u64, Seq<char>),
    | t0 <= p.0 < t1));
    if b - a <= max {
        (a, b)
    } else {
        assert(s.subrange(a, b).take(max as int) =~= s.subrange(a, a + max));
        (a, a + max)
    }
}

proof fn lemma_first_after(s: Seq<(u64, u64)>, t: u64, i: int)
    requires
        0 <= i <= s.len(),
    ensures
        i <= first_after(s, t, i) <= s.len(),
        first_after(s, t, i) < s.len() ==> s[first_after(s, t, i)].0 > t,
        forall|j: int| i <= j < first_after(s, t, i) ==> (#[trigger] s[j]).0 <= t,
    decreases s.len() - i,
{
    if i < s.len() && s[i].0 <= t {
        lemma_first_after(s, t, i + 1);
    }
}

/// Whether the value at `t` is what the samples around it tell.
pub open spec fn reads_off(s: Seq<(u64, u64)>, t: u64, r: Option<Sample>) -> bool {
    match r {
        None => s.len() == 0 || t < s[0].0 || s.last().0 < t,
        Some(Sample::Exact(v)) => exists|i: int|
            0 <= i < s.len() && #[trigger] s[i] == (t, v) && (i + 1 == s.len() || t < s[i + 1].0),
        Some(Sample::Between { t_a, v_a, t_b, v_b }) => {
            &&& t_a < t < t_b
            &&& exists|i: int|
                0 <= i < s.len() - 1 && #[trigger] s[i] == (t_a, v_a) && s[i + 1] == (t_b, v_b)
        },
    }
}

/// The value of a numeric channel at a time rests on recorded samples. It is the last
/// sample of that very time; else a line whose two ends are neighbouring samples, one
/// before that time and one after it; and there is none only before the first sample and
/// after the last.
pub proof fn law_value_rests_on_recorded_samples(store: StoreView, ch: ChannelId, t: u64)
    requires
        store.wf(),
        ch < store.channels.len(),
        store.channels[ch as int].kind == KindView::Scalar,
        ordered(store.samples(ch)),
    ensures
        reads_off(store.samples(ch), t, store.value_at(ch, t)),
{
    let s = store.samples(ch);
    let i = first_after(s, t, 0);
    lemma_first_after(s, t, 0);
    if i > 0 {
        assert(s[i - 1].0 <= t);
        if s[i - 1].0 == t {
            assert(s[i - 1] == (t, s[i - 1].1));
        } else if i < s.len() {
            assert(s[i - 1] == (s[i - 1].0, s[i - 1].1));
        }
    }
}

/// A line between two samples has neighbouring recorded samples at both of its ends,
/// whatever the order of the samples.
pub proof fn law_both_ends_are_recorded(s: Seq<(u64, u64)>, t: u64)
    requires
        line_at(s, t) matches Some(Sample::Between { .. }),
    ensures
        line_at(s, t) matches Some(Sample::Between { t_a, v_a, t_b, v_b }) && t_a < t < t_b
            && exists|i: int|
            0 <= i < s.len() - 1 && #[trigger] s[i] == (t_a, v_a) && s[i + 1] == (t_b, v_b),
{
    let i = first_after(s, t, 0);
    lemma_first_after(s, t, 0);
    assert(s[i - 1] == (s[i - 1].0, s[i - 1].1));
}

/// A sample that is pushed in order of time is read back: the channel has at that time
/// the value that was pushed, and one sample more than before. What was recorded earlier,
/// and every other channel, stays as it was.
pub proof fn law_pushed_sample_is_read_back(
    store: StoreView,
    ch: ChannelId,
    t: u64,
    v: u64,
    other: ChannelId,
    at: u64,
)
    requires
        store.wf(),
        ch < store.channels.len(),
        store.channels[ch as int].kind == KindView::Scalar,
        ordered(store.samples(ch)),
        store.samples(ch).len() > 0 ==> store.samples(ch).last().0 <= t,
    ensures
        store.with_scalar(ch, t, v).wf(),
        ordered(store.with_scalar(ch, t, v).samples(ch)),
        store.with_scalar(ch, t, v).value_at(ch, t) == Some(Sample::Exact(v)),
        store.with_scalar(ch, t, v).count(ch) == store.count(ch) + 1,
        store.with_scalar(ch, t, v).revision != store.revision,
        store.samples(ch).len() > 0 && at < store.samples(ch).last().0 ==> store.with_scalar(
            ch,
            t,
            v,
        ).value_at(ch, at) == store.value_at(ch, at),
        other != ch ==> store.with_scalar(ch, t, v).value_at(other, at) == store.value_at(other, at)
            && store.with_scalar(ch, t, v).count(other) == store.count(other),
{
    let s = store.samples(ch);
    let s2 = store.with_scalar(ch, t, v).samples(ch);
    assert(s2 == s.push((t, v)));
    lemma_first_after(s2, t, 0);
    let i = first_after(s2, t, 0);
    if i < s2.len() {
        assert(s2[i].0 <= t);
    }
    if s.len() > 0 && at < s.last().0 {
        lemma_first_after(s, at, 0);
        assert(first_after(s, at, 0) < s.len()) by {
            if first_after(s, at, 0) == s.len() {
                assert(s[s.len() - 1].0 <= at);
            }
        }
        lemma_first_after_grown(s, (t, v), at, 0);
    }
}

proof fn lemma_first_after_grown(s: Seq<(u64, u64)>, p: (u64, u64), t: u64, i: int)
    requires
        0 <= i <= s.len(),
        first_after(s, t, i) < s.len(),
    ensures
        first_after(s.push(p), t, i) == first_after(s, t, i),
    decreases s.len() - i,
{
    assert(s.push(p)[i] == if i < s.len() { s[i] } else { p });
    if i < s.len() && s[i].0 <= t {
        lemma_first_after_grown(s, p, t, i + 1);
    }
}

/// The runs that observations leave behind.
pub open spec fn observed(obs: Seq<(u64, u32)>) -> Seq<StateRun>
    decreases obs.len(),
{
    if obs.len() == 0 {
        Seq::empty()
    } else {
        observe(observed(obs.drop_last()), obs.last().0, obs.last().1)
    }
}

/// Observation times that do not decrease.
pub open spec fn ordered_states(obs: Seq<(u64, u32)>) -> bool {
    forall|i: int, j: int| 0 <= i <= j < obs.len() ==> (#[trigger] obs[i]).0 <= (
    #[trigger] obs[j]).0
}

/// Whether `i` is the last observation that is not later than `t`.
pub open spec fn is_latest(obs: Seq<(u64, u32)>, t: u64, i: int) -> bool {
    &&& 0 <= i < obs.len()
    &&& obs[i].0 <= t
    &&& i + 1 == obs.len() || t < obs[i + 1].0
}

/// The runs cover the observed time without gaps or overlaps, and each time has the
/// value that was observed last.
proof fn lemma_observed(obs: Seq<(u64, u32)>)
    requires
        ordered_states(obs),
        obs.len() > 0,
    ensures
        observed(obs).len() > 0,
        observed(obs)[0].t_start == obs[0].0,
        observed(obs).last().t_end == obs.last().0,
        observed(obs).last().value == obs.last().1,
        forall|k: int|
            0 <= k < observed(obs).len() ==> (#[trigger] observed(obs)[k]).t_start <= observed(
                obs,
            )[k].t_end,
        forall|k: int|
            0 < k < observed(obs).len() ==> (#[trigger] observed(obs)[k]).t_start == observed(
                obs,
            )[k - 1].t_end,
        forall|k: int, t: u64, i: int|
            0 <= k < observed(obs).len() && (#[trigger] observed(obs)[k]).t_start <= t < observed(
                obs,
            )[k].t_end && #[trigger] is_latest(obs, t, i) ==> observed(obs)[k].value == obs[i].1,
    decreases obs.len(),
{
    let runs = observed(obs);
    let (t, v) = obs.last();
    let r = obs.drop_last();
    let before = observed(r);
    reveal_with_fuel(observed, 2);
    if r.len() > 0 {
        lemma_observed(r);
        assert(obs[r.len() - 1].0 <= t);
        assert(runs[0].t_start == obs[0].0);
        assert forall|k: int, u: u64, i: int|
            0 <= k < runs.len() && (#[trigger] runs[k]).t_start <= u < runs[k].t_end
                && #[trigger] is_latest(obs, u, i) implies runs[k].value == obs[i].1 by {
            if k >= before.len() {
                assert(runs[k].t_end == t);
                assert(runs[k].t_start == t);
            }
            lemma_runs_ordered(before, k, before.len() - 1);
            assert(before[k].t_end <= t);
            assert(i < r.len()) by {
                if i == r.len() {
                    assert(obs[i].0 == t);
                }
            }
            assert(is_latest(r, u, i));
            if u < before[k].t_end {
                assert(before[k].value == r[i].1);
            } else {
                assert(k == before.len() - 1);
                assert(i == r.len() - 1) by {
                    if i + 1 < r.len() {
                        assert(obs[i + 1].0 <= obs[r.len() - 1].0);
                    }
                }
            }
        }
    }
}

proof fn lemma_runs_ordered(runs: Seq<StateRun>, i: int, j: int)
    requires
        0 <= i <= j < runs.len(),
        forall|k: int| 0 <= k < runs.len() ==> (#[trigger] runs[k]).t_start <= runs[k].t_end,
        forall|k: int| 0 < k < runs.len() ==> (#[trigger] runs[k]).t_start == runs[k - 1].t_end,
    ensures
        runs[i].t_end <= runs[j].t_end,
        runs[i].t_start <= runs[j].t_start,
        i < j ==> runs[i].t_end <= runs[j].t_start,
    decreases j - i,
{
    if i < j {
        lemma_runs_ordered(runs, i, j - 1);
        assert(runs[j].t_start == runs[j - 1].t_end);
        assert(runs[j - 1].t_start <= runs[j - 1].t_end);
    }
}

proof fn lemma_covering(runs: Seq<StateRun>, t: u64, i: int)
    requires
        0 <= i <= runs.len(),
    ensures
        i <= covering(runs, t, i) <= runs.len(),
        covering(runs, t, i) < runs.len() ==> runs[covering(runs, t, i)].t_start <= t
            < runs[covering(runs, t, i)].t_end,
        forall|j: int|
            i <= j < covering(runs, t, i) ==> !((#[trigger] runs[j]).t_start <= t < runs[j].t_end),
    decreases runs.len() - i,
{
    if i < runs.len() && !(runs[i].t_start <= t < runs[i].t_end) {
        lemma_covering(runs, t, i + 1);
    }
}

/// Some run covers each time from the first observation to the last.
proof fn lemma_covered(runs: Seq<StateRun>, t: u64, n: int) -> (k: int)
    requires
        0 < n <= runs.len(),
        runs[0].t_start <= t < runs[n - 1].t_end,
        forall|k: int| 0 < k < runs.len() ==> (#[trigger] runs[k]).t_start == runs[k - 1].t_end,
    ensures
        0 <= k < n,
        runs[k].t_start <= t < runs[k].t_end,
    decreases n,
{
    if runs[n - 1].t_start <= t {
        n - 1
    } else {
        assert(runs[n - 1].t_start == runs[n - 2].t_end);
        lemma_covered(runs, t, n - 1)
    }
}

/// A state channel has at each time, from its first observation up to its last, the
/// value of the latest observation that is not later; outside that time it has none.
pub proof fn law_state_is_the_latest_observation(
    store: StoreView,
    ch: ChannelId,
    obs: Seq<(u64, u32)>,
    t: u64,
)
    requires
        store.wf(),
        ch < store.channels.len(),
        store.channels[ch as int].kind is State,
        store.runs(ch) == observed(obs),
        ordered_states(obs),
    ensures
        store.value_at(ch, t) is Some <==> obs.len() > 0 && obs[0].0 <= t < obs.last().0,
        forall|i: int| #[trigger]
            is_latest(obs, t, i) ==> store.value_at(ch, t) is None || store.value_at(ch, t) == Some(
                Sample::Exact(double_of_nat(obs[i].1 as nat) as u64),
            ),
{
    let runs = observed(obs);
    lemma_covering(runs, t, 0);
    let c = covering(runs, t, 0);
    if obs.len() > 0 {
        lemma_observed(obs);
        if obs[0].0 <= t < obs.last().0 {
            let k = lemma_covered(runs, t, runs.len() as int);
            assert(c < runs.len()) by {
                if c == runs.len() {
                    assert(!(runs[k].t_start <= t < runs[k].t_end));
                }
            }
        }
        if c < runs.len() {
            lemma_runs_ordered(runs, 0, c);
            lemma_runs_ordered(runs, c, runs.len() - 1);
        }
        assert forall|i: int| #[trigger] is_latest(obs, t, i) implies store.value_at(ch, t) is None
            || store.value_at(ch, t) == Some(
            Sample::Exact(double_of_nat(obs[i].1 as nat) as u64),
        ) by {
            if c < runs.len() {
                assert(runs[c].value == obs[i].1);
            }
        }
    }
}

/// A window of a state channel shows at each of its times, from the first observation on,
/// the value of the latest observation that is not later; the last value is shown for
/// good.
pub proof fn law_window_shows_the_latest_observation(
    obs: Seq<(u64, u32)>,
    t0: u64,
    t1: u64,
    t: u64,
    i: int,
)
    requires
        ordered_states(obs),
        t0 <= t < t1,
        is_latest(obs, t, i),
    ensures
        exists|r: StateRun| #[trigger]
            runs_within(observed(obs), t0, t1).contains(r) && r.t_start <= t < r.t_end && r.value
                == obs[i].1,
        forall|r: StateRun| #[trigger]
            runs_within(observed(obs), t0, t1).contains(r) && r.t_start <= t < r.t_end ==> r.value
                == obs[i].1,
{
    let runs = observed(obs);
    let h = crate::store::held(runs);
    let p = |r: StateRun| r.t_end > t0 && r.t_start < t1;
    lemma_observed(obs);
    assert(obs[0].0 <= obs[i].0);
    assert forall|k: int| 0 < k < h.len() implies (#[trigger] h[k]).t_start == h[k - 1].t_end by {
        assert(runs[k].t_start == runs[k - 1].t_end);
    }
    assert forall|k: int| 0 <= k < h.len() && (#[trigger] h[k]).t_start <= t < h[k].t_end implies
        h[k].value == obs[i].1 by {
        if k < runs.len() - 1 || t < runs[k].t_end {
            assert(runs[k].t_start <= t < runs[k].t_end);
        } else {
            assert(obs.last().0 <= t);
            assert(i == obs.len() - 1) by {
                if i + 1 < obs.len() {
                    assert(obs[i + 1].0 <= obs[obs.len() - 1].0);
                }
            }
        }
    }
    let k = lemma_covered(h, t, h.len() as int);
    h.lemma_filter_contains(p, k);
    let r = h[k];
    assert(runs_within(runs, t0, t1).contains(r));
    assert forall|r: StateRun| #[trigger]
        runs_within(runs, t0, t1).contains(r) && r.t_start <= t < r.t_end implies r.value
        == obs[i].1 by {
        let w = h.filter(p);
        let j = choose|j: int| 0 <= j < w.len() && w[j] == r;
        h.lemma_filter_contains_rev(p, r);
        let k = choose|k: int| 0 <= k < h.len() && h[k] == r;
        assert(h[k].t_start <= t < h[k].t_end);
    }
}

/// An observation goes to its channel alone, and the channel holds what its observations
/// leave behind.
pub proof fn law_pushed_state_is_observed(
    store: StoreView,
    ch: ChannelId,
    obs: Seq<(u64, u32)>,
    t: u64,
    value: u32,
    other: ChannelId,
    at: u64,
)
    requires
        store.wf(),
        ch < store.channels.len(),
        store.runs(ch) == observed(obs),
    ensures
        store.with_state(ch, t, value).wf(),
        store.with_state(ch, t, value).runs(ch) == observed(obs.push((t, value))),
        store.with_state(ch, t, value).revision != store.revision,
        other != ch ==> store.with_state(ch, t, value).value_at(other, at) == store.value_at(
            other,
            at,
        ) && store.with_state(ch, t, value).count(other) == store.count(other),
{
    assert(obs.push((t, value)).drop_last() =~= obs);
}

/// A text that is pushed goes behind the texts of its channel, at its time, and changes
/// nothing else.
pub proof fn law_pushed_text_is_kept(
    store: StoreView,
    ch: ChannelId,
    t: u64,
    text: Seq<char>,
    other: ChannelId,
)
    requires
        store.wf(),
        ch < store.channels.len(),
    ensures
        ({
            let r = store.with_text(ch, t, text);
            &&& r.wf()
            &&& r.texts[ch as int].len() == store.texts[ch as int].len() + 1
            &&& r.texts[ch as int].last() == (t, text)
            &&& r.texts[ch as int].drop_last() == store.texts[ch as int]
            &&& r.revision != store.revision
            &&& r.channels == store.channels
            &&& r.scalars == store.scalars
            &&& r.states == store.states
            &&& other != ch && other < store.texts.len() ==> r.texts[other as int]
                == store.texts[other as int]
        }),
{
    assert(store.with_text(ch, t, text).texts[ch as int].drop_last()
        =~= store.texts[ch as int]);
}

/// A channel that is registered comes behind the others, under its path and with nothing
/// in it; the others keep what they have.
pub proof fn law_new_channel_is_empty(
    store: StoreView,
    path: Seq<char>,
    kind: KindView,
    integer: bool,
    other: ChannelId,
    t: u64,
)
    requires
        store.wf(),
        store.channels.len() < u32::MAX,
    ensures
        ({
            let r = store.with_channel(path, kind, integer);
            let ch = store.channels.len() as u32;
            &&& r.wf()
            &&& r.channels.len() == store.channels.len() + 1
            &&& r.channels[ch as int].id == ch
            &&& r.channels[ch as int].path == path
            &&& r.channels[ch as int].kind == kind
            &&& r.channels[ch as int].integer_storage == integer
            &&& r.count(ch) == 0
            &&& r.value_at(ch, t) is None
            &&& r.revision != store.revision
            &&& other < ch ==> r.channels[other as int] == store.channels[other as int] && r.count(
                other,
            ) == store.count(other) && r.value_at(other, t) == store.value_at(other, t)
        }),
{
}

/// A cleared store has no channel, no sample and no time, and a new revision.
pub proof fn law_cleared_store_is_empty(store: StoreView, ch: ChannelId, t: u64)
    ensures
        ({
            let r = store.cleared();
            &&& r.wf()
            &&& r.channels.len() == 0
            &&& r.count(ch) == 0
            &&& r.value_at(ch, t) is None
            &&& r.samples(ch).len() == 0
            &&& r.runs(ch).len() == 0
            &&& !r.words.contains_key(ch)
            &&& crate::store::covers_exactly(r.spans(), None)
            &&& r.revision != store.revision
        }),
{
    assert(store.cleared().spans() =~= Seq::empty());
}

/// Whether the channel has something recorded at the time: a sample, the start or the end
/// of a run, or a text.
pub open spec fn recorded_at(store: StoreView, c: int, t: u64) -> bool {
    ||| 0 <= c < store.scalars.len() && exists|i: int|
        0 <= i < store.scalars[c].len() && (#[trigger] store.scalars[c][i]).0 == t
    ||| 0 <= c < store.states.len() && exists|i: int|
        0 <= i < store.states[c].len() && ((#[trigger] store.states[c][i]).t_start == t
            || store.states[c][i].t_end == t)
    ||| 0 <= c < store.texts.len() && exists|i: int|
        0 <= i < store.texts[c].len() && (#[trigger] store.texts[c][i]).0 == t
}

/// Whether the tables of a store are in order of time.
pub open spec fn in_time_order(store: StoreView) -> bool {
    &&& forall|c: int| 0 <= c < store.scalars.len() ==> ordered(#[trigger] store.scalars[c])
    &&& forall|c: int| 0 <= c < store.texts.len() ==> ordered_texts(#[trigger] store.texts[c])
    &&& forall|c: int|
        0 <= c < store.states.len() ==> runs_in_order(#[trigger] store.states[c])
}

/// Whether runs follow one another in time.
pub open spec fn runs_in_order(runs: Seq<StateRun>) -> bool {
    &&& forall|k: int| 0 <= k < runs.len() ==> (#[trigger] runs[k]).t_start <= runs[k].t_end
    &&& forall|k: int| 0 < k < runs.len() ==> (#[trigger] runs[k]).t_start == runs[k - 1].t_end
}

/// The time bounds of a store hold everything that was recorded in any channel, and each
/// of them is the time of something that was. Without anything recorded there are none.
pub proof fn law_time_bounds_hold_everything(
    store: StoreView,
    r: Option<(u64, u64)>,
    c: int,
    t: u64,
)
    requires
        in_time_order(store),
        crate::store::covers_exactly(store.spans(), r),
    ensures
        recorded_at(store, c, t) ==> (r matches Some((lo, hi)) && lo <= t <= hi),
        r matches Some((lo, hi)) ==> (exists|d: int| #[trigger] recorded_at(store, d, lo)) && (
        exists|d: int| #[trigger] recorded_at(store, d, hi)),
{
    let spans = store.spans();
    let (a, b) = (store.scalars.len() as int, store.states.len() as int);
    if recorded_at(store, c, t) {
        if 0 <= c < store.scalars.len() && exists|i: int|
            0 <= i < store.scalars[c].len() && (#[trigger] store.scalars[c][i]).0 == t {
            let s = store.scalars[c];
            let i = choose|i: int| 0 <= i < s.len() && (#[trigger] s[i]).0 == t;
            assert(s[0].0 <= s[i].0 && s[i].0 <= s[s.len() - 1].0);
            assert(spans[c] == Some((s[0].0, s.last().0)));
        } else if 0 <= c < store.states.len() && exists|i: int|
            0 <= i < store.states[c].len() && ((#[trigger] store.states[c][i]).t_start == t
                || store.states[c][i].t_end == t) {
            let s = store.states[c];
            let i = choose|i: int|
                0 <= i < s.len() && ((#[trigger] s[i]).t_start == t || s[i].t_end == t);
            lemma_runs_ordered(s, 0, i);
            lemma_runs_ordered(s, i, s.len() - 1);
            assert(spans[a + c] == Some((s[0].t_start, s.last().t_end)));
        } else {
            let s = store.texts[c];
            let i = choose|i: int| 0 <= i < s.len() && (#[trigger] s[i]).0 == t;
            assert(s[0].0 <= s[i].0 && s[i].0 <= s[s.len() - 1].0);
            assert(spans[a + b + c] == Some((s[0].0, s.last().0)));
        }
    }
    if r is Some {
        let (lo, hi) = r->0;
        let i = choose|i: int|
            0 <= i < spans.len() && (#[trigger] spans[i] matches Some(s) && s.0 == lo);
        let j = choose|j: int|
            0 <= j < spans.len() && (#[trigger] spans[j] matches Some(s) && s.1 == hi);
        lemma_span_recorded(store, i);
        lemma_span_recorded(store, j);
    }
}

proof fn lemma_span_recorded(store: StoreView, i: int)
    requires
        0 <= i < store.spans().len(),
        store.spans()[i] is Some,
    ensures
        exists|d: int| #[trigger] recorded_at(store, d, (store.spans()[i]->0).0),
        exists|d: int| #[trigger] recorded_at(store, d, (store.spans()[i]->0).1),
{
    let (a, b) = (store.scalars.len() as int, store.states.len() as int);
    let (lo, hi) = store.spans()[i]->0;
    if i < a {
        let s = store.scalars[i];
        assert(s[0].0 == lo && s[s.len() - 1].0 == hi);
        assert(recorded_at(store, i, lo) && recorded_at(store, i, hi));
    } else if i < a + b {
        let s = store.states[i - a];
        assert(s[0].t_start == lo && s[s.len() - 1].t_end == hi);
        assert(recorded_at(store, i - a, lo) && recorded_at(store, i - a, hi));
    } else {
        let s = store.texts[i - a - b];
        assert(s[0].0 == lo && s[s.len() - 1].0 == hi);
        assert(recorded_at(store, i - a - b, lo) && recorded_at(store, i - a - b, hi));
    }
}

/// The bounds of a numeric channel are values of its samples.
pub proof fn law_value_bounds_are_attained(store: StoreView, ch: ChannelId)
    requires
        store.samples(ch).len() > 0,
    ensures
        store.extremes(ch) matches Some((lo, hi)) && (exists|i: int|
            0 <= i < store.samples(ch).len() && (#[trigger] store.samples(ch)[i]).1 == lo) && (
        exists|i: int|
            0 <= i < store.samples(ch).len() && (#[trigger] store.samples(ch)[i]).1 == hi),
{
    lemma_extremes_attained(store.samples(ch));
}

proof fn lemma_extremes_attained(s: Seq<(u64, u64)>)
    requires
        s.len() > 0,
    ensures
        exists|i: int| 0 <= i < s.len() && (#[trigger] s[i]).1 == crate::store::least_value(s),
        exists|i: int| 0 <= i < s.len() && (#[trigger] s[i]).1 == crate::store::largest_value(s),
    decreases s.len(),
{
    if s.len() == 1 {
        assert(s[0].1 == crate::store::least_value(s));
        assert(s[0].1 == crate::store::largest_value(s));
    } else {
        let r = s.drop_last();
        lemma_extremes_attained(r);
        let i = choose|i: int|
            0 <= i < r.len() && (#[trigger] r[i]).1 == crate::store::least_value(r);
        let j = choose|j: int|
            0 <= j < r.len() && (#[trigger] r[j]).1 == crate::store::largest_value(r);
        let m = s.len() - 1;
        assert(s[i].1 == crate::store::least_value(s) || s[m].1 == crate::store::least_value(s));
        assert(s[j].1 == crate::store::largest_value(s) || s[m].1
            == crate::store::largest_value(s));
    }
}

/// The bounds of a state channel are the least and the greatest of its states.
pub proof fn law_state_bounds_hold_the_states(store: StoreView, ch: ChannelId) -> (at: (int, int))
    requires
        store.samples(ch).len() == 0,
        store.runs(ch).len() > 0,
    ensures
        ({
            let runs = store.runs(ch);
            &&& 0 <= at.0 < runs.len()
            &&& 0 <= at.1 < runs.len()
            &&& store.extremes(ch) == Some(
                (
                    double_of_nat(runs[at.0].value as nat) as u64,
                    double_of_nat(runs[at.1].value as nat) as u64,
                ),
            )
            &&& forall|i: int|
                0 <= i < runs.len() ==> runs[at.0].value <= (#[trigger] runs[i]).value
                    <= runs[at.1].value
        }),
{
    lemma_state_extremes(store.runs(ch))
}

proof fn lemma_state_extremes(runs: Seq<StateRun>) -> (at: (int, int))
    requires
        runs.len() > 0,
    ensures
        0 <= at.0 < runs.len(),
        0 <= at.1 < runs.len(),
        runs[at.0].value == crate::store::least_state(runs),
        runs[at.1].value == crate::store::largest_state(runs),
        forall|i: int|
            0 <= i < runs.len() ==> runs[at.0].value <= (#[trigger] runs[i]).value
                <= runs[at.1].value,
    decreases runs.len(),
{
    if runs.len() == 1 {
        (0, 0)
    } else {
        let r = runs.drop_last();
        let (i, j) = lemma_state_extremes(r);
        let m = runs.len() - 1;
        assert forall|k: int| 0 <= k < r.len() implies #[trigger] runs[k] == r[k] by {}
        (
            if runs[m].value < runs[i].value {
                m
            } else {
                i
            },
            if runs[m].value > runs[j].value {
                m
            } else {
                j
            },
        )
    }
}

/// A window of a state channel shows, in their order, exactly the runs that reach into it:
/// those that end after its start and begin before its end.
pub proof fn law_window_runs_meet_the_window(runs: Seq<StateRun>, t0: u64, t1: u64, r: StateRun)
    ensures
        runs_within(runs, t0, t1).contains(r) <==> crate::store::held(runs).contains(r) && t0
            < r.t_end && r.t_start < t1,
        runs.len() > 0 ==> crate::store::held(runs).len() == runs.len()
            && crate::store::held(runs).drop_last() == runs.drop_last()
            && crate::store::held(runs).last().t_start == runs.last().t_start
            && crate::store::held(runs).last().value == runs.last().value
            && crate::store::held(runs).last().t_end == u64::MAX,
{
    let h = crate::store::held(runs);
    let p = |r: StateRun| r.t_end > t0 && r.t_start < t1;
    if h.contains(r) && p(r) {
        let i = choose|i: int| 0 <= i < h.len() && h[i] == r;
        h.lemma_filter_contains(p, i);
    }
    if runs_within(runs, t0, t1).contains(r) {
        h.lemma_filter_contains_rev(p, r);
        let w = h.filter(p);
        let i = choose|i: int| 0 <= i < w.len() && w[i] == r;
        h.lemma_filter_pred(p, i);
    }
    if runs.len() > 0 {
        assert(h.drop_last() =~= runs.drop_last());
    }
}

/// The runs of a window stay in order of time.
pub proof fn law_window_runs_stay_in_order(runs: Seq<StateRun>, t0: u64, t1: u64, i: int, j: int)
    requires
        runs_in_order(runs),
        0 <= i < j < runs_within(runs, t0, t1).len(),
    ensures
        runs_within(runs, t0, t1)[i].t_end <= runs_within(runs, t0, t1)[j].t_start,
{
    let h = crate::store::held(runs);
    let p = |r: StateRun| r.t_end > t0 && r.t_start < t1;
    assert forall|a: int, b: int| 0 <= a < b < h.len() implies (#[trigger] h[a]).t_end <= (
    #[trigger] h[b]).t_start by {
        lemma_runs_ordered(runs, a, b);
    }
    lemma_filter_keeps_order(h, p, i, j);
}

proof fn lemma_filter_keeps_order(s: Seq<StateRun>, p: spec_fn(StateRun) -> bool, i: int, j: int)
    requires
        forall|a: int, b: int|
            0 <= a < b < s.len() ==> (#[trigger] s[a]).t_end <= (#[trigger] s[b]).t_start,
        0 <= i < j < s.filter(p).len(),
    ensures
        s.filter(p)[i].t_end <= s.filter(p)[j].t_start,
    decreases s.len(),
{
    reveal(Seq::filter);
    let r = s.drop_last();
    let f = r.filter(p);
    assert forall|a: int, b: int| 0 <= a < b < r.len() implies (#[trigger] r[a]).t_end <= (
    #[trigger] r[b]).t_start by {
        assert(s[a].t_end <= s[b].t_start);
    }
    if j < f.len() {
        lemma_filter_keeps_order(r, p, i, j);
    } else {
        assert(f.contains(f[i]));
        r.lemma_filter_contains_rev(p, f[i]);
        let a = choose|a: int| 0 <= a < r.len() && r[a] == f[i];
        assert(s[a].t_end <= s[s.len() - 1].t_start);
    }
}

/// How much there is of a channel is how much was recorded: where every time lies before
/// the last one that there can be, a channel of numbers has as many as its samples and a
/// channel of texts as many as its texts.
pub proof fn law_everything_is_counted(s: StoreView, ch: ChannelId)
    requires
        ch < s.scalars.len(),
        ch < s.texts.len(),
        s.scalars[ch as int].len() <= usize::MAX,
        s.texts[ch as int].len() <= usize::MAX,
        forall|i: int|
            0 <= i < s.scalars[ch as int].len() ==> (#[trigger] s.scalars[ch as int][i]).0
                < u64::MAX,
        forall|i: int|
            0 <= i < s.texts[ch as int].len() ==> (#[trigger] s.texts[ch as int][i]).0 < u64::MAX,
    ensures
        stored(s, ch, KindView::Scalar) == s.scalars[ch as int].len(),
        stored(s, ch, KindView::Text) == s.texts[ch as int].len(),
{
    lemma_all_within(s.scalars[ch as int]);
    lemma_all_texts_within(s.texts[ch as int]);
}

proof fn lemma_all_within(s: Seq<(u64, u64)>)
    requires
        forall|i: int| 0 <= i < s.len() ==> (#[trigger] s[i]).0 < u64::MAX,
    ensures
        within(s, 0, u64::MAX) == s,
    decreases s.len(),
{
    reveal(Seq::filter);
    if s.len() > 0 {
        assert forall|i: int| 0 <= i < s.drop_last().len() implies (#[trigger] s.drop_last()[i]).0
            < u64::MAX by {
            assert(s[i].0 < u64::MAX);
        }
        lemma_all_within(s.drop_last());
        assert(s[s.len() - 1].0 < u64::MAX);
        assert(s.drop_last().push(s.last()) =~= s);
    }
}

proof fn lemma_all_texts_within(s: Seq<(u64, Seq<char>)>)
    requires
        forall|i: int| 0 <= i < s.len() ==> (#[trigger] s[i]).0 < u64::MAX,
    ensures
        s.filter(|p: (u64, Seq<char>)| in_window(p.0, 0, u64::MAX)) == s,
    decreases s.len(),
{
    reveal(Seq::filter);
    if s.len() > 0 {
        assert forall|i: int| 0 <= i < s.drop_last().len() implies (#[trigger] s.drop_last()[i]).0
            < u64::MAX by {
            assert(s[i].0 < u64::MAX);
        }
        lemma_all_texts_within(s.drop_last());
        assert(s[s.len() - 1].0 < u64::MAX);
        assert(s.drop_last().push(s.last()) =~= s);
    }
}

/// The count of a channel follows what is recorded: every number and every text counts
/// once, a state counts where it is another one than before, and what another kind of
/// channel would take does not count.
pub proof fn law_count_follows_what_is_recorded(
    s: StoreView,
    ch: ChannelId,
    t: u64,
    v: u64,
    state: u32,
    text: Seq<char>,
)
    requires
        s.wf(),
        ch < s.channels.len(),
    ensures
        s.channels[ch as int].kind is Scalar ==> {
            &&& s.with_scalar(ch, t, v).count(ch) == s.count(ch) + 1
            &&& s.with_state(ch, t, state).count(ch) == s.count(ch)
            &&& s.with_text(ch, t, text).count(ch) == s.count(ch)
        },
        s.channels[ch as int].kind is State ==> {
            &&& s.with_state(ch, t, state).count(ch) == s.count(ch) + (if s.states[ch as int].len()
                > 0 && s.states[ch as int].last().value == state {
                0int
            } else {
                1int
            })
            &&& s.with_scalar(ch, t, v).count(ch) == s.count(ch)
            &&& s.with_text(ch, t, text).count(ch) == s.count(ch)
        },
        s.channels[ch as int].kind is Text ==> {
            &&& s.with_text(ch, t, text).count(ch) == s.count(ch) + 1
            &&& s.with_scalar(ch, t, v).count(ch) == s.count(ch)
            &&& s.with_state(ch, t, state).count(ch) == s.count(ch)
        },
{
}

} // verus!
