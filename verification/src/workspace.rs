//! The plots of a workspace as a whole: the first ones, new and closed ones, what the
//! cursor reads from them, and the messages about them.

use crate::ingest::ReplayCounts;
use crate::num::i64_of_f64;
use crate::numtext::{fmt_bytes, format_fixed};
use crate::panels::{LogicAnalyserPanel, PlotId, PlotKind, PlotRegistry, ScalarPanel};
use crate::store::{ChannelId, ChannelInfo, ChannelKind, MockStore};
use crate::text::{append_digits, append_text, trimmed_text};
use vstd::prelude::*;

verus! {

use crate::layout_apply::{plots_view, PlotView};
use crate::num::int_of_double;
use crate::numtext::{fixed_text, size_text};
use crate::panels::LogicLane;
use crate::store::{downsampled, runs_within, texts_within, KindView, StoreView};
use crate::text::{decimal, trimmed};

/// A title made of a word and a number.
pub fn numbered_title(word: &str, n: usize) -> (r: String)
    ensures
        r@ == word@ + " "@ + decimal(n as nat),
{
    let mut out = word.to_owned();
    append_text(&mut out, " ");
    append_digits(&mut out, n as u64, 10);
    out
}

/// The number in the title of the plot that is added after the first ones.
pub const FIRST_FREE_NUMBER: usize = 3;

/// Makes the plots that a new workspace has: a scalar plot and a logic analyser.
pub fn default_plots(plots: &mut PlotRegistry) -> (r: (PlotId, PlotId))
    requires
        old(plots).inv(),
        old(plots).next() < u64::MAX - 1,
    ensures
        final(plots).inv(),
        r.0.0 == old(plots).next(),
        r.1.0 == old(plots).next() + 1,
        final(plots).next() == old(plots).next() + 2,
        plots_view(final(plots)@) == plots_view(old(plots)@).insert(
            r.0.0,
            PlotView::Scalar {
                title: "scalar 1"@,
                channels: Seq::empty(),
                styles: Map::empty(),
                selected: Set::empty(),
            },
        ).insert(r.1.0, PlotView::LogicAnalyser { title: "logic 2"@, lanes: Seq::empty() }),
        forall|id: u64|
            old(plots)@.contains_key(id) ==> #[trigger] final(plots)@[id] == old(plots)@[id],
{
    let a = plots.insert(PlotKind::Scalar(ScalarPanel::new("scalar 1")));
    let b = plots.insert(PlotKind::LogicAnalyser(LogicAnalyserPanel::new("logic 2")));
    assert(plots_view(plots@) =~= plots_view(old(plots)@).insert(
        a.0,
        PlotView::Scalar {
            title: "scalar 1"@,
            channels: Seq::empty(),
            styles: Map::empty(),
            selected: Set::empty(),
        },
    ).insert(b.0, PlotView::LogicAnalyser { title: "logic 2"@, lanes: Seq::empty() }));
    (a, b)
}

/// The plots without closed ones.
pub open spec fn without_closed(plots: Map<u64, PlotKind>, closed: Seq<PlotId>) -> Map<
    u64,
    PlotKind,
> {
    plots.remove_keys(Set::new(|id: u64| closed.contains(PlotId(id))))
}

/// Closes plots.
pub fn close_plots(plots: &mut PlotRegistry, closed: &Vec<PlotId>)
    requires
        old(plots).inv(),
    ensures
        final(plots).inv(),
        final(plots)@ == without_closed(old(plots)@, closed@),
        final(plots).next() == old(plots).next(),
{
    let ghost start = plots@;
    let mut i: usize = 0;
    assert(plots@ =~= without_closed(start, closed@.take(0)));
    while i < closed.len()
        invariant
            i <= closed@.len(),
            plots.inv(),
            plots@ == without_closed(start, closed@.take(i as int)),
            plots.next() == old(plots).next(),
        decreases closed@.len() - i,
    {
        plots.remove(closed[i]);
        proof {
            let a = closed@.take(i as int);
            let b = closed@.take(i + 1);
            assert(b =~= a.push(closed@[i as int]));
            assert forall|x: PlotId| #[trigger] b.contains(x) <==> a.contains(x) || x
                == closed@[i as int] by {
                if a.contains(x) {
                    let j = choose|j: int| 0 <= j < a.len() && a[j] == x;
                    assert(b[j] == x);
                }
                assert(b[i as int] == closed@[i as int]);
                if b.contains(x) && x != closed@[i as int] {
                    let j = choose|j: int| 0 <= j < b.len() && b[j] == x;
                    assert(a[j] == x);
                }
            }
            assert(plots@ =~= without_closed(start, b));
        }
        i = i + 1;
    }
    assert(closed@.take(closed@.len() as int) =~= closed@);
}

/// The plots on tabs that are there, in the order of the tabs.
pub open spec fn on_tabs(tabs: Seq<PlotId>, plots: Map<u64, PlotKind>) -> Seq<(PlotId, PlotKind)>
    decreases tabs.len(),
{
    if tabs.len() == 0 {
        Seq::empty()
    } else {
        let before = on_tabs(tabs.drop_last(), plots);
        if plots.contains_key(tabs.last().0) {
            before.push((tabs.last(), plots[tabs.last().0]))
        } else {
            before
        }
    }
}

/// The plots on tabs that are there.
pub fn plots_on_tabs<'a>(tabs: &Vec<PlotId>, plots: &'a PlotRegistry) -> (r: Vec<
    (PlotId, &'a PlotKind),
>)
    ensures
        r@.map_values(|p: (PlotId, &PlotKind)| (p.0, *p.1)) == on_tabs(tabs@, plots@),
{
    let mut out: Vec<(PlotId, &'a PlotKind)> = Vec::new();
    let mut i: usize = 0;
    assert(out@.map_values(|p: (PlotId, &PlotKind)| (p.0, *p.1)) =~= Seq::empty());
    while i < tabs.len()
        invariant
            i <= tabs@.len(),
            out@.map_values(|p: (PlotId, &PlotKind)| (p.0, *p.1)) == on_tabs(
                tabs@.take(i as int),
                plots@,
            ),
        decreases tabs@.len() - i,
    {
        assert(tabs@.take(i + 1).drop_last() =~= tabs@.take(i as int));
        match plots.get(tabs[i]) {
            Some(kind) => {
                let ghost before = out@;
                out.push((tabs[i], kind));
                assert(out@.map_values(|p: (PlotId, &PlotKind)| (p.0, *p.1))
                    =~= before.map_values(|p: (PlotId, &PlotKind)| (p.0, *p.1)).push(
                    (tabs@[i as int], *kind),
                ));
            },
            None => {},
        }
        i = i + 1;
    }
    assert(tabs@.take(tabs@.len() as int) =~= tabs@);
    out
}

/// The channels that a plot shows.
pub open spec fn shown_channels(kind: PlotKind) -> Seq<ChannelId> {
    match kind {
        PlotKind::Scalar(p) => p.channels@,
        PlotKind::LogicAnalyser(p) => p.lanes@.map_values(|l: LogicLane| l.ch),
        PlotKind::LogView(p) => p.columns@,
        PlotKind::XY(p) => seq![p.x, p.y],
    }
}

/// The channels that a plot shows.
pub fn plot_channels(kind: &PlotKind) -> (r: Vec<ChannelId>)
    ensures
        r@ == shown_channels(*kind),
{
    let mut out: Vec<ChannelId> = Vec::new();
    match kind {
        PlotKind::Scalar(p) => copy_ids(&p.channels),
        PlotKind::LogView(p) => copy_ids(&p.columns),
        PlotKind::LogicAnalyser(p) => {
            let mut i: usize = 0;
            while i < p.lanes.len()
                invariant
                    i <= p.lanes@.len(),
                    out@.len() == i,
                    forall|j: int| 0 <= j < i ==> #[trigger] out@[j] == p.lanes@[j].ch,
                decreases p.lanes@.len() - i,
            {
                out.push(p.lanes[i].ch);
                i = i + 1;
            }
            assert(out@ =~= p.lanes@.map_values(|l: LogicLane| l.ch));
            out
        },
        PlotKind::XY(p) => {
            out.push(p.x);
            out.push(p.y);
            assert(out@ =~= seq![p.x, p.y]);
            out
        },
    }
}

fn copy_ids(v: &Vec<ChannelId>) -> (r: Vec<ChannelId>)
    ensures
        r@ == v@,
{
    let r = v.clone();
    assert(r@ =~= v@);
    r
}

/// The text of a whole number.
pub open spec fn signed(v: int) -> Seq<char> {
    if v < 0 {
        "-"@ + decimal((-v) as nat)
    } else {
        decimal(v as nat)
    }
}

/// The value of a channel under the cursor: a number to six places, the label of a
/// state, or a dash where there is none.
pub open spec fn cursor_value(kind: ChannelKind, value: Option<u64>) -> Seq<char> {
    match (kind, value) {
        (ChannelKind::Scalar, Some(b)) => fixed_text(b),
        (ChannelKind::State { labels }, Some(b)) => {
            let v = int_of_double(b);
            if 0 <= v < labels@.len() {
                labels@[v]@
            } else if v < 0 && labels@.len() > 0 {
                labels@[0]@
            } else {
                signed(v)
            }
        },
        _ => "\u{2014}"@,
    }
}

/// The line of a channel under the cursor.
pub fn cursor_row(info: &ChannelInfo, value: Option<u64>) -> (r: String)
    ensures
        r@ == "  "@ + info.path@ + ": "@ + cursor_value(info.kind, value),
{
    let mut out = "  ".to_owned();
    append_text(&mut out, info.path.as_str());
    append_text(&mut out, ": ");
    match (&info.kind, value) {
        (ChannelKind::Scalar, Some(b)) => {
            append_text(&mut out, format_fixed(b).as_str());
        },
        (ChannelKind::State { labels }, Some(b)) => {
            let v: i64 = i64_of_f64(b);
            let n: usize = labels.len();
            if v >= 0 && (v as u64) < n as u64 {
                append_text(&mut out, labels[v as usize].as_str());
            } else if v < 0 && n > 0 {
                append_text(&mut out, labels[0].as_str());
            } else if v < 0 {
                append_text(&mut out, "-");
                append_digits(&mut out, (-(v as i128)) as u64, 10);
            } else {
                append_digits(&mut out, v as u64, 10);
            }
        },
        _ => {
            append_text(&mut out, "\u{2014}");
        },
    }
    assert(out@ =~= "  "@ + info.path@ + ": "@ + cursor_value(info.kind, value));
    out
}

/// Renames a plot, unless the name is blank.
pub fn rename_plot(plots: &mut PlotRegistry, id: PlotId, name: &str)
    ensures
        final(plots).next() == old(plots).next(),
        old(plots).inv() ==> final(plots).inv(),
        trimmed(name@).len() == 0 || !old(plots)@.contains_key(id.0) ==> final(plots)@
            == old(plots)@,
        trimmed(name@).len() > 0 && old(plots)@.contains_key(id.0) ==> exists|t: String|
            t@ == trimmed(name@) && final(plots)@ == old(plots)@.insert(
                id.0,
                #[trigger] old(plots)@[id.0].titled(t),
            ),
{
    let title = trimmed_text(name);
    if title.as_str().is_empty() {
        return;
    }
    match plots.get_mut(id) {
        Some(p) => {
            *p.title_mut() = title;
        },
        None => {},
    }
}

/// The message after a capture file was opened, given what is to be said of a layout.
pub open spec fn opened(c: ReplayCounts, note: Option<Seq<char>>) -> Seq<char> {
    let head = "loaded "@ + decimal(c.packets as nat) + " packets / "@ + decimal(c.entries as nat)
        + " entries"@;
    let bad = if c.skipped > 0 {
        " \u{b7} "@ + decimal(c.skipped as nat) + " bad packets skipped"@
    } else {
        Seq::empty()
    };
    let tail = match note {
        Some(n) => " \u{b7} "@ + n,
        None => Seq::empty(),
    };
    head + bad + tail
}

/// The message after a capture file was opened.
pub fn opened_message(c: ReplayCounts, note: Option<&str>) -> (r: String)
    ensures
        r@ == opened(
            c,
            match note {
                Some(n) => Some(n@),
                None => None,
            },
        ),
{
    let mut out = "loaded ".to_owned();
    append_digits(&mut out, c.packets, 10);
    append_text(&mut out, " packets / ");
    append_digits(&mut out, c.entries, 10);
    append_text(&mut out, " entries");
    if c.skipped > 0 {
        append_text(&mut out, " \u{b7} ");
        append_digits(&mut out, c.skipped, 10);
        append_text(&mut out, " bad packets skipped");
    }
    if let Some(n) = note {
        append_text(&mut out, " \u{b7} ");
        append_text(&mut out, n);
    }
    assert(out@ =~= opened(
        c,
        match note {
            Some(n) => Some(n@),
            None => None,
        },
    ));
    out
}

/// The question before data is discarded.
pub fn discard_question(packets: u64, bytes: u64, channels: usize) -> (r: String)
    ensures
        r@ == "This will drop "@ + decimal(packets as nat) + " packets ("@ + size_text(
            bytes as nat,
        ) + ") and reset "@ + decimal(channels as nat) + " channels."@,
{
    let mut out = "This will drop ".to_owned();
    append_digits(&mut out, packets, 10);
    append_text(&mut out, " packets (");
    append_text(&mut out, fmt_bytes(bytes).as_str());
    append_text(&mut out, ") and reset ");
    append_digits(&mut out, channels as u64, 10);
    append_text(&mut out, " channels.");
    out
}

/// The message after a capture was saved.
pub fn saved_message(packets: u64, bytes: u64, path: &str) -> (r: String)
    ensures
        r@ == "saved "@ + decimal(packets as nat) + " packets ("@ + size_text(bytes as nat)
            + ") to "@ + path@,
{
    let mut out = "saved ".to_owned();
    append_digits(&mut out, packets, 10);
    append_text(&mut out, " packets (");
    append_text(&mut out, fmt_bytes(bytes).as_str());
    append_text(&mut out, ") to ");
    append_text(&mut out, path);
    out
}

/// What a query of everything gives of a channel.
pub open spec fn stored(s: StoreView, ch: ChannelId, kind: KindView) -> nat {
    match kind {
        KindView::Scalar => downsampled(s.samples(ch), 0, u64::MAX, usize::MAX).len(),
        KindView::State { .. } => runs_within(s.runs(ch), 0, u64::MAX).len(),
        KindView::Text => if ch < s.texts.len() {
            texts_within(s.texts[ch as int], 0, u64::MAX, usize::MAX).len()
        } else {
            0
        },
    }
}

/// How much a query of everything gives of each channel.
pub fn samples_per_channel(store: &MockStore) -> (r: Vec<u64>)
    ensures
        r@.len() == store@.channels.len(),
        forall|i: int|
            0 <= i < r@.len() ==> #[trigger] r@[i] == stored(
                store@,
                store@.channels[i].id,
                store@.channels[i].kind,
            ),
{
    let channels = store.channels();
    let ghost views = store@.channels;
    let mut out: Vec<u64> = Vec::new();
    let mut i: usize = 0;
    while i < channels.len()
        invariant
            i <= channels@.len(),
            views == store@.channels,
            channels@.map_values(|c: ChannelInfo| c@) == views,
            out@.len() == i,
            forall|j: int|
                0 <= j < i ==> #[trigger] out@[j] == stored(store@, views[j].id, views[j].kind),
        decreases channels@.len() - i,
    {
        let c = &channels[i];
        assert(views[i as int] == c@);
        let n: usize = match c.kind {
            ChannelKind::Scalar => store.query_scalar(c.id, 0, u64::MAX, usize::MAX).len(),
            ChannelKind::State { .. } => store.query_state(c.id, 0, u64::MAX).len(),
            ChannelKind::Text => {
                let texts = store.query_text(c.id, 0, u64::MAX, usize::MAX);
                assert(crate::store::texts_view(texts@).len() == texts@.len());
                texts.len()
            },
        };
        out.push(n as u64);
        i = i + 1;
    }
    out
}

} // verus!
