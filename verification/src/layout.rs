//! Named layouts: the plots of a workspace with their channels by path, and the
//! markers and links placed in it. What is looked at right now is no part of one.

use crate::grouping::lower_chars;
use crate::markers::HALF;
use crate::panels::{LabelRadix, LaneMode, SignalStyle};
use crate::store::{ChannelId, ChannelInfo};
use crate::text::{append_digits, append_text, chars_of, same_text, string_of};
use vstd::prelude::*;

verus! {

use crate::grouping::{ascii_lower, lowered};
use crate::text::decimal;

/// The version that layouts are written in.
pub const SCHEMA_VERSION: u32 = 5;

/// A layout.
#[derive(Debug)]
pub struct Layout {
    pub version: u32,
    pub name: String,
    pub plots: Vec<PlotSpec>,
    pub markers: Vec<MarkerSpec>,
    pub links: Vec<LinkSpec>,
}

/// A saved marker.
#[derive(Debug, PartialEq, Eq)]
pub struct MarkerSpec {
    pub t_ns: u64,
    pub label: String,
    pub color: [u8; 3],
    /// The chain of the marker in layouts from before there were links.
    pub chain: Option<u64>,
}

/// A saved link between the markers at two places.
#[derive(Debug, PartialEq, Eq)]
pub struct LinkSpec {
    pub a_index: usize,
    pub b_index: usize,
    /// Height in the plot, a single.
    pub y_frac: u32,
    /// Paths of the channels whose values are shown with the link.
    pub signal_paths: Vec<String>,
}

/// A saved plot. Channels are named by their paths.
#[derive(Debug, PartialEq, Eq)]
pub enum PlotSpec {
    /// A combined plot of early layouts. It becomes a scalar plot and a logic
    /// analyser.
    TimeSeries {
        title: String,
        scalars: Vec<String>,
        states: Vec<String>,
        styles: Vec<(String, SignalStyle)>,
    },
    Scalar { title: String, channels: Vec<String>, styles: Vec<(String, SignalStyle)> },
    /// A state chart of early layouts. It becomes a logic analyser.
    StateChart { title: String, lanes: Vec<String> },
    LogicAnalyser { title: String, lanes: Vec<LogicLaneSpec> },
    Xy { title: String, x: String, y: String, trail_ns: Option<u64> },
}

/// A saved lane.
#[derive(Debug, PartialEq, Eq)]
pub struct LogicLaneSpec {
    pub ch_path: String,
    pub radix: LabelRadix,
    pub mode: LaneMode,
}

/// The mode of a saved lane that names none: lanes were numeric before they had a
/// mode.
pub fn lane_mode_numeric_default() -> (r: LaneMode)
    ensures
        r == LaneMode::Numeric,
{
    LaneMode::Numeric
}

/// The height of a saved link that names none.
pub fn default_y_frac() -> (r: u32)
    ensures
        r == HALF,
{
    HALF
}

/// What texts say.
pub open spec fn texts_of(v: Seq<String>) -> Seq<Seq<char>> {
    v.map_values(|s: String| s@)
}

/// What styles by path say.
pub open spec fn styles_of(v: Seq<(String, SignalStyle)>) -> Seq<(Seq<char>, SignalStyle)> {
    v.map_values(|p: (String, SignalStyle)| (p.0@, p.1))
}

/// What a [`LogicLaneSpec`] says.
#[verifier::ext_equal]
pub struct LaneSpecView {
    pub ch_path: Seq<char>,
    pub radix: LabelRadix,
    pub mode: LaneMode,
}

/// What saved lanes say.
pub open spec fn lane_specs_of(v: Seq<LogicLaneSpec>) -> Seq<LaneSpecView> {
    v.map_values(
        |l: LogicLaneSpec| LaneSpecView { ch_path: l.ch_path@, radix: l.radix, mode: l.mode },
    )
}

/// What a [`PlotSpec`] says.
#[verifier::ext_equal]
pub enum PlotSpecView {
    TimeSeries {
        title: Seq<char>,
        scalars: Seq<Seq<char>>,
        states: Seq<Seq<char>>,
        styles: Seq<(Seq<char>, SignalStyle)>,
    },
    Scalar {
        title: Seq<char>,
        channels: Seq<Seq<char>>,
        styles: Seq<(Seq<char>, SignalStyle)>,
    },
    StateChart { title: Seq<char>, lanes: Seq<Seq<char>> },
    LogicAnalyser { title: Seq<char>, lanes: Seq<LaneSpecView> },
    Xy { title: Seq<char>, x: Seq<char>, y: Seq<char>, trail_ns: Option<u64> },
}

impl View for PlotSpec {
    type V = PlotSpecView;

    open spec fn view(&self) -> PlotSpecView {
        match self {
            PlotSpec::TimeSeries { title, scalars, states, styles } => PlotSpecView::TimeSeries {
                title: title@,
                scalars: texts_of(scalars@),
                states: texts_of(states@),
                styles: styles_of(styles@),
            },
            PlotSpec::Scalar { title, channels, styles } => PlotSpecView::Scalar {
                title: title@,
                channels: texts_of(channels@),
                styles: styles_of(styles@),
            },
            PlotSpec::StateChart { title, lanes } => PlotSpecView::StateChart {
                title: title@,
                lanes: texts_of(lanes@),
            },
            PlotSpec::LogicAnalyser { title, lanes } => PlotSpecView::LogicAnalyser {
                title: title@,
                lanes: lane_specs_of(lanes@),
            },
            PlotSpec::Xy { title, x, y, trail_ns } => PlotSpecView::Xy {
                title: title@,
                x: x@,
                y: y@,
                trail_ns: *trail_ns,
            },
        }
    }
}

/// What a [`MarkerSpec`] says.
#[verifier::ext_equal]
pub struct MarkerSpecView {
    pub t_ns: u64,
    pub label: Seq<char>,
    pub color: [u8; 3],
    pub chain: Option<u64>,
}

impl View for MarkerSpec {
    type V = MarkerSpecView;

    open spec fn view(&self) -> MarkerSpecView {
        MarkerSpecView {
            t_ns: self.t_ns,
            label: self.label@,
            color: self.color,
            chain: self.chain,
        }
    }
}

/// What a [`LinkSpec`] says.
#[verifier::ext_equal]
pub struct LinkSpecView {
    pub a_index: usize,
    pub b_index: usize,
    pub y_frac: u32,
    pub signal_paths: Seq<Seq<char>>,
}

impl View for LinkSpec {
    type V = LinkSpecView;

    open spec fn view(&self) -> LinkSpecView {
        LinkSpecView {
            a_index: self.a_index,
            b_index: self.b_index,
            y_frac: self.y_frac,
            signal_paths: texts_of(self.signal_paths@),
        }
    }
}

/// What saved links say.
pub open spec fn link_specs_of(v: Seq<LinkSpec>) -> Seq<LinkSpecView> {
    v.map_values(|l: LinkSpec| l@)
}

/// What saved markers say.
pub open spec fn marker_specs_of(v: Seq<MarkerSpec>) -> Seq<MarkerSpecView> {
    v.map_values(|m: MarkerSpec| m@)
}

/// Whether a character may stand in a file name as it is, but for its case.
pub open spec fn is_plain(c: char) -> bool {
    ('a' <= c <= 'z') || ('A' <= c <= 'Z') || ('0' <= c <= '9') || c == '_' || c == '-'
}

/// A name with its letters lowered and each run of other characters made one dash.
pub open spec fn dashed(s: Seq<char>) -> Seq<char>
    decreases s.len(),
{
    if s.len() == 0 {
        Seq::empty()
    } else {
        let before = dashed(s.drop_last());
        if is_plain(s.last()) {
            before.push(ascii_lower(s.last()))
        } else if s.len() > 1 && !is_plain(s[s.len() - 2]) {
            before
        } else {
            before.push('-')
        }
    }
}

/// A text without the dashes that it starts with.
pub open spec fn without_leading(s: Seq<char>) -> Seq<char>
    decreases s.len(),
{
    if s.len() > 0 && s[0] == '-' {
        without_leading(s.skip(1))
    } else {
        s
    }
}

/// A text without the dashes that it ends with.
pub open spec fn without_trailing(s: Seq<char>) -> Seq<char>
    decreases s.len(),
{
    if s.len() > 0 && s.last() == '-' {
        without_trailing(s.drop_last())
    } else {
        s
    }
}

/// The file name for a layout's name: small letters, digits, underscores and dashes
/// stay, and what else there is becomes a dash. Nothing left is "untitled".
pub open spec fn slug_of(name: Seq<char>) -> Seq<char> {
    let t = without_trailing(without_leading(dashed(name)));
    if t.len() == 0 {
        "untitled"@
    } else {
        t
    }
}

fn is_plain_char(c: char) -> (r: bool)
    ensures
        r == is_plain(c),
{
    ('a' <= c && c <= 'z') || ('A' <= c && c <= 'Z') || ('0' <= c && c <= '9') || c == '_' || c
        == '-'
}

/// The file name for a layout's name.
pub fn slug(name: &str) -> (r: String)
    ensures
        r@ == slug_of(name@),
{
    let v = chars_of(name);
    let low = lower_chars(name);
    let mut out: Vec<char> = Vec::new();
    let mut last_dash = false;
    let mut i: usize = 0;
    while i < v.len()
        invariant
            i <= v@.len(),
            v@ == name@,
            low@ == lowered(name@),
            out@ == dashed(v@.take(i as int)),
            last_dash == (i > 0 && !is_plain(v@[i - 1])),
        decreases v@.len() - i,
    {
        let c: char = v[i];
        assert(v@.take(i + 1).drop_last() =~= v@.take(i as int));
        if is_plain_char(c) {
            out.push(low[i]);
            last_dash = false;
        } else {
            if !last_dash {
                out.push('-');
            }
            last_dash = true;
        }
        i = i + 1;
    }
    assert(v@.take(v@.len() as int) =~= v@);
    let mut start: usize = 0;
    assert(out@.skip(0) =~= out@);
    while start < out.len() && out[start] == '-'
        invariant
            start <= out@.len(),
            without_leading(out@) == without_leading(out@.skip(start as int)),
        decreases out@.len() - start,
    {
        assert(out@.skip(start as int).skip(1) =~= out@.skip(start + 1));
        start = start + 1;
    }
    let mut end: usize = out.len();
    let ghost cut = out@.skip(start as int);
    assert(out@.subrange(start as int, end as int) =~= cut);
    while end > start && out[end - 1] == '-'
        invariant
            start <= end <= out@.len(),
            without_trailing(cut) == without_trailing(out@.subrange(start as int, end as int)),
        decreases end,
    {
        assert(out@.subrange(start as int, end as int).drop_last() =~= out@.subrange(
            start as int,
            end - 1,
        ));
        end = end - 1;
    }
    if start == end {
        return "untitled".to_owned();
    }
    let mut kept: Vec<char> = Vec::new();
    let mut k: usize = start;
    while k < end
        invariant
            start <= k <= end <= out@.len(),
            kept@ == out@.subrange(start as int, k as int),
        decreases end - k,
    {
        kept.push(out[k]);
        assert(kept@ =~= out@.subrange(start as int, k + 1));
        k = k + 1;
    }
    string_of(&kept)
}

/// Whether a character is a small letter, a digit, an underscore or a dash.
pub open spec fn is_safe(c: char) -> bool {
    ('a' <= c <= 'z') || ('0' <= c <= '9') || c == '_' || c == '-'
}

/// Whether all characters of a text are safe.
pub open spec fn all_safe(s: Seq<char>) -> bool {
    forall|i: int| 0 <= i < s.len() ==> is_safe(#[trigger] s[i])
}

proof fn lemma_dashed_safe(s: Seq<char>)
    ensures
        all_safe(dashed(s)),
        all_safe(s) ==> dashed(s) == s,
    decreases s.len(),
{
    if s.len() > 0 {
        lemma_dashed_safe(s.drop_last());
        assert(s.last() == s[s.len() - 1]);
        if all_safe(s) {
            assert(all_safe(s.drop_last()));
            assert(is_safe(s[s.len() - 1]));
            assert(dashed(s) =~= s);
        }
    }
}

proof fn lemma_trim_safe(s: Seq<char>)
    requires
        all_safe(s),
    ensures
        all_safe(without_leading(s)),
        all_safe(without_trailing(s)),
        without_leading(s).len() > 0 ==> without_leading(s)[0] != '-',
        without_trailing(s).len() > 0 ==> without_trailing(s).last() != '-',
        without_trailing(s).len() > 0 ==> without_trailing(s)[0] == s[0] && s.len() > 0,
    decreases s.len(),
{
    if s.len() > 0 {
        if s[0] == '-' {
            lemma_trim_safe(s.skip(1));
        }
        if s.last() == '-' {
            lemma_trim_safe(s.drop_last());
        }
    }
}

/// The file name of every layout is made of small letters, digits, underscores and
/// dashes, is not empty, and neither starts nor ends with a dash.
pub proof fn law_slug_is_file_name_safe(name: Seq<char>)
    ensures
        all_safe(slug_of(name)),
        slug_of(name).len() > 0,
        slug_of(name)[0] != '-',
        slug_of(name).last() != '-',
{
    lemma_dashed_safe(name);
    lemma_trim_safe(dashed(name));
    lemma_trim_safe(without_leading(dashed(name)));
    reveal_strlit("untitled");
}

/// A file name stands for itself.
pub proof fn law_slug_is_stable(name: Seq<char>)
    ensures
        slug_of(slug_of(name)) == slug_of(name),
{
    law_slug_is_file_name_safe(name);
    lemma_dashed_safe(slug_of(name));
}

/// The name of the file that a layout is saved in.
pub fn file_name_for(name: &str) -> (r: String)
    ensures
        r@ == slug_of(name@) + ".json"@,
{
    let mut out = slug(name);
    append_text(&mut out, ".json");
    out
}

/// Whether a layout of the version can be loaded. Earlier versions are: those with
/// combined plots, those with state charts, those without markers and those with
/// chains.
pub fn version_supported(version: u32) -> (r: bool)
    ensures
        r == (1 <= version <= SCHEMA_VERSION),
{
    1 <= version && version <= SCHEMA_VERSION
}

/// The last place before `n` of a marker of the chain, or -1.
pub open spec fn chain_before(m: Seq<MarkerSpecView>, c: u64, n: int) -> int
    decreases n,
{
    if n <= 0 {
        -1
    } else if m[n - 1].chain == Some(c) {
        n - 1
    } else {
        chain_before(m, c, n - 1)
    }
}

/// A link at half height between two places, without signals.
pub open spec fn chain_link(a: int, b: int) -> LinkSpecView {
    LinkSpecView {
        a_index: a as usize,
        b_index: b as usize,
        y_frac: HALF,
        signal_paths: Seq::empty(),
    }
}

/// The links of the chain among the first `n` markers: each one to the next.
pub open spec fn links_of_chain(m: Seq<MarkerSpecView>, c: u64, n: int) -> Seq<LinkSpecView>
    decreases n,
{
    if n <= 0 {
        Seq::empty()
    } else {
        let before = links_of_chain(m, c, n - 1);
        if m[n - 1].chain == Some(c) && chain_before(m, c, n - 1) >= 0 {
            before.push(chain_link(chain_before(m, c, n - 1), n - 1))
        } else {
            before
        }
    }
}

/// The links of the chains that begin among the first `n` markers, one chain after
/// another.
pub open spec fn chain_links(m: Seq<MarkerSpecView>, n: int) -> Seq<LinkSpecView>
    decreases n,
{
    if n <= 0 {
        Seq::empty()
    } else {
        let before = chain_links(m, n - 1);
        match m[n - 1].chain {
            Some(c) => if chain_before(m, c, n - 1) < 0 {
                before + links_of_chain(m, c, m.len() as int)
            } else {
                before
            },
            None => before,
        }
    }
}

fn previous_in_chain(markers: &Vec<MarkerSpec>, c: u64, n: usize) -> (r: Option<usize>)
    requires
        n <= markers@.len(),
    ensures
        match r {
            Some(i) => i == chain_before(marker_specs_of(markers@), c, n as int),
            None => chain_before(marker_specs_of(markers@), c, n as int) == -1,
        },
{
    let ghost m = marker_specs_of(markers@);
    let mut k: usize = n;
    while k > 0 && markers[k - 1].chain != Some(c)
        invariant
            k <= n <= markers@.len(),
            m == marker_specs_of(markers@),
            chain_before(m, c, n as int) == chain_before(m, c, k as int),
        decreases k,
    {
        assert(m[k - 1].chain == markers@[k - 1].chain);
        k = k - 1;
    }
    if k > 0 {
        assert(m[k - 1].chain == markers@[k - 1].chain);
        Some(k - 1)
    } else {
        None
    }
}

/// The links that stand for the chains of early layouts: each marker of a chain is
/// linked to the next one of it, in the order of the markers.
pub fn migrate_chains_to_links(markers: &Vec<MarkerSpec>) -> (r: Vec<LinkSpec>)
    ensures
        link_specs_of(r@) == chain_links(marker_specs_of(markers@), markers@.len() as int),
{
    let ghost m = marker_specs_of(markers@);
    let mut out: Vec<LinkSpec> = Vec::new();
    let mut i: usize = 0;
    assert(link_specs_of(out@) =~= Seq::empty());
    while i < markers.len()
        invariant
            i <= markers@.len(),
            m == marker_specs_of(markers@),
            link_specs_of(out@) == chain_links(m, i as int),
        decreases markers@.len() - i,
    {
        assert(m[i as int].chain == markers@[i as int].chain);
        match markers[i].chain {
            Some(c) => {
                if previous_in_chain(markers, c, i).is_none() {
                    let ghost before = link_specs_of(out@);
                    let mut k: usize = 0;
                    assert(before + links_of_chain(m, c, 0) =~= before);
                    while k < markers.len()
                        invariant
                            k <= markers@.len(),
                            m == marker_specs_of(markers@),
                            link_specs_of(out@) == before + links_of_chain(m, c, k as int),
                        decreases markers@.len() - k,
                    {
                        assert(m[k as int].chain == markers@[k as int].chain);
                        if markers[k].chain == Some(c) {
                            match previous_in_chain(markers, c, k) {
                                Some(p) => {
                                    let ghost have = out@;
                                    let link = LinkSpec {
                                        a_index: p,
                                        b_index: k,
                                        y_frac: HALF,
                                        signal_paths: Vec::new(),
                                    };
                                    assert(link@ =~= chain_link(p as int, k as int));
                                    out.push(link);
                                    assert(link_specs_of(out@) =~= link_specs_of(have).push(
                                        chain_link(p as int, k as int),
                                    ));
                                    assert(link_specs_of(out@) =~= before + links_of_chain(
                                        m,
                                        c,
                                        k + 1,
                                    ));
                                },
                                None => {},
                            }
                        }
                        k = k + 1;
                    }
                    assert(m.len() == markers@.len());
                }
            },
            None => {},
        }
        i = i + 1;
    }
    out
}

/// Brings a layout with chains to the present version: where it has no links, its
/// chains become links.
pub fn upgrade(layout: Layout) -> (r: Layout)
    ensures
        layout.version == 4 && layout.links@.len() == 0 ==> {
            &&& r.version == SCHEMA_VERSION
            &&& link_specs_of(r.links@) == chain_links(
                marker_specs_of(layout.markers@),
                layout.markers@.len() as int,
            )
            &&& r.name == layout.name
            &&& r.plots == layout.plots
            &&& r.markers == layout.markers
        },
        !(layout.version == 4 && layout.links@.len() == 0) ==> r == layout,
{
    if layout.version == 4 && layout.links.len() == 0 {
        let links = migrate_chains_to_links(&layout.markers);
        Layout { version: SCHEMA_VERSION, links, ..layout }
    } else {
        layout
    }
}

/// The first place at or after `i` of a channel with the path, or the end.
pub open spec fn path_place(channels: Seq<ChannelInfo>, path: Seq<char>, i: int) -> int
    decreases channels.len() - i,
{
    if i >= channels.len() || channels[i].path@ == path {
        i
    } else {
        path_place(channels, path, i + 1)
    }
}

/// The channels with the paths, as far as there are such channels; of several with
/// one path the first.
pub open spec fn resolved(paths: Seq<Seq<char>>, channels: Seq<ChannelInfo>) -> Seq<ChannelId>
    decreases paths.len(),
{
    if paths.len() == 0 {
        Seq::empty()
    } else {
        let before = resolved(paths.drop_last(), channels);
        let i = path_place(channels, paths.last(), 0);
        if i < channels.len() {
            before.push(channels[i].id)
        } else {
            before
        }
    }
}

impl LinkSpec {
    /// The channels of the link's signals, as far as they are there.
    pub fn signals_resolved(&self, channels: &[ChannelInfo]) -> (r: Vec<ChannelId>)
        ensures
            r@ == resolved(self@.signal_paths, channels@),
    {
        let ghost paths = self@.signal_paths;
        let mut out: Vec<ChannelId> = Vec::new();
        let mut k: usize = 0;
        while k < self.signal_paths.len()
            invariant
                k <= self.signal_paths@.len(),
                paths == texts_of(self.signal_paths@),
                out@ == resolved(paths.take(k as int), channels@),
            decreases self.signal_paths@.len() - k,
        {
            let path = self.signal_paths[k].as_str();
            let mut i: usize = 0;
            while i < channels.len() && !same_text(channels[i].path.as_str(), path)
                invariant
                    i <= channels@.len(),
                    path_place(channels@, path@, 0) == path_place(channels@, path@, i as int),
                decreases channels@.len() - i,
            {
                i = i + 1;
            }
            proof {
                assert(paths.take(k + 1).drop_last() =~= paths.take(k as int));
                assert(paths.take(k + 1).last() == path@);
            }
            if i < channels.len() {
                out.push(channels[i].id);
            }
            k = k + 1;
        }
        assert(paths.take(self.signal_paths@.len() as int) =~= paths);
        out
    }
}

/// What applying a layout left out.
#[derive(Debug, PartialEq, Eq)]
pub struct ApplyReport {
    /// Paths that no fitting channel has, each once, in the order they came up.
    pub missing_paths: Vec<String>,
    /// Plots that could not be made.
    pub dropped_plots: usize,
}

/// The paths with one more, unless it is there already.
pub open spec fn noted(missing: Seq<Seq<char>>, path: Seq<char>) -> Seq<Seq<char>> {
    if missing.contains(path) {
        missing
    } else {
        missing.push(path)
    }
}

impl ApplyReport {
    pub fn new() -> (r: Self)
        ensures
            texts_of(r.missing_paths@) == Seq::<Seq<char>>::empty(),
            r.dropped_plots == 0,
    {
        let r = ApplyReport { missing_paths: Vec::new(), dropped_plots: 0 };
        assert(texts_of(r.missing_paths@) =~= Seq::empty());
        r
    }

    pub fn missing_count(&self) -> (r: usize)
        ensures
            r == self.missing_paths@.len(),
    {
        self.missing_paths.len()
    }

    /// Notes a path that no fitting channel has.
    pub fn add_missing(&mut self, path: &str)
        ensures
            texts_of(final(self).missing_paths@) == noted(
                texts_of(old(self).missing_paths@),
                path@,
            ),
            final(self).dropped_plots == old(self).dropped_plots,
    {
        let ghost have = texts_of(self.missing_paths@);
        let mut i: usize = 0;
        while i < self.missing_paths.len() && !same_text(self.missing_paths[i].as_str(), path)
            invariant
                i <= self.missing_paths@.len(),
                have == texts_of(self.missing_paths@),
                forall|j: int| 0 <= j < i ==> #[trigger] have[j] != path@,
            decreases self.missing_paths@.len() - i,
        {
            assert(have[i as int] == self.missing_paths@[i as int]@);
            i = i + 1;
        }
        if i == self.missing_paths.len() {
            let ghost before = self.missing_paths@;
            self.missing_paths.push(path.to_owned());
            assert(texts_of(self.missing_paths@) =~= texts_of(before).push(path@));
        } else {
            assert(have[i as int] == path@);
        }
    }
}

/// The first of some paths, joined by commas.
pub open spec fn listed(paths: Seq<Seq<char>>, n: nat) -> Seq<char>
    decreases n,
{
    if n == 0 {
        Seq::empty()
    } else if n == 1 {
        paths[0]
    } else {
        listed(paths, (n - 1) as nat) + ", "@ + paths[n - 1]
    }
}

/// Paths that a message names at most; the rest are counted.
pub const PREVIEW: usize = 2;

/// The text for missing channels.
pub open spec fn missing_text(paths: Seq<Seq<char>>) -> Seq<char> {
    let shown = if paths.len() < PREVIEW {
        paths.len()
    } else {
        PREVIEW as nat
    };
    let tail = if paths.len() > PREVIEW {
        ", +"@ + decimal((paths.len() - PREVIEW) as nat) + " more"@
    } else {
        Seq::empty()
    };
    decimal(paths.len()) + " unknown channel(s): "@ + listed(paths, shown) + tail
}

/// The text for dropped plots.
pub open spec fn dropped_text(n: nat) -> Seq<char> {
    decimal(n) + " plot(s) dropped"@
}

/// The end of a message about an applied layout: what is missing and how many plots
/// were dropped, between the given marks; empty where there is neither.
pub open spec fn apply_suffix(
    missing: Seq<Seq<char>>,
    dropped: nat,
    open: Seq<char>,
    close: Seq<char>,
) -> Seq<char> {
    if missing.len() == 0 && dropped == 0 {
        Seq::empty()
    } else {
        let first = if missing.len() > 0 {
            missing_text(missing)
        } else {
            Seq::empty()
        };
        let second = if dropped == 0 {
            Seq::empty()
        } else if missing.len() > 0 {
            "; "@ + dropped_text(dropped)
        } else {
            dropped_text(dropped)
        };
        open + first + second + close
    }
}

/// The end of a message about an applied layout.
pub fn format_apply_suffix(report: &ApplyReport, open: &str, close: &str) -> (r: String)
    ensures
        r@ == apply_suffix(
            texts_of(report.missing_paths@),
            report.dropped_plots as nat,
            open@,
            close@,
        ),
{
    let ghost paths = texts_of(report.missing_paths@);
    let missing: usize = report.missing_count();
    let mut out = String::new();
    if missing == 0 && report.dropped_plots == 0 {
        assert(out@ =~= apply_suffix(paths, 0, open@, close@));
        return out;
    }
    append_text(&mut out, open);
    let ghost lead = out@;
    let ghost first = Seq::<char>::empty();
    if missing > 0 {
        append_digits(&mut out, missing as u64, 10);
        append_text(&mut out, " unknown channel(s): ");
        let shown: usize = if missing < PREVIEW {
            missing
        } else {
            PREVIEW
        };
        let ghost head = out@;
        let mut i: usize = 0;
        assert(out@ =~= head + listed(paths, 0));
        while i < shown
            invariant
                i <= shown <= report.missing_paths@.len(),
                paths == texts_of(report.missing_paths@),
                out@ == head + listed(paths, i as nat),
            decreases shown - i,
        {
            if i > 0 {
                append_text(&mut out, ", ");
            }
            append_text(&mut out, report.missing_paths[i].as_str());
            proof {
                assert(paths[i as int] == report.missing_paths@[i as int]@);
                reveal_with_fuel(listed, 2);
                assert(out@ =~= head + listed(paths, (i + 1) as nat));
            }
            i = i + 1;
        }
        if missing > PREVIEW {
            append_text(&mut out, ", +");
            append_digits(&mut out, (missing - PREVIEW) as u64, 10);
            append_text(&mut out, " more");
        }
        proof {
            first = missing_text(paths);
            assert(out@ =~= lead + first);
        }
    }
    if report.dropped_plots > 0 {
        if missing > 0 {
            append_text(&mut out, "; ");
        }
        append_digits(&mut out, report.dropped_plots as u64, 10);
        append_text(&mut out, " plot(s) dropped");
    }
    append_text(&mut out, close);
    assert(out@ =~= apply_suffix(paths, report.dropped_plots as nat, open@, close@));
    out
}

} // verus!
