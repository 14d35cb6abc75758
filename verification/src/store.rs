//! The sample store: channels, their samples, and the queries a viewer makes.
//!
//! Numeric channels hold doubles, as bit patterns. Boolean and enum channels
//! hold runs of a small integer with a label table.

use crate::num::{f64_of_u64, f64_quotient, i64_of_f64, number_max, number_min};
use std::collections::HashMap;
use vstd::prelude::*;

verus! {

use crate::num::{
    double_of_nat, double_quotient, greater, int_of_double, is_middling, is_nan,
    lemma_double_of_nat_monotone, lemma_int_of_double_monotone, lemma_quotient_monotone, lesser,
    rank,
};

broadcast use vstd::std_specs::hash::group_hash_axioms;

/// Stable identifier for a channel within a session.
pub type ChannelId = u32;

/// Nanoseconds since an arbitrary monotonic epoch.
pub type Timestamp = u64;

/// Inclusive-exclusive time interval `[t0, t1)`.
pub type TimeRange = (Timestamp, Timestamp);

/// What a channel contains.
#[derive(Debug, PartialEq, Eq)]
pub enum ChannelKind {
    /// Continuous numeric signal.
    Scalar,
    /// Discrete value with a small, known label set. `labels[value]` is the
    /// display string.
    State { labels: Vec<String> },
    /// Fixed-length text.
    Text,
}

/// Description of a channel exposed by a store.
#[derive(Debug, PartialEq, Eq)]
pub struct ChannelInfo {
    pub id: ChannelId,
    /// Dotted path used by the channel tree, e.g. `"imu.accel_x"`.
    pub path: String,
    pub kind: ChannelKind,
    /// Whether the underlying storage is an integer type.
    pub integer_storage: bool,
}

/// What a [`ChannelKind`] says.
#[verifier::ext_equal]
pub enum KindView {
    Scalar,
    State { labels: Seq<Seq<char>> },
    Text,
}

/// What a [`ChannelInfo`] says.
#[verifier::ext_equal]
pub struct ChannelView {
    pub id: ChannelId,
    pub path: Seq<char>,
    pub kind: KindView,
    pub integer_storage: bool,
}

impl View for ChannelKind {
    type V = KindView;

    open spec fn view(&self) -> KindView {
        match self {
            ChannelKind::Scalar => KindView::Scalar,
            ChannelKind::State { labels } => KindView::State {
                labels: labels@.map_values(|l: String| l@),
            },
            ChannelKind::Text => KindView::Text,
        }
    }
}

impl View for ChannelInfo {
    type V = ChannelView;

    open spec fn view(&self) -> ChannelView {
        ChannelView {
            id: self.id,
            path: self.path@,
            kind: self.kind@,
            integer_storage: self.integer_storage,
        }
    }
}

/// A copy of a list of texts.
pub fn copy_texts(v: &Vec<String>) -> (r: Vec<String>)
    ensures
        r@.map_values(|l: String| l@) == v@.map_values(|l: String| l@),
{
    let mut out: Vec<String> = Vec::new();
    let mut i: usize = 0;
    while i < v.len()
        invariant
            i <= v@.len(),
            out@.len() == i,
            forall|j: int| 0 <= j < i ==> (#[trigger] out@[j])@ == v@[j]@,
        decreases v@.len() - i,
    {
        out.push(v[i].clone());
        i = i + 1;
    }
    assert(out@.map_values(|l: String| l@) =~= v@.map_values(|l: String| l@));
    out
}

impl Clone for ChannelKind {
    fn clone(&self) -> (r: Self)
        ensures
            r@ == self@,
    {
        match self {
            ChannelKind::Scalar => ChannelKind::Scalar,
            ChannelKind::State { labels } => ChannelKind::State { labels: copy_texts(labels) },
            ChannelKind::Text => ChannelKind::Text,
        }
    }
}

impl Clone for ChannelInfo {
    fn clone(&self) -> (r: Self)
        ensures
            r@ == self@,
    {
        ChannelInfo {
            id: self.id,
            path: self.path.clone(),
            kind: self.kind.clone(),
            integer_storage: self.integer_storage,
        }
    }
}

/// One bucket of a down-sampled query. For raw data `min == max`, and the bucket
/// is a single sample at time `t`.
#[derive(Clone, Copy, Debug, PartialEq, Eq, Structural)]
pub struct Bucket {
    pub t: Timestamp,
    pub min: u64,
    pub max: u64,
}

/// One run of a state channel: value held over `[t_start, t_end)`.
#[derive(Clone, Copy, Debug, PartialEq, Eq, Structural)]
pub struct StateRun {
    pub t_start: Timestamp,
    pub t_end: Timestamp,
    pub value: u32,
}

/// The value of a channel at a time.
#[derive(Clone, Copy, Debug, PartialEq, Eq, Structural)]
pub enum Sample {
    /// A value that was recorded, or held, at that time.
    Exact(u64),
    /// The line between two recorded samples around that time.
    Between { t_a: Timestamp, v_a: u64, t_b: Timestamp, v_b: u64 },
}

/// What a store holds.
#[verifier::ext_equal]
pub struct StoreView {
    pub channels: Seq<ChannelView>,
    pub scalars: Seq<Seq<(u64, u64)>>,
    pub states: Seq<Seq<StateRun>>,
    pub texts: Seq<Seq<(u64, Seq<char>)>>,
    pub revision: u64,
    pub words: Map<ChannelId, Seq<ChannelId>>,
}

/// In-memory store of channels and samples.
pub struct MockStore {
    channels: Vec<ChannelInfo>,
    scalars: Vec<Vec<(u64, u64)>>,
    states: Vec<Vec<StateRun>>,
    texts: Vec<Vec<(u64, String)>>,
    revision: u64,
    word_to_bits: HashMap<ChannelId, Vec<ChannelId>>,
}

/// The text samples of one channel.
pub open spec fn texts_view(v: Seq<(u64, String)>) -> Seq<(u64, Seq<char>)> {
    v.map_values(|p: (u64, String)| (p.0, p.1@))
}

impl View for MockStore {
    type V = StoreView;

    closed spec fn view(&self) -> StoreView {
        StoreView {
            channels: self.channels@.map_values(|c: ChannelInfo| c@),
            scalars: self.scalars@.map_values(|v: Vec<(u64, u64)>| v@),
            states: self.states@.map_values(|v: Vec<StateRun>| v@),
            texts: self.texts@.map_values(|v: Vec<(u64, String)>| texts_view(v@)),
            revision: self.revision,
            words: self.word_to_bits@.map_values(|v: Vec<ChannelId>| v@),
        }
    }
}

impl StoreView {
    /// Every channel has its place in each of the sample tables, and the
    /// channel's number is its place.
    pub open spec fn wf(self) -> bool {
        &&& self.scalars.len() == self.channels.len()
        &&& self.states.len() == self.channels.len()
        &&& self.texts.len() == self.channels.len()
        &&& forall|i: int|
            0 <= i < self.channels.len() ==> (#[trigger] self.channels[i]).id == i as u32
    }

    /// The store with one more channel and a new revision.
    pub open spec fn with_channel(
        self,
        path: Seq<char>,
        kind: KindView,
        integer_storage: bool,
    ) -> StoreView {
        StoreView {
            channels: self.channels.push(
                ChannelView {
                    id: self.channels.len() as u32,
                    path,
                    kind,
                    integer_storage,
                },
            ),
            scalars: self.scalars.push(Seq::empty()),
            states: self.states.push(Seq::empty()),
            texts: self.texts.push(Seq::empty()),
            revision: next_revision(self.revision),
            ..self
        }
    }

    /// The store with one more numeric sample, where the channel exists.
    pub open spec fn with_scalar(self, ch: ChannelId, t: u64, v: u64) -> StoreView {
        if ch < self.scalars.len() {
            StoreView {
                scalars: self.scalars.update(ch as int, self.scalars[ch as int].push((t, v))),
                revision: next_revision(self.revision),
                ..self
            }
        } else {
            self
        }
    }

    /// The store with one more state observation, where the channel exists.
    pub open spec fn with_state(self, ch: ChannelId, t: u64, value: u32) -> StoreView {
        if ch < self.states.len() {
            StoreView {
                states: self.states.update(ch as int, observe(self.states[ch as int], t, value)),
                revision: next_revision(self.revision),
                ..self
            }
        } else {
            self
        }
    }

    /// The store with one more text sample, where the channel exists.
    pub open spec fn with_text(self, ch: ChannelId, t: u64, text: Seq<char>) -> StoreView {
        if ch < self.texts.len() {
            StoreView {
                texts: self.texts.update(ch as int, self.texts[ch as int].push((t, text))),
                revision: next_revision(self.revision),
                ..self
            }
        } else {
            self
        }
    }

    /// The store with the bits of one bitfield word recorded.
    pub open spec fn with_word(self, word: ChannelId, bits: Seq<ChannelId>) -> StoreView {
        StoreView { words: self.words.insert(word, bits), ..self }
    }

    /// The store without channels and samples, under a new revision.
    pub open spec fn cleared(self) -> StoreView {
        StoreView {
            channels: Seq::empty(),
            scalars: Seq::empty(),
            states: Seq::empty(),
            texts: Seq::empty(),
            revision: next_revision(self.revision),
            words: Map::empty(),
        }
    }
}

/// The revision after `r`.
pub open spec fn next_revision(r: u64) -> u64 {
    if r == u64::MAX {
        0
    } else {
        (r + 1) as u64
    }
}

/// The runs after one more observation: the current run is extended to it, and
/// ends there if the value is another.
pub open spec fn observe(runs: Seq<StateRun>, t: u64, value: u32) -> Seq<StateRun> {
    let fresh = StateRun { t_start: t, t_end: t, value };
    if runs.len() == 0 {
        seq![fresh]
    } else {
        let extended = runs.update(
            runs.len() - 1,
            StateRun { t_end: t, ..runs.last() },
        );
        if runs.last().value == value {
            extended
        } else {
            extended.push(fresh)
        }
    }
}

fn bump(r: u64) -> (n: u64)
    ensures
        n == next_revision(r),
{
    if r == u64::MAX {
        0
    } else {
        r + 1
    }
}

impl MockStore {
    pub fn new() -> (r: Self)
        ensures
            r@.wf(),
            r@ == (StoreView {
                channels: Seq::empty(),
                scalars: Seq::empty(),
                states: Seq::empty(),
                texts: Seq::empty(),
                revision: 0,
                words: Map::empty(),
            }),
    {
        let r = MockStore {
            channels: Vec::new(),
            scalars: Vec::new(),
            states: Vec::new(),
            texts: Vec::new(),
            revision: 0,
            word_to_bits: HashMap::new(),
        };
        assert(r@.channels =~= Seq::empty());
        assert(r@.scalars =~= Seq::empty());
        assert(r@.states =~= Seq::empty());
        assert(r@.texts =~= Seq::empty());
        assert(r@.words =~= Map::empty());
        r
    }

    /// Registers a scalar channel with floating-point storage.
    pub fn add_scalar(&mut self, path: &str) -> (id: ChannelId)
        requires
            old(self)@.wf(),
        ensures
            final(self)@.wf(),
            id == old(self)@.channels.len() as u32,
            final(self)@ == old(self)@.with_channel(path@, KindView::Scalar, false),
    {
        self.add_channel(path.to_owned(), ChannelKind::Scalar, false)
    }

    /// Registers a scalar channel whose underlying storage is an integer type.
    pub fn add_scalar_int(&mut self, path: &str) -> (id: ChannelId)
        requires
            old(self)@.wf(),
        ensures
            final(self)@.wf(),
            id == old(self)@.channels.len() as u32,
            final(self)@ == old(self)@.with_channel(path@, KindView::Scalar, true),
    {
        self.add_channel(path.to_owned(), ChannelKind::Scalar, true)
    }

    /// Registers a state channel with the given labels. State channels always
    /// have integer storage.
    pub fn add_state(&mut self, path: &str, labels: &[&str]) -> (id: ChannelId)
        requires
            old(self)@.wf(),
        ensures
            final(self)@.wf(),
            id == old(self)@.channels.len() as u32,
            final(self)@ == old(self)@.with_channel(
                path@,
                KindView::State { labels: labels@.map_values(|l: &str| l@) },
                true,
            ),
    {
        let mut owned: Vec<String> = Vec::new();
        let mut i: usize = 0;
        while i < labels.len()
            invariant
                i <= labels@.len(),
                owned@.len() == i,
                forall|j: int| 0 <= j < i ==> (#[trigger] owned@[j])@ == labels@[j]@,
            decreases labels@.len() - i,
        {
            owned.push(labels[i].to_owned());
            i = i + 1;
        }
        assert(owned@.map_values(|l: String| l@) =~= labels@.map_values(|l: &str| l@));
        self.add_channel(path.to_owned(), ChannelKind::State { labels: owned }, true)
    }

    /// Registers a text channel.
    pub fn add_text(&mut self, path: &str) -> (id: ChannelId)
        requires
            old(self)@.wf(),
        ensures
            final(self)@.wf(),
            id == old(self)@.channels.len() as u32,
            final(self)@ == old(self)@.with_channel(path@, KindView::Text, false),
    {
        self.add_channel(path.to_owned(), ChannelKind::Text, false)
    }

    /// Registers a channel under the next free number.
    pub fn add_channel(&mut self, path: String, kind: ChannelKind, integer_storage: bool) -> (id:
        ChannelId)
        requires
            old(self)@.wf(),
        ensures
            final(self)@.wf(),
            id == old(self)@.channels.len() as u32,
            final(self)@ == old(self)@.with_channel(path@, kind@, integer_storage),
    {
        let id: ChannelId = self.channels.len() as u32;
        self.channels.push(ChannelInfo { id, path, kind, integer_storage });
        self.scalars.push(Vec::new());
        self.states.push(Vec::new());
        self.texts.push(Vec::new());
        self.revision = bump(self.revision);
        proof {
            let want = old(self)@.with_channel(path@, kind@, integer_storage);
            assert(self@.channels =~= want.channels);
            assert(self@.scalars =~= want.scalars);
            assert(self@.states =~= want.states);
            assert(texts_view(Seq::<(u64, String)>::empty()) =~= Seq::empty());
            assert(self@.texts =~= want.texts);
        }
        id
    }

    /// Records that `word` is a bitfield word whose per-bit channels are `bits`,
    /// in declaration order.
    pub fn register_word_bits(&mut self, word: ChannelId, bits: Vec<ChannelId>)
        ensures
            final(self)@ == old(self)@.with_word(word, bits@),
    {
        self.word_to_bits.insert(word, bits);
        proof {
            assert(self@.words =~= old(self)@.words.insert(word, bits@));
        }
    }

    /// The per-bit channels of a bitfield word, if it is one.
    pub fn bits_for_word(&self, word: ChannelId) -> (r: Option<Vec<ChannelId>>)
        ensures
            r is Some <==> self@.words.contains_key(word),
            r matches Some(v) ==> v@ == self@.words[word],
    {
        match self.word_to_bits.get(&word) {
            Some(v) => Some(v.clone()),
            None => None,
        }
    }

    /// Appends a scalar sample. Timestamps are meant not to decrease within a
    /// channel.
    pub fn push_scalar(&mut self, ch: ChannelId, t: Timestamp, v: u64)
        ensures
            old(self)@.wf() ==> final(self)@.wf(),
            final(self)@ == old(self)@.with_scalar(ch, t, v),
    {
        let i: usize = ch as usize;
        if i < self.scalars.len() {
            self.scalars[i].push((t, v));
            self.revision = bump(self.revision);
            proof {
                assert(self@.scalars =~= old(self)@.with_scalar(ch, t, v).scalars);
            }
        }
    }

    /// Appends a state observation; it joins the previous run if the value is
    /// the same.
    pub fn push_state(&mut self, ch: ChannelId, t: Timestamp, value: u32)
        ensures
            old(self)@.wf() ==> final(self)@.wf(),
            final(self)@ == old(self)@.with_state(ch, t, value),
    {
        let i: usize = ch as usize;
        if i < self.states.len() {
            let n: usize = self.states[i].len();
            let ghost runs = self.states@[i as int]@;
            if n > 0 {
                let last = self.states[i][n - 1];
                self.states[i].set(n - 1, StateRun { t_end: t, ..last });
                if last.value != value {
                    self.states[i].push(StateRun { t_start: t, t_end: t, value });
                }
            } else {
                self.states[i].push(StateRun { t_start: t, t_end: t, value });
            }
            self.revision = bump(self.revision);
            proof {
                assert(self.states@[i as int]@ =~= observe(runs, t, value));
                assert(self@.states =~= old(self)@.with_state(ch, t, value).states);
            }
        }
    }

    /// Appends a text sample.
    pub fn push_text(&mut self, ch: ChannelId, t: Timestamp, text: &str)
        ensures
            old(self)@.wf() ==> final(self)@.wf(),
            final(self)@ == old(self)@.with_text(ch, t, text@),
    {
        let i: usize = ch as usize;
        if i < self.texts.len() {
            let ghost before = self.texts@[i as int]@;
            self.texts[i].push((t, text.to_owned()));
            self.revision = bump(self.revision);
            proof {
                assert(texts_view(self.texts@[i as int]@) =~= texts_view(before).push((t, text@)));
                assert(self@.texts =~= old(self)@.with_text(ch, t, text@).texts);
            }
        }
    }

    /// Drops every channel and sample, under a new revision.
    pub fn clear(&mut self)
        ensures
            final(self)@.wf(),
            final(self)@ == old(self)@.cleared(),
    {
        self.channels.clear();
        self.scalars.clear();
        self.states.clear();
        self.texts.clear();
        self.word_to_bits.clear();
        self.revision = bump(self.revision);
        proof {
            assert(self@.channels =~= Seq::empty());
            assert(self@.scalars =~= Seq::empty());
            assert(self@.states =~= Seq::empty());
            assert(self@.texts =~= Seq::empty());
            assert(self@.words =~= Map::empty());
        }
    }

    /// The current revision. It changes with every registration and sample.
    pub fn revision(&self) -> (r: u64)
        ensures
            r == self@.revision,
    {
        self.revision
    }

    /// All channels currently known to the store.
    pub fn channels(&self) -> (r: Vec<ChannelInfo>)
        ensures
            r@.map_values(|c: ChannelInfo| c@) == self@.channels,
    {
        let mut out: Vec<ChannelInfo> = Vec::new();
        let mut i: usize = 0;
        while i < self.channels.len()
            invariant
                i <= self.channels@.len(),
                out@.len() == i,
                forall|j: int| 0 <= j < i ==> (#[trigger] out@[j])@ == self.channels@[j]@,
            decreases self.channels@.len() - i,
        {
            out.push(self.channels[i].clone());
            i = i + 1;
        }
        assert(out@.map_values(|c: ChannelInfo| c@) =~= self@.channels);
        out
    }
}

/// Whether `t` lies in `[t0, t1)`.
pub open spec fn in_window(t: u64, t0: u64, t1: u64) -> bool {
    t0 <= t < t1
}

/// The samples in `[t0, t1)`.
pub open spec fn within(s: Seq<(u64, u64)>, t0: u64, t1: u64) -> Seq<(u64, u64)> {
    s.filter(|p: (u64, u64)| in_window(p.0, t0, t1))
}

/// The width of each of `n` equal parts of `[t0, t1)`, as a double.
pub open spec fn part_width(t0: u64, t1: u64, n: usize) -> u64 {
    double_quotient(double_of_nat((t1 - t0) as nat) as u64, double_of_nat(n as nat) as u64)
}

/// Which of `n` equal parts of `[t0, t1)` holds `t`: how often the width of a part goes
/// into the time from `t0`, as a quotient of doubles. Rounding can move a time at the
/// edge of a part into the one beside it, and one at the end past the last.
pub open spec fn part_of(t: u64, t0: u64, t1: u64, n: usize) -> int {
    int_of_double(double_quotient(double_of_nat((t - t0) as nat) as u64, part_width(t0, t1, n)))
}

/// The same, where parts past `last` count as that one.
pub open spec fn part_upto(t: u64, t0: u64, t1: u64, n: usize, last: int) -> int {
    if part_of(t, t0, t1, n) < last {
        part_of(t, t0, t1, n)
    } else {
        last
    }
}

/// A sample as a bucket of its own.
pub open spec fn single(p: (u64, u64)) -> Bucket {
    Bucket { t: p.0, min: p.1, max: p.1 }
}

/// Neighbouring samples that fall into the same part, each group as one bucket:
/// the time of its first sample, and its smallest and largest value. Parts past `last`
/// count as that one.
pub open spec fn envelope(s: Seq<(u64, u64)>, t0: u64, t1: u64, n: usize, last: int) -> Seq<Bucket>
    decreases s.len(),
{
    if s.len() == 0 {
        Seq::empty()
    } else {
        let before = envelope(s.drop_last(), t0, t1, n, last);
        let p = s.last();
        if s.len() > 1 && part_upto(s[s.len() - 2].0, t0, t1, n, last) == part_upto(
            p.0,
            t0,
            t1,
            n,
            last,
        ) {
            before.update(
                before.len() - 1,
                Bucket {
                    t: before.last().t,
                    min: lesser(before.last().min, p.1),
                    max: greater(before.last().max, p.1),
                },
            )
        } else {
            before.push(single(p))
        }
    }
}

/// The down-sampled samples of `[t0, t1)`: each by itself while they are at most
/// `n`, else the envelope over `n` equal parts. What rounding puts past the last part
/// stands by itself unless there would be more than `n` buckets with it.
pub open spec fn downsampled(s: Seq<(u64, u64)>, t0: u64, t1: u64, n: usize) -> Seq<Bucket> {
    let w = within(s, t0, t1);
    if n == 0 || t1 <= t0 {
        Seq::empty()
    } else if w.len() <= n {
        w.map_values(|p: (u64, u64)| single(p))
    } else if envelope(w, t0, t1, n, i64::MAX as int).len() <= n {
        envelope(w, t0, t1, n, i64::MAX as int)
    } else {
        envelope(w, t0, t1, n, n - 1)
    }
}

/// The runs of a channel as they are shown: the last one is held for good.
pub open spec fn held(runs: Seq<StateRun>) -> Seq<StateRun> {
    if runs.len() == 0 {
        runs
    } else {
        runs.update(runs.len() - 1, StateRun { t_end: u64::MAX, ..runs.last() })
    }
}

/// The held runs that meet `[t0, t1)`.
pub open spec fn runs_within(runs: Seq<StateRun>, t0: u64, t1: u64) -> Seq<StateRun> {
    held(runs).filter(|r: StateRun| r.t_end > t0 && r.t_start < t1)
}

/// The first index at or after `i` of a sample later than `t`, or the end.
pub open spec fn first_after(s: Seq<(u64, u64)>, t: u64, i: int) -> int
    decreases s.len() - i,
{
    if i >= s.len() || s[i].0 > t {
        i
    } else {
        first_after(s, t, i + 1)
    }
}

/// The value of a numeric channel at `t`.
pub open spec fn line_at(s: Seq<(u64, u64)>, t: u64) -> Option<Sample> {
    let i = first_after(s, t, 0);
    if i == 0 {
        None
    } else if s[i - 1].0 == t {
        Some(Sample::Exact(s[i - 1].1))
    } else if i == s.len() {
        None
    } else {
        Some(
            Sample::Between {
                t_a: s[i - 1].0,
                v_a: s[i - 1].1,
                t_b: s[i].0,
                v_b: s[i].1,
            },
        )
    }
}

/// The first index at or after `i` of a run that covers `t`, or the end.
pub open spec fn covering(runs: Seq<StateRun>, t: u64, i: int) -> int
    decreases runs.len() - i,
{
    if i >= runs.len() || runs[i].t_start <= t < runs[i].t_end {
        i
    } else {
        covering(runs, t, i + 1)
    }
}

/// The value of a state channel at `t`.
pub open spec fn state_at(runs: Seq<StateRun>, t: u64) -> Option<Sample> {
    let i = covering(runs, t, 0);
    if i < runs.len() {
        Some(Sample::Exact(double_of_nat(runs[i].value as nat) as u64))
    } else {
        None
    }
}

/// The first `max` of the text samples in `[t0, t1)`.
pub open spec fn texts_within(
    s: Seq<(u64, Seq<char>)>,
    t0: u64,
    t1: u64,
    max: usize,
) -> Seq<(u64, Seq<char>)> {
    let w = s.filter(|p: (u64, Seq<char>)| in_window(p.0, t0, t1));
    if w.len() <= max {
        w
    } else {
        w.take(max as int)
    }
}

/// `r` is the smallest interval that covers every present span, and nothing if
/// there is none.
pub open spec fn covers_exactly(
    spans: Seq<Option<(u64, u64)>>,
    r: Option<(u64, u64)>,
) -> bool {
    match r {
        None => forall|i: int| 0 <= i < spans.len() ==> (#[trigger] spans[i]) is None,
        Some((lo, hi)) => {
            &&& exists|i: int|
                0 <= i < spans.len() && (#[trigger] spans[i] matches Some(s) && s.0 == lo)
            &&& exists|i: int|
                0 <= i < spans.len() && (#[trigger] spans[i] matches Some(s) && s.1 == hi)
            &&& forall|i: int|
                0 <= i < spans.len() ==> (#[trigger] spans[i] matches Some(s) ==> lo <= s.0 && s.1
                    <= hi)
        },
    }
}

/// From the first to the last sample.
pub open spec fn scalar_span(s: Seq<(u64, u64)>) -> Option<(u64, u64)> {
    if s.len() == 0 {
        None
    } else {
        Some((s[0].0, s.last().0))
    }
}

/// From the start of the first run to the end of the last.
pub open spec fn state_span(s: Seq<StateRun>) -> Option<(u64, u64)> {
    if s.len() == 0 {
        None
    } else {
        Some((s[0].t_start, s.last().t_end))
    }
}

/// From the first to the last text sample.
pub open spec fn text_span(s: Seq<(u64, Seq<char>)>) -> Option<(u64, u64)> {
    if s.len() == 0 {
        None
    } else {
        Some((s[0].0, s.last().0))
    }
}

impl StoreView {
    /// The time spans of all sample tables.
    pub open spec fn spans(self) -> Seq<Option<(u64, u64)>> {
        self.scalars.map_values(|s: Seq<(u64, u64)>| scalar_span(s)) + self.states.map_values(
            |s: Seq<StateRun>| state_span(s),
        ) + self.texts.map_values(|s: Seq<(u64, Seq<char>)>| text_span(s))
    }

    /// The numeric samples of a channel; none for an unknown one.
    pub open spec fn samples(self, ch: ChannelId) -> Seq<(u64, u64)> {
        if ch < self.scalars.len() {
            self.scalars[ch as int]
        } else {
            Seq::empty()
        }
    }

    /// The runs of a channel; none for an unknown one.
    pub open spec fn runs(self, ch: ChannelId) -> Seq<StateRun> {
        if ch < self.states.len() {
            self.states[ch as int]
        } else {
            Seq::empty()
        }
    }

    /// The value of a channel at `t`; nothing for an unknown channel or a time
    /// that its samples do not reach.
    pub open spec fn value_at(self, ch: ChannelId, t: u64) -> Option<Sample> {
        if ch < self.channels.len() {
            match self.channels[ch as int].kind {
                KindView::Scalar => line_at(self.scalars[ch as int], t),
                KindView::State { .. } => state_at(self.states[ch as int], t),
                KindView::Text => None,
            }
        } else {
            None
        }
    }

    /// How many samples, runs or texts a channel has.
    pub open spec fn count(self, ch: ChannelId) -> nat {
        if ch < self.channels.len() {
            match self.channels[ch as int].kind {
                KindView::Scalar => self.scalars[ch as int].len(),
                KindView::State { .. } => self.states[ch as int].len(),
                KindView::Text => self.texts[ch as int].len(),
            }
        } else {
            0
        }
    }
}

/// The samples in `[t0, t1)`.
fn select(s: &Vec<(u64, u64)>, t0: u64, t1: u64) -> (r: Vec<(u64, u64)>)
    ensures
        r@ == within(s@, t0, t1),
{
    let mut out: Vec<(u64, u64)> = Vec::new();
    let mut i: usize = 0;
    proof {
        reveal(Seq::filter);
    }
    while i < s.len()
        invariant
            i <= s@.len(),
            out@ == within(s@.take(i as int), t0, t1),
        decreases s@.len() - i,
    {
        proof {
            reveal(Seq::filter);
            assert(s@.take(i + 1).drop_last() =~= s@.take(i as int));
        }
        if t0 <= s[i].0 && s[i].0 < t1 {
            out.push(s[i]);
        }
        i = i + 1;
    }
    assert(s@.take(s@.len() as int) =~= s@);
    out
}

proof fn lemma_within(s: Seq<(u64, u64)>, t0: u64, t1: u64)
    ensures
        forall|i: int|
            0 <= i < within(s, t0, t1).len() ==> in_window(
                (#[trigger] within(s, t0, t1)[i]).0,
                t0,
                t1,
            ),
    decreases s.len(),
{
    reveal(Seq::filter);
    if s.len() > 0 {
        lemma_within(s.drop_last(), t0, t1);
    }
}

/// The width of each of `n` equal parts of `[t0, t1)`.
fn width_of_part(t0: u64, t1: u64, n: usize) -> (r: u64)
    requires
        t0 < t1,
        n > 0,
    ensures
        r == part_width(t0, t1, n),
        is_middling(r),
{
    proof {
        lemma_part_width(t0, t1, n);
    }
    f64_quotient(f64_of_u64(t1 - t0), f64_of_u64(n as u64))
}

/// Which part of the given width holds `t`; parts past `last` count as that one.
fn part_index(t: u64, t0: u64, width: u64, last: u64) -> (r: u64)
    requires
        t0 <= t,
        is_middling(width),
    ensures
        ({
            let part = int_of_double(double_quotient(double_of_nat((t - t0) as nat) as u64, width));
            r == (if part < last {
                part
            } else {
                last as int
            })
        }),
{
    proof {
        lemma_double_of_nat_monotone(0, (t - t0) as nat);
        let a = double_of_nat((t - t0) as nat) as u64;
        lemma_quotient_monotone(a, a, width);
        let q = double_quotient(a, width);
        lemma_int_of_double_monotone(q, q);
    }
    let part: u64 = i64_of_f64(f64_quotient(f64_of_u64(t - t0), width)) as u64;
    if part < last {
        part
    } else {
        last
    }
}

proof fn lemma_part_width(t0: u64, t1: u64, n: usize)
    requires
        t0 < t1,
        n > 0,
    ensures
        is_middling(double_of_nat((t1 - t0) as nat) as u64),
        is_middling(double_of_nat(n as nat) as u64),
        is_middling(part_width(t0, t1, n)),
{
    let a = double_of_nat((t1 - t0) as nat) as u64;
    let b = double_of_nat(n as nat) as u64;
    lemma_double_of_nat_monotone(0, (t1 - t0) as nat);
    lemma_double_of_nat_monotone(0, n as nat);
    crate::num::lemma_quotient_size(a, b);
}

fn bucketed(s: &Vec<(u64, u64)>, t0: u64, t1: u64, n: usize, last: u64) -> (r: Vec<Bucket>)
    requires
        t0 < t1,
        n > 0,
        forall|i: int| 0 <= i < s@.len() ==> in_window((#[trigger] s@[i]).0, t0, t1),
    ensures
        r@ == envelope(s@, t0, t1, n, last as int),
{
    let mut out: Vec<Bucket> = Vec::new();
    let mut i: usize = 0;
    let mut part: u64 = 0;
    let width: u64 = width_of_part(t0, t1, n);
    assert(envelope(s@.take(0), t0, t1, n, last as int) =~= Seq::empty());
    while i < s.len()
        invariant
            i <= s@.len(),
            forall|i: int| 0 <= i < s@.len() ==> in_window((#[trigger] s@[i]).0, t0, t1),
            width == part_width(t0, t1, n),
            is_middling(width),
            out@ == envelope(s@.take(i as int), t0, t1, n, last as int),
            i > 0 ==> part == part_upto(s@[i - 1].0, t0, t1, n, last as int) && out@.len() > 0,
        decreases s@.len() - i,
    {
        let p = s[i];
        let here: u64 = part_index(p.0, t0, width, last);
        proof {
            let now = s@.take(i + 1);
            assert(now.drop_last() =~= s@.take(i as int));
            assert(now.last() == p);
            if i > 0 {
                assert(now[now.len() - 2] == s@[i - 1]);
            }
        }
        let k: usize = out.len();
        if i > 0 && here == part {
            let b = out[k - 1];
            out.set(
                k - 1,
                Bucket { t: b.t, min: number_min(b.min, p.1), max: number_max(b.max, p.1) },
            );
        } else {
            out.push(Bucket { t: p.0, min: p.1, max: p.1 });
        }
        part = here;
        i = i + 1;
    }
    assert(s@.take(s@.len() as int) =~= s@);
    out
}

/// The smallest interval that covers every present span.
fn cover(spans: &Vec<Option<(u64, u64)>>) -> (r: Option<(u64, u64)>)
    ensures
        covers_exactly(spans@, r),
{
    let mut r: Option<(u64, u64)> = None;
    let mut i: usize = 0;
    while i < spans.len()
        invariant
            i <= spans@.len(),
            covers_exactly(spans@.take(i as int), r),
        decreases spans@.len() - i,
    {
        let ghost seen = spans@.take(i as int);
        let ghost now = spans@.take(i + 1);
        let ghost before = r;
        assert(now =~= seen.push(spans@[i as int]));
        assert(now[i as int] == spans@[i as int]);
        assert(forall|j: int| 0 <= j < i ==> seen[j] == #[trigger] now[j]);
        assert(forall|j: int| 0 <= j < i ==> #[trigger] seen[j] == now[j]);
        if let Some(s) = spans[i] {
            r = match r {
                None => Some(s),
                Some((lo, hi)) => Some(
                    (
                        if s.0 < lo {
                            s.0
                        } else {
                            lo
                        },
                        if s.1 > hi {
                            s.1
                        } else {
                            hi
                        },
                    ),
                ),
            };
        }
        assert(covers_exactly(now, r));
        i = i + 1;
    }
    assert(spans@.take(spans@.len() as int) =~= spans@);
    r
}

impl MockStore {
    /// Earliest and latest timestamps across all channels; nothing if no channel
    /// has a sample.
    pub fn time_bounds(&self) -> (r: Option<TimeRange>)
        ensures
            covers_exactly(self@.spans(), r),
    {
        let mut spans: Vec<Option<(u64, u64)>> = Vec::new();
        let ghost a = self@.scalars.map_values(|s: Seq<(u64, u64)>| scalar_span(s));
        let ghost b = self@.states.map_values(|s: Seq<StateRun>| state_span(s));
        let ghost c = self@.texts.map_values(|s: Seq<(u64, Seq<char>)>| text_span(s));
        let mut i: usize = 0;
        while i < self.scalars.len()
            invariant
                i <= self.scalars@.len(),
                a == self@.scalars.map_values(|s: Seq<(u64, u64)>| scalar_span(s)),
                spans@ == a.take(i as int),
            decreases self.scalars@.len() - i,
        {
            let n: usize = self.scalars[i].len();
            assert(self@.scalars[i as int] == self.scalars@[i as int]@);
            assert(a.take(i + 1) =~= a.take(i as int).push(a[i as int]));
            if n == 0 {
                spans.push(None);
            } else {
                spans.push(Some((self.scalars[i][0].0, self.scalars[i][n - 1].0)));
            }
            i = i + 1;
        }
        assert(spans@ =~= a);
        i = 0;
        while i < self.states.len()
            invariant
                i <= self.states@.len(),
                b == self@.states.map_values(|s: Seq<StateRun>| state_span(s)),
                spans@ == a + b.take(i as int),
            decreases self.states@.len() - i,
        {
            let n: usize = self.states[i].len();
            assert(self@.states[i as int] == self.states@[i as int]@);
            assert(a + b.take(i + 1) =~= (a + b.take(i as int)).push(b[i as int]));
            if n == 0 {
                spans.push(None);
            } else {
                spans.push(Some((self.states[i][0].t_start, self.states[i][n - 1].t_end)));
            }
            i = i + 1;
        }
        assert(spans@ =~= a + b);
        i = 0;
        while i < self.texts.len()
            invariant
                i <= self.texts@.len(),
                c == self@.texts.map_values(|s: Seq<(u64, Seq<char>)>| text_span(s)),
                spans@ == a + b + c.take(i as int),
            decreases self.texts@.len() - i,
        {
            let n: usize = self.texts[i].len();
            assert(self@.texts[i as int] == texts_view(self.texts@[i as int]@));
            assert(a + b + c.take(i + 1) =~= (a + b + c.take(i as int)).push(c[i as int]));
            if n == 0 {
                spans.push(None);
            } else {
                spans.push(Some((self.texts[i][0].0, self.texts[i][n - 1].0)));
            }
            i = i + 1;
        }
        assert(spans@ =~= self@.spans());
        cover(&spans)
    }

    /// Down-sampled samples of `[t0, t1)`, sorted as they were pushed, at most
    /// `max_buckets` of them. None for an unknown channel. Where there are too many, a
    /// bucket stands for a part of the window; in which part a sample lies is a quotient
    /// of doubles, cut to an integer.
    pub fn query_scalar(
        &self,
        ch: ChannelId,
        t0: Timestamp,
        t1: Timestamp,
        max_buckets: usize,
    ) -> (r: Vec<Bucket>)
        ensures
            r@ == downsampled(self@.samples(ch), t0, t1, max_buckets),
    {
        proof {
            reveal(Seq::filter);
        }
        let i: usize = ch as usize;
        if max_buckets == 0 || t1 <= t0 {
            return Vec::new();
        }
        if i >= self.scalars.len() {
            let none: Vec<Bucket> = Vec::new();
            assert(none@ =~= downsampled(Seq::empty(), t0, t1, max_buckets));
            return none;
        }
        assert(self@.scalars[i as int] == self.scalars@[i as int]@);
        let w = select(&self.scalars[i], t0, t1);
        if w.len() <= max_buckets {
            let mut out: Vec<Bucket> = Vec::new();
            let mut k: usize = 0;
            while k < w.len()
                invariant
                    k <= w@.len(),
                    out@.len() == k,
                    forall|j: int| 0 <= j < k ==> #[trigger] out@[j] == single(w@[j]),
                decreases w@.len() - k,
            {
                out.push(Bucket { t: w[k].0, min: w[k].1, max: w[k].1 });
                k = k + 1;
            }
            assert(out@ =~= w@.map_values(|p: (u64, u64)| single(p)));
            out
        } else {
            proof {
                lemma_within(self.scalars@[i as int]@, t0, t1);
            }
            let fine = bucketed(&w, t0, t1, max_buckets, i64::MAX as u64);
            if fine.len() <= max_buckets {
                fine
            } else {
                bucketed(&w, t0, t1, max_buckets, max_buckets as u64 - 1)
            }
        }
    }

    /// The runs of a state channel that meet `[t0, t1)`. The last run of the
    /// channel is held for good.
    pub fn query_state(&self, ch: ChannelId, t0: Timestamp, t1: Timestamp) -> (r: Vec<StateRun>)
        ensures
            r@ == runs_within(self@.runs(ch), t0, t1),
    {
        let i: usize = ch as usize;
        let mut out: Vec<StateRun> = Vec::new();
        proof {
            reveal(Seq::filter);
        }
        if i >= self.states.len() {
            return out;
        }
        assert(self@.states[i as int] == self.states@[i as int]@);
        let runs = &self.states[i];
        let ghost shown = held(runs@);
        let ghost meets = |r: StateRun| r.t_end > t0 && r.t_start < t1;
        let mut k: usize = 0;
        assert(shown.take(0).filter(meets) =~= out@);
        while k < runs.len()
            invariant
                k <= runs@.len(),
                shown == held(runs@),
                meets == (|r: StateRun| r.t_end > t0 && r.t_start < t1),
                out@ == shown.take(k as int).filter(meets),
            decreases runs@.len() - k,
        {
            proof {
                reveal(Seq::filter);
                assert(shown.take(k + 1).drop_last() =~= shown.take(k as int));
            }
            let end: u64 = if k == runs.len() - 1 {
                u64::MAX
            } else {
                runs[k].t_end
            };
            let run = StateRun { t_start: runs[k].t_start, t_end: end, value: runs[k].value };
            assert(run == shown[k as int]);
            if end > t0 && run.t_start < t1 {
                out.push(run);
            }
            k = k + 1;
        }
        assert(shown.take(runs@.len() as int) =~= shown);
        out
    }

    /// The value of a channel at `t`: on the line between the two samples around
    /// it for a numeric channel, the value of the run that covers it for a state
    /// channel.
    pub fn sample_at(&self, ch: ChannelId, t: Timestamp) -> (r: Option<Sample>)
        requires
            self@.wf(),
        ensures
            r == self@.value_at(ch, t),
    {
        let c: usize = ch as usize;
        if c >= self.channels.len() {
            return None;
        }
        assert(self@.channels[c as int] == self.channels@[c as int]@);
        match &self.channels[c].kind {
            ChannelKind::Scalar => {
                assert(self@.scalars.len() == self.scalars@.len());
                assert(self@.scalars[c as int] == self.scalars@[c as int]@);
                let s = &self.scalars[c];
                let mut i: usize = 0;
                while i < s.len() && s[i].0 <= t
                    invariant
                        i <= s@.len(),
                        first_after(s@, t, 0) == first_after(s@, t, i as int),
                        i > 0 ==> s@[i - 1].0 <= t,
                    decreases s@.len() - i,
                {
                    i = i + 1;
                }
                if i == 0 {
                    None
                } else if s[i - 1].0 == t {
                    Some(Sample::Exact(s[i - 1].1))
                } else if i == s.len() {
                    None
                } else {
                    Some(
                        Sample::Between {
                            t_a: s[i - 1].0,
                            v_a: s[i - 1].1,
                            t_b: s[i].0,
                            v_b: s[i].1,
                        },
                    )
                }
            },
            ChannelKind::State { .. } => {
                assert(self@.states.len() == self.states@.len());
                assert(self@.states[c as int] == self.states@[c as int]@);
                let runs = &self.states[c];
                let mut i: usize = 0;
                while i < runs.len() && !(runs[i].t_start <= t && t < runs[i].t_end)
                    invariant
                        i <= runs@.len(),
                        covering(runs@, t, 0) == covering(runs@, t, i as int),
                    decreases runs@.len() - i,
                {
                    i = i + 1;
                }
                if i < runs.len() {
                    Some(Sample::Exact(f64_of_u64(runs[i].value as u64)))
                } else {
                    None
                }
            },
            ChannelKind::Text => None,
        }
    }

    /// How many samples a channel has received: pushed values for a numeric
    /// channel, distinct runs for a state channel. Zero for an unknown channel.
    pub fn sample_count(&self, ch: ChannelId) -> (r: u64)
        requires
            self@.wf(),
        ensures
            r == self@.count(ch),
    {
        let c: usize = ch as usize;
        if c >= self.channels.len() {
            return 0;
        }
        assert(self@.channels[c as int] == self.channels@[c as int]@);
        assert(self@.scalars.len() == self.scalars@.len());
        assert(self@.states.len() == self.states@.len());
        assert(self@.texts.len() == self.texts@.len());
        assert(self@.scalars[c as int] == self.scalars@[c as int]@);
        assert(self@.states[c as int] == self.states@[c as int]@);
        assert(self@.texts[c as int] == texts_view(self.texts@[c as int]@));
        match &self.channels[c].kind {
            ChannelKind::Scalar => self.scalars[c].len() as u64,
            ChannelKind::State { .. } => self.states[c].len() as u64,
            ChannelKind::Text => self.texts[c].len() as u64,
        }
    }

    /// Samples of `[t0, t1)`, at most `max_samples` of them; where there are
    /// more, the largest value of each part.
    pub fn query_raw(
        &self,
        ch: ChannelId,
        t0: Timestamp,
        t1: Timestamp,
        max_samples: usize,
    ) -> (r: Vec<(Timestamp, u64)>)
        ensures
            r@ == downsampled(self@.samples(ch), t0, t1, max_samples).map_values(
                |b: Bucket| (b.t, b.max),
            ),
    {
        let bs = self.query_scalar(ch, t0, t1, max_samples);
        let mut out: Vec<(u64, u64)> = Vec::new();
        let mut i: usize = 0;
        while i < bs.len()
            invariant
                i <= bs@.len(),
                out@.len() == i,
                forall|j: int| 0 <= j < i ==> #[trigger] out@[j] == (bs@[j].t, bs@[j].max),
            decreases bs@.len() - i,
        {
            out.push((bs[i].t, bs[i].max));
            i = i + 1;
        }
        assert(out@ =~= bs@.map_values(|b: Bucket| (b.t, b.max)));
        out
    }

    /// Text samples of `[t0, t1)`, at most `max_samples` of them, in the order
    /// they were pushed. None for a channel without text.
    pub fn query_text(
        &self,
        ch: ChannelId,
        t0: Timestamp,
        t1: Timestamp,
        max_samples: usize,
    ) -> (r: Vec<(Timestamp, String)>)
        ensures
            texts_view(r@) == (if ch < self@.texts.len() {
                texts_within(self@.texts[ch as int], t0, t1, max_samples)
            } else {
                Seq::empty()
            }),
    {
        let c: usize = ch as usize;
        let mut out: Vec<(u64, String)> = Vec::new();
        assert(texts_view(out@) =~= Seq::empty());
        if c >= self.texts.len() {
            return out;
        }
        assert(self@.texts[c as int] == texts_view(self.texts@[c as int]@));
        let s = &self.texts[c];
        let ghost all = texts_view(s@);
        let ghost keep = |p: (u64, Seq<char>)| in_window(p.0, t0, t1);
        let mut i: usize = 0;
        proof {
            reveal(Seq::filter);
            assert(all.take(0).filter(keep) =~= Seq::empty());
        }
        while i < s.len() && out.len() < max_samples
            invariant
                i <= s@.len(),
                all == texts_view(s@),
                keep == (|p: (u64, Seq<char>)| in_window(p.0, t0, t1)),
                texts_view(out@) == all.take(i as int).filter(keep),
                out@.len() <= max_samples,
            decreases s@.len() - i,
        {
            let ghost before = out@;
            proof {
                reveal(Seq::filter);
                assert(all.take(i + 1).drop_last() =~= all.take(i as int));
            }
            if t0 <= s[i].0 && s[i].0 < t1 {
                out.push((s[i].0, s[i].1.clone()));
                assert(texts_view(out@) =~= texts_view(before).push(all[i as int]));
            }
            i = i + 1;
        }
        proof {
            lemma_filter_prefix(all, keep, i as int);
            let w = all.filter(keep);
            assert(w.take(out@.len() as int) =~= texts_view(out@));
            assert(all.take(all.len() as int) =~= all);
            if i == s@.len() {
                assert(w =~= texts_view(out@));
            }
        }
        out
    }
}

/// Filtering a prefix gives a prefix of the filtered sequence.
pub proof fn lemma_filter_prefix<A>(s: Seq<A>, p: spec_fn(A) -> bool, i: int)
    requires
        0 <= i <= s.len(),
    ensures
        s.take(i).filter(p).len() <= s.filter(p).len(),
        s.filter(p).take(s.take(i).filter(p).len() as int) == s.take(i).filter(p),
    decreases s.len() - i,
{
    if i < s.len() {
        lemma_filter_prefix(s, p, i + 1);
        reveal(Seq::filter);
        let a = s.take(i).filter(p);
        let b = s.take(i + 1).filter(p);
        assert(s.take(i + 1).drop_last() =~= s.take(i));
        assert(a =~= b.take(a.len() as int));
        assert(s.filter(p).take(a.len() as int) =~= b.take(a.len() as int));
    } else {
        assert(s.take(i) =~= s);
        assert(s.filter(p).take(s.filter(p).len() as int) =~= s.filter(p));
    }
}

/// The smallest value of some samples. What is not a number counts only where there
/// is nothing else.
pub open spec fn least_value(s: Seq<(u64, u64)>) -> u64
    decreases s.len(),
{
    if s.len() <= 1 {
        s[0].1
    } else {
        lesser(least_value(s.drop_last()), s.last().1)
    }
}

/// The largest value of some samples. What is not a number counts only where there
/// is nothing else.
pub open spec fn largest_value(s: Seq<(u64, u64)>) -> u64
    decreases s.len(),
{
    if s.len() <= 1 {
        s[0].1
    } else {
        greater(largest_value(s.drop_last()), s.last().1)
    }
}

/// The smallest value of some runs.
pub open spec fn least_state(runs: Seq<StateRun>) -> u32
    decreases runs.len(),
{
    if runs.len() <= 1 || runs.last().value < least_state(runs.drop_last()) {
        runs.last().value
    } else {
        least_state(runs.drop_last())
    }
}

/// The largest value of some runs.
pub open spec fn largest_state(runs: Seq<StateRun>) -> u32
    decreases runs.len(),
{
    if runs.len() <= 1 || runs.last().value > largest_state(runs.drop_last()) {
        runs.last().value
    } else {
        largest_state(runs.drop_last())
    }
}

impl StoreView {
    /// The extreme values over all samples of a channel; nothing for an unknown or
    /// empty one.
    pub open spec fn extremes(self, ch: ChannelId) -> Option<(u64, u64)> {
        let samples = self.samples(ch);
        let runs = self.runs(ch);
        if samples.len() > 0 {
            Some((least_value(samples), largest_value(samples)))
        } else if runs.len() > 0 {
            Some(
                (
                    double_of_nat(least_state(runs) as nat) as u64,
                    double_of_nat(largest_state(runs) as nat) as u64,
                ),
            )
        } else {
            None
        }
    }
}

/// The extreme values of some samples.
fn sample_extremes(s: &Vec<(u64, u64)>) -> (r: (u64, u64))
    requires
        s@.len() > 0,
    ensures
        r == (least_value(s@), largest_value(s@)),
{
    let mut lo: u64 = s[0].1;
    let mut hi: u64 = s[0].1;
    let mut i: usize = 1;
    assert(s@.take(1)[0] == s@[0]);
    while i < s.len()
        invariant
            1 <= i <= s@.len(),
            lo == least_value(s@.take(i as int)),
            hi == largest_value(s@.take(i as int)),
        decreases s@.len() - i,
    {
        assert(s@.take(i + 1).drop_last() =~= s@.take(i as int));
        lo = number_min(lo, s[i].1);
        hi = number_max(hi, s[i].1);
        i = i + 1;
    }
    assert(s@.take(s@.len() as int) =~= s@);
    (lo, hi)
}

/// The extreme values of some runs.
fn run_extremes(runs: &Vec<StateRun>) -> (r: (u32, u32))
    requires
        runs@.len() > 0,
    ensures
        r == (least_state(runs@), largest_state(runs@)),
{
    let mut lo: u32 = runs[0].value;
    let mut hi: u32 = runs[0].value;
    let mut i: usize = 1;
    assert(runs@.take(1).last() == runs@[0]);
    while i < runs.len()
        invariant
            1 <= i <= runs@.len(),
            lo == least_state(runs@.take(i as int)),
            hi == largest_state(runs@.take(i as int)),
        decreases runs@.len() - i,
    {
        assert(runs@.take(i + 1).drop_last() =~= runs@.take(i as int));
        let v: u32 = runs[i].value;
        if v < lo {
            lo = v;
        }
        if v > hi {
            hi = v;
        }
        i = i + 1;
    }
    assert(runs@.take(runs@.len() as int) =~= runs@);
    (lo, hi)
}

impl MockStore {
    /// The smallest and the largest value that a channel ever had; nothing for an
    /// unknown or empty channel.
    pub fn value_bounds(&self, ch: ChannelId) -> (r: Option<(u64, u64)>)
        ensures
            r == self@.extremes(ch),
    {
        let i: usize = ch as usize;
        if i < self.scalars.len() && self.scalars[i].len() > 0 {
            return Some(sample_extremes(&self.scalars[i]));
        }
        if i < self.states.len() && self.states[i].len() > 0 {
            let (lo, hi) = run_extremes(&self.states[i]);
            return Some((f64_of_u64(lo as u64), f64_of_u64(hi as u64)));
        }
        None
    }
}

/// Timestamps that do not decrease.
pub open spec fn ordered(s: Seq<(u64, u64)>) -> bool {
    forall|i: int, j: int| 0 <= i <= j < s.len() ==> (#[trigger] s[i]).0 <= (#[trigger] s[j]).0
}

/// Whether the value lies between the bucket's bounds.
pub open spec fn spans_value(b: Bucket, v: u64) -> bool {
    &&& !is_nan(b.min)
    &&& !is_nan(b.max)
    &&& rank(b.min) <= rank(v) <= rank(b.max)
}

proof fn lemma_within_ordered(s: Seq<(u64, u64)>, t0: u64, t1: u64)
    requires
        ordered(s),
    ensures
        ordered(within(s, t0, t1)),
        within(s, t0, t1).len() > 0 ==> s.len() > 0 && within(s, t0, t1).last().0 <= s.last().0,
    decreases s.len(),
{
    reveal(Seq::filter);
    if s.len() > 0 {
        lemma_within_ordered(s.drop_last(), t0, t1);
        let w = within(s.drop_last(), t0, t1);
        if w.len() > 0 {
            assert(s[s.len() - 2].0 <= s.last().0);
        }
    }
}

proof fn lemma_part_monotone(a: u64, b: u64, t0: u64, t1: u64, n: usize, last: int)
    requires
        t0 <= a <= b < t1,
        n > 0,
        last >= 0,
    ensures
        0 <= part_upto(a, t0, t1, n, last) <= part_upto(b, t0, t1, n, last) <= last,
{
    let width = part_width(t0, t1, n);
    lemma_part_width(t0, t1, n);
    let x = double_of_nat((a - t0) as nat) as u64;
    let y = double_of_nat((b - t0) as nat) as u64;
    lemma_double_of_nat_monotone(0, (a - t0) as nat);
    lemma_double_of_nat_monotone((a - t0) as nat, (b - t0) as nat);
    lemma_quotient_monotone(x, y, width);
    lemma_int_of_double_monotone(double_quotient(x, width), double_quotient(y, width));
}

proof fn lemma_envelope_fits(s: Seq<(u64, u64)>, t0: u64, t1: u64, n: usize, last: int)
    requires
        s.len() > 0,
        n > 0,
        last >= 0,
        ordered(s),
        forall|i: int| 0 <= i < s.len() ==> in_window((#[trigger] s[i]).0, t0, t1),
    ensures
        0 < envelope(s, t0, t1, n, last).len() <= part_upto(s.last().0, t0, t1, n, last) + 1
            <= last + 1,
        envelope(s, t0, t1, n, last).last().t <= s.last().0,
        forall|i: int, j: int|
            0 <= i <= j < envelope(s, t0, t1, n, last).len() ==> (#[trigger] envelope(
                s,
                t0,
                t1,
                n,
                last,
            )[i]).t <= (#[trigger] envelope(s, t0, t1, n, last)[j]).t,
    decreases s.len(),
{
    reveal_with_fuel(envelope, 2);
    let p = s.last();
    lemma_part_monotone(p.0, p.0, t0, t1, n, last);
    if s.len() > 1 {
        let r = s.drop_last();
        lemma_envelope_fits(r, t0, t1, n, last);
        assert(r.last() == s[s.len() - 2]);
        assert(s[s.len() - 2].0 <= p.0);
        lemma_part_monotone(r.last().0, p.0, t0, t1, n, last);
    }
}

proof fn lemma_envelope_spans(s: Seq<(u64, u64)>, t0: u64, t1: u64, n: usize, last: int, i: int)
    requires
        0 <= i < s.len(),
        !is_nan(s[i].1),
    ensures
        exists|k: int|
            0 <= k < envelope(s, t0, t1, n, last).len() && spans_value(
                #[trigger] envelope(s, t0, t1, n, last)[k],
                s[i].1,
            ),
    decreases s.len(),
{
    let e = envelope(s, t0, t1, n, last);
    let before = envelope(s.drop_last(), t0, t1, n, last);
    lemma_envelope_len(s, t0, t1, n, last);
    if i == s.len() - 1 {
        assert(spans_value(e[e.len() - 1], s[i].1));
    } else {
        lemma_envelope_spans(s.drop_last(), t0, t1, n, last, i);
        let k = choose|k: int|
            0 <= k < before.len() && spans_value(#[trigger] before[k], s[i].1);
        assert(spans_value(e[k], s[i].1));
    }
}

proof fn lemma_envelope_len(s: Seq<(u64, u64)>, t0: u64, t1: u64, n: usize, last: int)
    requires
        s.len() > 0,
    ensures
        envelope(s, t0, t1, n, last).len() > 0,
        s.len() > 1 ==> envelope(s.drop_last(), t0, t1, n, last).len() > 0,
    decreases s.len(),
{
    if s.len() > 1 {
        lemma_envelope_len(s.drop_last(), t0, t1, n, last);
    }
}

/// A query returns no more buckets than it was asked for, in order of time.
pub proof fn law_buckets_are_few_and_ordered(s: Seq<(u64, u64)>, t0: u64, t1: u64, n: usize)
    requires
        ordered(s),
    ensures
        downsampled(s, t0, t1, n).len() <= n,
        forall|i: int, j: int|
            0 <= i <= j < downsampled(s, t0, t1, n).len() ==> (#[trigger] downsampled(
                s,
                t0,
                t1,
                n,
            )[i]).t <= (#[trigger] downsampled(s, t0, t1, n)[j]).t,
{
    let w = within(s, t0, t1);
    lemma_within(s, t0, t1);
    lemma_within_ordered(s, t0, t1);
    if n > 0 && t0 < t1 && w.len() > n {
        lemma_envelope_fits(w, t0, t1, n, i64::MAX as int);
        lemma_envelope_fits(w, t0, t1, n, n - 1);
    }
}

/// No value is lost by down-sampling: each sample of the interval that is a
/// number lies between the bounds of some bucket.
pub proof fn law_buckets_keep_the_envelope(
    s: Seq<(u64, u64)>,
    t0: u64,
    t1: u64,
    n: usize,
    i: int,
)
    requires
        n > 0,
        t0 < t1,
        0 <= i < within(s, t0, t1).len(),
        !is_nan(within(s, t0, t1)[i].1),
    ensures
        exists|k: int|
            0 <= k < downsampled(s, t0, t1, n).len() && spans_value(
                #[trigger] downsampled(s, t0, t1, n)[k],
                within(s, t0, t1)[i].1,
            ),
{
    let w = within(s, t0, t1);
    if w.len() <= n {
        let r = downsampled(s, t0, t1, n);
        assert(spans_value(r[i], w[i].1));
    } else {
        let last = if envelope(w, t0, t1, n, i64::MAX as int).len() <= n {
            i64::MAX as int
        } else {
            n - 1
        };
        lemma_envelope_spans(w, t0, t1, n, last, i);
        let e = envelope(w, t0, t1, n, last);
        let k = choose|k: int| 0 <= k < e.len() && spans_value(#[trigger] e[k], w[i].1);
        assert(spans_value(downsampled(s, t0, t1, n)[k], w[i].1));
    }
}

proof fn lemma_extreme_samples(s: Seq<(u64, u64)>, i: int)
    requires
        0 <= i < s.len(),
        !is_nan(s[i].1),
    ensures
        !is_nan(least_value(s)),
        !is_nan(largest_value(s)),
        rank(least_value(s)) <= rank(s[i].1) <= rank(largest_value(s)),
    decreases s.len(),
{
    if s.len() > 1 {
        let head = s.drop_last();
        if i < head.len() {
            assert(head[i] == s[i]);
            lemma_extreme_samples(head, i);
        }
    }
}

/// Every number that a channel ever had lies between its bounds.
pub proof fn law_bounds_span_all_samples(store: StoreView, ch: ChannelId, i: int)
    requires
        0 <= i < store.samples(ch).len(),
        !is_nan(store.samples(ch)[i].1),
    ensures
        store.extremes(ch) matches Some((lo, hi)) && rank(lo) <= rank(store.samples(ch)[i].1)
            <= rank(hi),
{
    lemma_extreme_samples(store.samples(ch), i);
}

/// After an observation the channel is in the observed state, and one run ends
/// where the next begins.
pub proof fn law_observed_state_is_held(runs: Seq<StateRun>, t: u64, value: u32)
    requires
        forall|i: int| 0 < i < runs.len() ==> (#[trigger] runs[i]).t_start == runs[i - 1].t_end,
    ensures
        observe(runs, t, value).len() > 0,
        observe(runs, t, value).last().value == value,
        observe(runs, t, value).last().t_end == t,
        forall|i: int|
            0 < i < observe(runs, t, value).len() ==> (#[trigger] observe(
                runs,
                t,
                value,
            )[i]).t_start == observe(runs, t, value)[i - 1].t_end,
{
}

/// Neighbouring runs have different values, and an observation keeps it so.
pub proof fn law_runs_stay_coalesced(runs: Seq<StateRun>, t: u64, value: u32)
    requires
        forall|i: int| 0 < i < runs.len() ==> (#[trigger] runs[i]).value != runs[i - 1].value,
    ensures
        forall|i: int|
            0 < i < observe(runs, t, value).len() ==> (#[trigger] observe(
                runs,
                t,
                value,
            )[i]).value != observe(runs, t, value)[i - 1].value,
{
}

/// A window that starts at or after the last observation shows the state that
/// was observed last.
pub proof fn law_last_state_is_shown_for_good(runs: Seq<StateRun>, t0: u64, t1: u64)
    requires
        runs.len() > 0,
        runs.last().t_start <= t0 < t1,
    ensures
        runs_within(runs, t0, t1).len() > 0,
        runs_within(runs, t0, t1).last().value == runs.last().value,
{
    reveal(Seq::filter);
    let h = held(runs);
    assert(h.last().t_end == u64::MAX);
}

} // verus!
