//! Grouping, ordering and searching of channel paths, and fitting of labels.

use crate::store::ChannelInfo;
use crate::text::{append_text, chars_of, string_of};
use vstd::prelude::*;

verus! {

/// The first index at or after `i` of `c`, or the end.
pub open spec fn find_from(s: Seq<char>, c: char, i: int) -> int
    decreases s.len() - i,
{
    if i >= s.len() || s[i] == c {
        i
    } else {
        find_from(s, c, i + 1)
    }
}

/// The text before the first dot; all of it where there is none.
pub open spec fn group_of(path: Seq<char>) -> Seq<char> {
    path.take(find_from(path, '.', 0))
}

/// The text after the first dot; all of it where there is none.
pub open spec fn rest_of(path: Seq<char>) -> Seq<char> {
    let i = find_from(path, '.', 0);
    if i < path.len() {
        path.skip(i + 1)
    } else {
        path
    }
}

pub fn find_char(v: &Vec<char>, c: char) -> (r: usize)
    ensures
        r == find_from(v@, c, 0),
        r <= v@.len(),
        forall|j: int| 0 <= j < r ==> v@[j] != c,
        r < v@.len() ==> v@[r as int] == c,
{
    let mut i: usize = 0;
    while i < v.len() && v[i] != c
        invariant
            i <= v@.len(),
            find_from(v@, c, 0) == find_from(v@, c, i as int),
            forall|j: int| 0 <= j < i ==> v@[j] != c,
        decreases v@.len() - i,
    {
        i = i + 1;
    }
    i
}

/// The text before the first dot, or all of it: the schema group of a channel.
pub fn channel_group(path: &str) -> (r: &str)
    ensures
        r@ == group_of(path@),
{
    let v = chars_of(path);
    let i = find_char(&v, '.');
    assert(path@.subrange(0, i as int) =~= group_of(path@));
    path.substring_char(0, i)
}

/// The text after the first dot, or all of it: the name of a channel within its
/// group.
pub fn strip_group_prefix(path: &str) -> (r: &str)
    ensures
        r@ == rest_of(path@),
{
    let v = chars_of(path);
    let i = find_char(&v, '.');
    if i < v.len() {
        assert(path@.subrange(i + 1, path@.len() as int) =~= rest_of(path@));
        path.substring_char(i + 1, v.len())
    } else {
        path
    }
}

/// Whether `a` comes before `b` in the order of code points.
pub open spec fn text_before(a: Seq<char>, b: Seq<char>) -> bool
    decreases a.len(),
{
    if b.len() == 0 {
        false
    } else if a.len() == 0 {
        true
    } else if a[0] != b[0] {
        (a[0] as int) < (b[0] as int)
    } else {
        text_before(a.skip(1), b.skip(1))
    }
}

/// Of two different texts one comes before the other, and never both.
pub proof fn lemma_text_order_total(a: Seq<char>, b: Seq<char>)
    ensures
        a == b ==> !text_before(a, b),
        text_before(a, b) ==> !text_before(b, a),
        a != b ==> text_before(a, b) || text_before(b, a),
    decreases a.len(),
{
    if a.len() > 0 && b.len() > 0 && a[0] == b[0] {
        lemma_text_order_total(a.skip(1), b.skip(1));
        if a.skip(1) == b.skip(1) {
            assert(a =~= seq![a[0]] + a.skip(1));
            assert(b =~= seq![b[0]] + b.skip(1));
        }
    } else if a.len() == 0 && b.len() == 0 {
        assert(a =~= b);
    }
}

pub proof fn lemma_text_order_transitive(a: Seq<char>, b: Seq<char>, c: Seq<char>)
    requires
        text_before(a, b),
        text_before(b, c),
    ensures
        text_before(a, c),
    decreases a.len(),
{
    if a.len() > 0 && b.len() > 0 && c.len() > 0 && a[0] == b[0] && b[0] == c[0] {
        lemma_text_order_transitive(a.skip(1), b.skip(1), c.skip(1));
    }
}

/// Whether the text `a` comes before `b`.
pub fn comes_before(a: &Vec<char>, b: &Vec<char>) -> (r: bool)
    ensures
        r == text_before(a@, b@),
{
    let mut i: usize = 0;
    assert(a@.skip(0) =~= a@);
    assert(b@.skip(0) =~= b@);
    while i < a.len() && i < b.len() && a[i] == b[i]
        invariant
            i <= a@.len(),
            i <= b@.len(),
            text_before(a@, b@) == text_before(a@.skip(i as int), b@.skip(i as int)),
        decreases a@.len() - i,
    {
        proof {
            assert(a@.skip(i as int).skip(1) =~= a@.skip(i + 1));
            assert(b@.skip(i as int).skip(1) =~= b@.skip(i + 1));
        }
        i = i + 1;
    }
    if i >= b.len() {
        false
    } else if i >= a.len() {
        true
    } else {
        a[i] < b[i]
    }
}

/// What a lane is ordered by: late ones last, then the group, then the path, then
/// the place it had.
#[verifier::ext_equal]
pub struct LaneKey {
    pub late: bool,
    pub group: Seq<char>,
    pub path: Seq<char>,
    pub index: int,
}

/// Whether the lane with key `a` comes before the one with key `b`.
pub open spec fn key_before(a: LaneKey, b: LaneKey) -> bool {
    if a.late != b.late {
        b.late
    } else if a.group != b.group {
        text_before(a.group, b.group)
    } else if a.path != b.path {
        text_before(a.path, b.path)
    } else {
        a.index < b.index
    }
}

proof fn lemma_key_order_total(a: LaneKey, b: LaneKey)
    requires
        a.index != b.index,
    ensures
        key_before(a, b) || key_before(b, a),
{
    lemma_text_order_total(a.group, b.group);
    lemma_text_order_total(a.path, b.path);
}

proof fn lemma_key_order_transitive(a: LaneKey, b: LaneKey, c: LaneKey)
    requires
        key_before(a, b),
        key_before(b, c),
    ensures
        key_before(a, c),
{
    if a.late == b.late && b.late == c.late {
        lemma_text_order_total(a.group, b.group);
        lemma_text_order_total(b.group, c.group);
        if a.group != b.group && b.group != c.group {
            lemma_text_order_transitive(a.group, b.group, c.group);
            lemma_text_order_total(a.group, c.group);
        } else if a.group == b.group && b.group == c.group {
            lemma_text_order_total(a.path, b.path);
            lemma_text_order_total(b.path, c.path);
            if a.path != b.path && b.path != c.path {
                lemma_text_order_transitive(a.path, b.path, c.path);
                lemma_text_order_total(a.path, c.path);
            }
        }
    }
}

struct SortItem {
    late: bool,
    group: Vec<char>,
    path: Vec<char>,
    index: usize,
}

impl SortItem {
    spec fn key(self) -> LaneKey {
        LaneKey {
            late: self.late,
            group: self.group@,
            path: self.path@,
            index: self.index as int,
        }
    }
}

spec fn in_order(v: Seq<SortItem>) -> bool {
    forall|a: int, b: int|
        0 <= a < b < v.len() ==> key_before((#[trigger] v[a]).key(), (#[trigger] v[b]).key())
}

spec fn holds_index(v: Seq<SortItem>, k: int) -> bool {
    exists|j: int| 0 <= j < v.len() && (#[trigger] v[j]).index == k
}

fn item_before(a: &SortItem, b: &SortItem) -> (r: bool)
    ensures
        r == key_before(a.key(), b.key()),
{
    if a.late != b.late {
        return b.late;
    }
    proof {
        lemma_text_order_total(a.group@, b.group@);
        lemma_text_order_total(a.path@, b.path@);
    }
    if comes_before(&a.group, &b.group) {
        return true;
    }
    if comes_before(&b.group, &a.group) {
        return false;
    }
    if comes_before(&a.path, &b.path) {
        return true;
    }
    if comes_before(&b.path, &a.path) {
        return false;
    }
    a.index < b.index
}

/// Puts an item into its place among ordered ones.
fn insert_in_order(v: &mut Vec<SortItem>, x: SortItem)
    requires
        in_order(old(v)@),
        forall|j: int| 0 <= j < old(v)@.len() ==> (#[trigger] old(v)@[j]).index != x.index,
    ensures
        in_order(final(v)@),
        exists|p: int|
            0 <= p <= old(v)@.len() && final(v)@ == #[trigger] old(v)@.insert(p, x),
{
    let mut p: usize = 0;
    while p < v.len() && !item_before(&x, &v[p])
        invariant
            p <= v@.len(),
            v@ == old(v)@,
            forall|j: int| 0 <= j < v@.len() ==> (#[trigger] v@[j]).index != x.index,
            forall|j: int| 0 <= j < p ==> key_before((#[trigger] v@[j]).key(), x.key()),
        decreases v@.len() - p,
    {
        proof {
            lemma_key_order_total(x.key(), v@[p as int].key());
        }
        p = p + 1;
    }
    proof {
        let old_v = v@;
        let new_v = old_v.insert(p as int, x);
        assert forall|a: int, b: int| 0 <= a < b < new_v.len() implies key_before(
            (#[trigger] new_v[a]).key(),
            (#[trigger] new_v[b]).key(),
        ) by {
            let ka = if a < p {
                a
            } else {
                a - 1
            };
            let kb = if b < p {
                b
            } else {
                b - 1
            };
            if a == p {
                assert(new_v[b] == old_v[kb]);
                if kb > p {
                    assert(key_before(old_v[p as int].key(), old_v[kb].key()));
                    lemma_key_order_transitive(x.key(), old_v[p as int].key(), old_v[kb].key());
                }
            } else if b == p {
                assert(new_v[a] == old_v[a]);
            } else {
                assert(new_v[a] == old_v[ka]);
                assert(new_v[b] == old_v[kb]);
            }
        }
        assert(new_v == old(v)@.insert(p as int, x));
    }
    v.insert(p, x);
}

/// Whether `order` lists each of the `keys` once, in order.
pub open spec fn is_order_of(order: Seq<int>, keys: Seq<LaneKey>) -> bool {
    &&& order.len() == keys.len()
    &&& forall|j: int| 0 <= j < order.len() ==> 0 <= #[trigger] order[j] < keys.len()
    &&& forall|k: int| 0 <= k < keys.len() ==> order.contains(k)
    &&& forall|a: int, b: int|
        0 <= a < b < order.len() ==> key_before(
            keys[#[trigger] order[a]],
            keys[#[trigger] order[b]],
        )
}

/// The texts of the lanes' sort keys.
pub open spec fn lane_keys(groups: Seq<Seq<char>>, paths: Seq<Seq<char>>, late: bool) -> Seq<
    LaneKey,
> {
    Seq::new(
        groups.len(),
        |i: int|
            LaneKey {
                late: late && groups[i].len() == 0,
                group: groups[i],
                path: paths[i],
                index: i,
            },
    )
}

/// The places of the lanes in order of their keys. With `late`, lanes without a
/// group come last.
fn sort_lanes(groups: &Vec<Vec<char>>, paths: &Vec<Vec<char>>, late: bool) -> (r: Vec<usize>)
    requires
        groups@.len() == paths@.len(),
    ensures
        is_order_of(
            r@.map_values(|i: usize| i as int),
            lane_keys(
                groups@.map_values(|g: Vec<char>| g@),
                paths@.map_values(|g: Vec<char>| g@),
                late,
            ),
        ),
{
    let ghost keys = lane_keys(
        groups@.map_values(|g: Vec<char>| g@),
        paths@.map_values(|g: Vec<char>| g@),
        late,
    );
    let mut v: Vec<SortItem> = Vec::new();
    let mut i: usize = 0;
    while i < groups.len()
        invariant
            i <= groups@.len() == paths@.len(),
            keys == lane_keys(
                groups@.map_values(|g: Vec<char>| g@),
                paths@.map_values(|g: Vec<char>| g@),
                late,
            ),
            v@.len() == i,
            in_order(v@),
            forall|j: int|
                0 <= j < i ==> (#[trigger] v@[j]).index < i && v@[j].key()
                    == keys[v@[j].index as int],
            forall|k: int| 0 <= k < i ==> #[trigger] holds_index(v@, k),
        decreases groups@.len() - i,
    {
        let x = SortItem {
            late: late && groups[i].len() == 0,
            group: copy_chars(&groups[i]),
            path: copy_chars(&paths[i]),
            index: i,
        };
        let ghost before = v@;
        assert(x.key() == keys[i as int]);
        insert_in_order(&mut v, x);
        proof {
            let p = choose|p: int|
                0 <= p <= before.len() && v@ == #[trigger] before.insert(p, x);
            assert forall|k: int| 0 <= k < i + 1 implies #[trigger] holds_index(v@, k) by {
                if k == i {
                    assert(v@[p].index == k);
                } else {
                    assert(holds_index(before, k));
                    let j = choose|j: int| 0 <= j < i && (#[trigger] before[j]).index == k;
                    if j < p {
                        assert(v@[j].index == k);
                    } else {
                        assert(v@[j + 1].index == k);
                    }
                }
            }
            assert forall|j: int| 0 <= j < i + 1 implies (#[trigger] v@[j]).index < i + 1
                && v@[j].key() == keys[v@[j].index as int] by {
                if j < p {
                    assert(v@[j] == before[j]);
                } else if j > p {
                    assert(v@[j] == before[j - 1]);
                }
            }
        }
        i = i + 1;
    }
    let mut out: Vec<usize> = Vec::new();
    let mut j: usize = 0;
    while j < v.len()
        invariant
            j <= v@.len(),
            out@.len() == j,
            forall|k: int| 0 <= k < j ==> #[trigger] out@[k] == v@[k].index,
        decreases v@.len() - j,
    {
        out.push(v[j].index);
        j = j + 1;
    }
    proof {
        let order = out@.map_values(|i: usize| i as int);
        assert forall|k: int| 0 <= k < keys.len() implies order.contains(k) by {
            assert(holds_index(v@, k));
            let j = choose|j: int| 0 <= j < v@.len() && (#[trigger] v@[j]).index == k;
            assert(order[j] == k);
        }
        assert forall|a: int, b: int| 0 <= a < b < order.len() implies key_before(
            keys[#[trigger] order[a]],
            keys[#[trigger] order[b]],
        ) by {
            assert(v@[a].key() == keys[order[a]]);
            assert(v@[b].key() == keys[order[b]]);
        }
    }
    out
}

fn copy_chars(v: &Vec<char>) -> (r: Vec<char>)
    ensures
        r@ == v@,
{
    let mut out: Vec<char> = Vec::new();
    let mut i: usize = 0;
    while i < v.len()
        invariant
            i <= v@.len(),
            out@ == v@.take(i as int),
        decreases v@.len() - i,
    {
        out.push(v[i]);
        i = i + 1;
        assert(v@.take(i as int) =~= v@.take(i - 1).push(v@[i - 1]));
    }
    assert(v@.take(v@.len() as int) =~= v@);
    out
}

/// The text of a group; empty where there is none.
pub open spec fn group_text(g: Option<&str>) -> Seq<char> {
    match g {
        Some(s) => s@,
        None => Seq::empty(),
    }
}

/// Whether `r` lists the lanes in order of `keys`, each with the text of its group.
pub open spec fn lists_lanes(
    r: Seq<(usize, String)>,
    groups: Seq<Seq<char>>,
    keys: Seq<LaneKey>,
) -> bool {
    &&& is_order_of(r.map_values(|p: (usize, String)| p.0 as int), keys)
    &&& forall|j: int| 0 <= j < r.len() ==> (#[trigger] r[j]).1@ == groups[r[j].0 as int]
}

fn label_lanes(order: &Vec<usize>, groups: &Vec<Vec<char>>, Ghost(keys): Ghost<Seq<LaneKey>>) -> (r:
    Vec<(usize, String)>)
    requires
        is_order_of(order@.map_values(|i: usize| i as int), keys),
        keys.len() == groups@.len(),
    ensures
        lists_lanes(r@, groups@.map_values(|g: Vec<char>| g@), keys),
{
    let ghost places = order@.map_values(|i: usize| i as int);
    let mut out: Vec<(usize, String)> = Vec::new();
    let mut i: usize = 0;
    while i < order.len()
        invariant
            i <= order@.len(),
            places == order@.map_values(|i: usize| i as int),
            is_order_of(places, keys),
            keys.len() == groups@.len(),
            out@.len() == i,
            forall|j: int|
                0 <= j < i ==> (#[trigger] out@[j]).0 == order@[j] && out@[j].1@
                    == groups@[order@[j] as int]@,
        decreases order@.len() - i,
    {
        assert(0 <= places[i as int] < keys.len());
        out.push((order[i], string_of(&groups[order[i]])));
        i = i + 1;
    }
    proof {
        assert(out@.map_values(|p: (usize, String)| p.0 as int) =~= places);
        let texts = groups@.map_values(|g: Vec<char>| g@);
        assert forall|j: int| 0 <= j < out@.len() implies (#[trigger] out@[j]).1@
            == texts[out@[j].0 as int] by {
            assert(0 <= places[j] < keys.len());
        }
    }
    out
}

/// The lanes in stable order of their group. Lanes without one come last. Each
/// comes with its place in the input and its group.
pub fn group_order(groups: &[Option<&str>]) -> (r: Vec<(usize, String)>)
    ensures
        ({
            let texts = groups@.map_values(|g: Option<&str>| group_text(g));
            let paths = groups@.map_values(|g: Option<&str>| Seq::<char>::empty());
            lists_lanes(r@, texts, lane_keys(texts, paths, true))
        }),
{
    let mut texts: Vec<Vec<char>> = Vec::new();
    let mut paths: Vec<Vec<char>> = Vec::new();
    let mut i: usize = 0;
    while i < groups.len()
        invariant
            i <= groups@.len(),
            texts@.len() == i,
            paths@.len() == i,
            forall|j: int| 0 <= j < i ==> (#[trigger] texts@[j])@ == group_text(groups@[j]),
            forall|j: int| 0 <= j < i ==> (#[trigger] paths@[j])@ == Seq::<char>::empty(),
        decreases groups@.len() - i,
    {
        texts.push(
            match groups[i] {
                Some(s) => chars_of(s),
                None => Vec::new(),
            },
        );
        paths.push(Vec::new());
        i = i + 1;
    }
    proof {
        assert(texts@.map_values(|g: Vec<char>| g@) =~= groups@.map_values(
            |g: Option<&str>| group_text(g),
        ));
        assert(paths@.map_values(|g: Vec<char>| g@) =~= groups@.map_values(
            |g: Option<&str>| Seq::<char>::empty(),
        ));
    }
    let order = sort_lanes(&texts, &paths, true);
    let ghost keys = lane_keys(
        texts@.map_values(|g: Vec<char>| g@),
        paths@.map_values(|g: Vec<char>| g@),
        true,
    );
    label_lanes(&order, &texts, Ghost(keys))
}

/// The lanes in order of their group, and of their full path within a group.
/// Lanes without a group come last.
pub fn group_then_name_order(resolved: &[(Option<&str>, &str)]) -> (r: Vec<(usize, String)>)
    ensures
        ({
            let texts = resolved@.map_values(|g: (Option<&str>, &str)| group_text(g.0));
            let paths = resolved@.map_values(|g: (Option<&str>, &str)| g.1@);
            lists_lanes(r@, texts, lane_keys(texts, paths, true))
        }),
{
    let mut texts: Vec<Vec<char>> = Vec::new();
    let mut paths: Vec<Vec<char>> = Vec::new();
    let mut i: usize = 0;
    while i < resolved.len()
        invariant
            i <= resolved@.len(),
            texts@.len() == i,
            paths@.len() == i,
            forall|j: int| 0 <= j < i ==> (#[trigger] texts@[j])@ == group_text(resolved@[j].0),
            forall|j: int| 0 <= j < i ==> (#[trigger] paths@[j])@ == resolved@[j].1@,
        decreases resolved@.len() - i,
    {
        texts.push(
            match resolved[i].0 {
                Some(s) => chars_of(s),
                None => Vec::new(),
            },
        );
        paths.push(chars_of(resolved[i].1));
        i = i + 1;
    }
    proof {
        assert(texts@.map_values(|g: Vec<char>| g@) =~= resolved@.map_values(
            |g: (Option<&str>, &str)| group_text(g.0),
        ));
        assert(paths@.map_values(|g: Vec<char>| g@) =~= resolved@.map_values(
            |g: (Option<&str>, &str)| g.1@,
        ));
    }
    let order = sort_lanes(&texts, &paths, true);
    let ghost keys = lane_keys(
        texts@.map_values(|g: Vec<char>| g@),
        paths@.map_values(|g: Vec<char>| g@),
        true,
    );
    label_lanes(&order, &texts, Ghost(keys))
}

/// The channels of all groups, one group after another.
pub open spec fn all_members(r: Seq<(String, Vec<&ChannelInfo>)>) -> Seq<ChannelInfo>
    decreases r.len(),
{
    if r.len() == 0 {
        Seq::empty()
    } else {
        all_members(r.drop_last()) + r.last().1@.map_values(|c: &ChannelInfo| *c)
    }
}

/// The sort keys of channels: the group, then the path.
pub open spec fn channel_keys(channels: Seq<ChannelInfo>) -> Seq<LaneKey> {
    lane_keys(
        channels.map_values(|c: ChannelInfo| group_of(c.path@)),
        channels.map_values(|c: ChannelInfo| c.path@),
        false,
    )
}

/// The channels by the first dotted segment of their path: the groups in order of
/// their names, the channels of each in order of their paths.
pub fn group_by_struct<'a>(channels: &'a [ChannelInfo]) -> (r: Vec<(String, Vec<&'a ChannelInfo>)>)
    ensures
        forall|a: int, b: int|
            0 <= a < b < r@.len() ==> text_before((#[trigger] r@[a]).0@, (#[trigger] r@[b]).0@),
        forall|a: int, k: int|
            0 <= a < r@.len() && 0 <= k < r@[a].1@.len() ==> group_of(
                (#[trigger] r@[a].1@[k]).path@,
            ) == r@[a].0@,
        forall|a: int| 0 <= a < r@.len() ==> (#[trigger] r@[a]).1@.len() > 0,
        exists|order: Seq<int>| #[trigger]
            is_order_of(order, channel_keys(channels@)) && all_members(r@) == order.map_values(
                |i: int| channels@[i],
            ),
{
    let mut heads: Vec<Vec<char>> = Vec::new();
    let mut paths: Vec<Vec<char>> = Vec::new();
    let mut i: usize = 0;
    while i < channels.len()
        invariant
            i <= channels@.len(),
            heads@.len() == i,
            paths@.len() == i,
            forall|j: int|
                0 <= j < i ==> (#[trigger] heads@[j])@ == group_of(channels@[j].path@),
            forall|j: int| 0 <= j < i ==> (#[trigger] paths@[j])@ == channels@[j].path@,
        decreases channels@.len() - i,
    {
        heads.push(chars_of(channel_group(channels[i].path.as_str())));
        paths.push(chars_of(channels[i].path.as_str()));
        i = i + 1;
    }
    let ghost keys = channel_keys(channels@);
    proof {
        assert(heads@.map_values(|g: Vec<char>| g@) =~= channels@.map_values(
            |c: ChannelInfo| group_of(c.path@),
        ));
        assert(paths@.map_values(|g: Vec<char>| g@) =~= channels@.map_values(
            |c: ChannelInfo| c.path@,
        ));
    }
    let order = sort_lanes(&heads, &paths, false);
    let ghost places = order@.map_values(|i: usize| i as int);
    let mut out: Vec<(String, Vec<&'a ChannelInfo>)> = Vec::new();
    i = 0;
    assert(all_members(out@) =~= places.take(0).map_values(|i: int| channels@[i]));
    while i < order.len()
        invariant
            i <= order@.len(),
            keys == channel_keys(channels@),
            places == order@.map_values(|i: usize| i as int),
            is_order_of(places, keys),
            heads@.len() == channels@.len(),
            forall|j: int|
                0 <= j < heads@.len() ==> (#[trigger] heads@[j])@ == group_of(channels@[j].path@),
            forall|a: int, b: int|
                0 <= a < b < out@.len() ==> text_before(
                    (#[trigger] out@[a]).0@,
                    (#[trigger] out@[b]).0@,
                ),
            forall|a: int, k: int|
                0 <= a < out@.len() && 0 <= k < out@[a].1@.len() ==> group_of(
                    (#[trigger] out@[a].1@[k]).path@,
                ) == out@[a].0@,
            forall|a: int| 0 <= a < out@.len() ==> (#[trigger] out@[a]).1@.len() > 0,
            i == 0 <==> out@.len() == 0,
            i > 0 ==> out@.last().0@ == keys[places[i - 1]].group,
            all_members(out@) == places.take(i as int).map_values(|i: int| channels@[i]),
        decreases order@.len() - i,
    {
        let place: usize = order[i];
        assert(0 <= places[i as int] < keys.len());
        let c = &channels[place];
        let ghost before = out@;
        let n: usize = out.len();
        let same = n > 0 && crate::text::same_text(
            out[n - 1].0.as_str(),
            channel_group(c.path.as_str()),
        );
        proof {
            assert(keys[places[i as int]].group == group_of(c.path@));
            assert(places.take(i + 1).map_values(|i: int| channels@[i]) =~= places.take(
                i as int,
            ).map_values(|i: int| channels@[i]).push(*c));
            if i > 0 {
                assert(key_before(keys[places[i - 1]], keys[places[i as int]]));
            }
        }
        if same {
            out[n - 1].1.push(c);
            proof {
                assert(out@.drop_last() =~= before.drop_last());
                assert(out@.last().1@.map_values(|c: &ChannelInfo| *c)
                    =~= before.last().1@.map_values(|c: &ChannelInfo| *c).push(*c));
                assert(all_members(out@) =~= all_members(before).push(*c));
            }
        } else {
            let mut members: Vec<&'a ChannelInfo> = Vec::new();
            members.push(c);
            out.push((string_of(&heads[place]), members));
            proof {
                assert(out@.drop_last() =~= before);
                assert(members@.map_values(|c: &ChannelInfo| *c) =~= seq![*c]);
                assert(all_members(out@) =~= all_members(before).push(*c));
                assert forall|a: int, b: int| 0 <= a < b < out@.len() implies text_before(
                    (#[trigger] out@[a]).0@,
                    (#[trigger] out@[b]).0@,
                ) by {
                    if b == n && a < n - 1 {
                        assert(text_before(before[a].0@, before[n - 1].0@));
                        lemma_text_order_transitive(
                            before[a].0@,
                            before[n - 1].0@,
                            out@[b].0@,
                        );
                    }
                }
            }
        }
        i = i + 1;
    }
    assert(places.take(places.len() as int) =~= places);
    out
}

/// The ASCII lower-case form of a character.
pub open spec fn ascii_lower(c: char) -> char {
    if 'A' <= c && c <= 'Z' {
        (c as int + 32) as char
    } else {
        c
    }
}

/// The text with its ASCII letters in lower case.
pub open spec fn lowered(s: Seq<char>) -> Seq<char> {
    s.map_values(|c: char| ascii_lower(c))
}

/// Whether `b` occurs in `a` at `i`.
pub open spec fn occurs_at(a: Seq<char>, b: Seq<char>, i: int) -> bool {
    0 <= i && i + b.len() <= a.len() && a.subrange(i, i + b.len()) == b
}

/// Whether `b` occurs somewhere in `a`.
pub open spec fn occurs_in(a: Seq<char>, b: Seq<char>) -> bool {
    exists|i: int| occurs_at(a, b, i)
}

/// The characters of `s` with its ASCII letters in lower case.
pub fn lower_chars(s: &str) -> (r: Vec<char>)
    ensures
        r@ == lowered(s@),
{
    let v = chars_of(s);
    let mut out: Vec<char> = Vec::new();
    let mut i: usize = 0;
    while i < v.len()
        invariant
            i <= v@.len(),
            v@ == s@,
            out@.len() == i,
            forall|j: int| 0 <= j < i ==> #[trigger] out@[j] == ascii_lower(s@[j]),
        decreases v@.len() - i,
    {
        let c: char = v[i];
        if 'A' <= c && c <= 'Z' {
            out.push((c as u8 + 32) as char);
        } else {
            out.push(c);
        }
        i = i + 1;
    }
    assert(out@ =~= lowered(s@));
    out
}

/// Whether `b` occurs somewhere in `a`.
pub fn contains_chars(a: &Vec<char>, b: &Vec<char>) -> (r: bool)
    ensures
        r == occurs_in(a@, b@),
{
    let n: usize = a.len();
    let m: usize = b.len();
    if m > n {
        return false;
    }
    let mut i: usize = 0;
    while i <= n - m
        invariant
            m <= n,
            i <= n - m + 1,
            n == a@.len(),
            m == b@.len(),
            forall|k: int| 0 <= k < i ==> !occurs_at(a@, b@, k),
        decreases n - m + 1 - i,
    {
        let mut j: usize = 0;
        while j < m && a[i + j] == b[j]
            invariant
                j <= m,
                i + m <= n,
                n == a@.len(),
                m == b@.len(),
                forall|k: int| 0 <= k < j ==> a@[i + k] == b@[k],
            decreases m - j,
        {
            j = j + 1;
        }
        if j == m {
            assert(a@.subrange(i as int, i + m) =~= b@);
            assert(occurs_at(a@, b@, i as int));
            return true;
        }
        proof {
            if occurs_at(a@, b@, i as int) {
                assert(a@.subrange(i as int, i + m)[j as int] == b@[j as int]);
            }
        }
        i = i + 1;
    }
    false
}

/// Whether the query occurs in the path, without regard to ASCII case.
pub fn matches_query(path: &str, query: &str) -> (r: bool)
    ensures
        r == occurs_in(lowered(path@), lowered(query@)),
{
    contains_chars(&lower_chars(path), &lower_chars(query))
}

/// An empty query matches every path.
pub proof fn law_empty_query_matches(path: Seq<char>)
    ensures
        occurs_in(lowered(path), lowered(Seq::empty())),
{
    assert(lowered(path).subrange(0, 0) =~= lowered(Seq::empty()));
    assert(occurs_at(lowered(path), lowered(Seq::empty()), 0));
}

/// A label cut to fit `n` characters: whole if it fits, else with an ellipsis in
/// its last place, and empty where there is no room for that.
pub open spec fn fitted_label(label: Seq<char>, n: nat) -> Seq<char> {
    if n == 0 {
        Seq::empty()
    } else if label.len() <= n {
        label
    } else if n < 2 {
        Seq::empty()
    } else {
        label.take(n - 1).push('\u{2026}')
    }
}

/// Cuts a label to fit `available_chars`.
pub fn fit_label(label: &str, available_chars: usize) -> (r: String)
    ensures
        r@ == fitted_label(label@, available_chars as nat),
{
    let v = chars_of(label);
    let mut out = String::new();
    if available_chars == 0 {
        return out;
    }
    if v.len() <= available_chars {
        return label.to_owned();
    }
    if available_chars < 2 {
        return out;
    }
    append_text(&mut out, label.substring_char(0, available_chars - 1));
    out.push('\u{2026}');
    assert(out@ =~= fitted_label(label@, available_chars as nat));
    out
}

/// A cut label is never longer than the room there is for it.
pub proof fn law_fitted_label_fits(label: Seq<char>, n: nat)
    ensures
        fitted_label(label, n).len() <= n,
{
}

/// A path is its group and the rest, joined by the dot.
pub proof fn law_group_and_rest_make_the_path(path: Seq<char>)
    ensures
        find_from(path, '.', 0) < path.len() ==> group_of(path).push('.') + rest_of(path) == path,
        find_from(path, '.', 0) >= path.len() ==> group_of(path) == path && rest_of(path) == path,
{
    lemma_find_from(path, '.', 0);
    let i = find_from(path, '.', 0);
    if i < path.len() {
        assert(group_of(path).push('.') + rest_of(path) =~= path);
    } else {
        assert(group_of(path) =~= path);
    }
}

pub proof fn lemma_find_from(s: Seq<char>, c: char, i: int)
    requires
        0 <= i <= s.len(),
    ensures
        i <= find_from(s, c, i) <= s.len(),
        find_from(s, c, i) < s.len() ==> s[find_from(s, c, i)] == c,
        forall|j: int| i <= j < find_from(s, c, i) ==> s[j] != c,
    decreases s.len() - i,
{
    if i < s.len() && s[i] != c {
        lemma_find_from(s, c, i + 1);
    }
}

/// The last index below `n` of `c`, or one before the start.
pub open spec fn find_back(s: Seq<char>, c: char, n: int) -> int
    decreases n,
{
    if n <= 0 {
        -1
    } else if s[n - 1] == c {
        n - 1
    } else {
        find_back(s, c, n - 1)
    }
}

/// The text after the last dot; all of it where there is none.
pub open spec fn leaf_of(path: Seq<char>) -> Seq<char> {
    path.skip(find_back(path, '.', path.len() as int) + 1)
}

/// One more than the last index of `c`, or zero.
pub fn find_char_back(v: &Vec<char>, c: char) -> (r: usize)
    ensures
        r == find_back(v@, c, v@.len() as int) + 1,
        r <= v@.len(),
        r > 0 ==> v@[r - 1] == c,
        forall|j: int| r <= j < v@.len() ==> v@[j] != c,
{
    let mut n: usize = v.len();
    while n > 0 && v[n - 1] != c
        invariant
            n <= v@.len(),
            find_back(v@, c, v@.len() as int) == find_back(v@, c, n as int),
            forall|j: int| n <= j < v@.len() ==> v@[j] != c,
        decreases n,
    {
        n = n - 1;
    }
    n
}

/// The text after the last dot, or all of it: the short name of a channel.
pub fn short_name(p: &str) -> (r: &str)
    ensures
        r@ == leaf_of(p@),
{
    let v = chars_of(p);
    let start = find_char_back(&v, '.');
    assert(p@.subrange(start as int, p@.len() as int) =~= leaf_of(p@));
    p.substring_char(start, v.len())
}

/// The lanes of all groups, one group after another.
pub open spec fn all_lanes(r: Seq<(String, Vec<usize>)>) -> Seq<(usize, Seq<char>)>
    decreases r.len(),
{
    if r.len() == 0 {
        Seq::empty()
    } else {
        let key = r.last().0@;
        all_lanes(r.drop_last()) + r.last().1@.map_values(|i: usize| (i, key))
    }
}

/// Neighbouring lanes of the same group, collected. The order stays.
pub fn collapse_groups(order: &Vec<(usize, String)>) -> (r: Vec<(String, Vec<usize>)>)
    ensures
        all_lanes(r@) == order@.map_values(|p: (usize, String)| (p.0, p.1@)),
        forall|g: int| 0 <= g < r@.len() ==> (#[trigger] r@[g]).1@.len() > 0,
        forall|g: int| 0 < g < r@.len() ==> (#[trigger] r@[g]).0@ != r@[g - 1].0@,
{
    let mut out: Vec<(String, Vec<usize>)> = Vec::new();
    let mut i: usize = 0;
    let ghost all = order@.map_values(|p: (usize, String)| (p.0, p.1@));
    assert(all_lanes(out@) =~= all.take(0));
    while i < order.len()
        invariant
            i <= order@.len(),
            all == order@.map_values(|p: (usize, String)| (p.0, p.1@)),
            all_lanes(out@) == all.take(i as int),
            forall|g: int| 0 <= g < out@.len() ==> (#[trigger] out@[g]).1@.len() > 0,
            forall|g: int| 0 < g < out@.len() ==> (#[trigger] out@[g]).0@ != out@[g - 1].0@,
        decreases order@.len() - i,
    {
        let n: usize = out.len();
        let ghost before = out@;
        let ghost here = (order@[i as int].0, order@[i as int].1@);
        assert(all.take(i + 1) =~= all.take(i as int).push(here));
        if n > 0 && out[n - 1].0 == order[i].1 {
            out[n - 1].1.push(order[i].0);
            proof {
                let key = before.last().0@;
                assert(out@.drop_last() =~= before.drop_last());
                assert(out@.last().1@.map_values(|i: usize| (i, key))
                    =~= before.last().1@.map_values(|i: usize| (i, key)).push(here));
                assert(all_lanes(out@) =~= all_lanes(before).push(here));
            }
        } else {
            let mut lanes: Vec<usize> = Vec::new();
            lanes.push(order[i].0);
            out.push((order[i].1.clone(), lanes));
            proof {
                let key = here.1;
                assert(out@.drop_last() =~= before);
                assert(lanes@.map_values(|i: usize| (i, key)) =~= seq![here]);
                assert(all_lanes(out@) =~= all_lanes(before).push(here));
            }
        }
        i = i + 1;
    }
    assert(all.take(order@.len() as int) =~= all);
    out
}

} // verus!
