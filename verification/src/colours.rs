//! Colours of signals, states and markers. A colour is its red, green and blue.

use crate::grouping::strip_group_prefix;
use crate::logview::LogRow;
use crate::store::ChannelId;
use vstd::prelude::*;

verus! {

use crate::grouping::rest_of;
use vstd::utf8::encode_utf8;

broadcast use vstd::std_specs::hash::group_hash_axioms;

/// Colours that new markers take in turn.
pub const MARKER_PALETTE: [[u8; 3]; 6] = [
    [220, 80, 80],
    [80, 200, 120],
    [80, 130, 220],
    [220, 180, 60],
    [180, 100, 200],
    [60, 200, 200],
];

/// The colour of the marker that is placed after `n` others.
pub fn marker_colour(n: usize) -> (r: [u8; 3])
    ensures
        r == MARKER_PALETTE@[n as int % 6],
{
    MARKER_PALETTE[n % 6]
}

/// The colour of the signal at place `i`; after ten they repeat.
pub open spec fn palette_colour(i: int) -> [u8; 3] {
    let k = i % 10;
    if k == 0 {
        [76, 114, 176]
    } else if k == 1 {
        [221, 132, 82]
    } else if k == 2 {
        [85, 168, 104]
    } else if k == 3 {
        [196, 78, 82]
    } else if k == 4 {
        [129, 114, 179]
    } else if k == 5 {
        [147, 120, 96]
    } else if k == 6 {
        [218, 139, 195]
    } else if k == 7 {
        [140, 140, 140]
    } else if k == 8 {
        [204, 185, 116]
    } else {
        [100, 182, 205]
    }
}

/// The colour of the signal at place `i`; after ten they repeat.
pub fn palette(i: usize) -> (r: [u8; 3])
    ensures
        r == palette_colour(i as int),
{
    match i % 10 {
        0 => [76, 114, 176],
        1 => [221, 132, 82],
        2 => [85, 168, 104],
        3 => [196, 78, 82],
        4 => [129, 114, 179],
        5 => [147, 120, 96],
        6 => [218, 139, 195],
        7 => [140, 140, 140],
        8 => [204, 185, 116],
        _ => [100, 182, 205],
    }
}

/// The 64-bit FNV-1a hash of bytes.
pub open spec fn fnv(bytes: Seq<u8>) -> u64
    decreases bytes.len(),
{
    if bytes.len() == 0 {
        14695981039346656037
    } else {
        let h = fnv(bytes.drop_last()) ^ (bytes.last() as u64);
        ((h * 1099511628211) % 0x1_0000_0000_0000_0000) as u64
    }
}

/// The hash of a channel's leaf name, which is what follows the first dot of its
/// path. The same leaf gives the same seed in every group.
pub fn name_seed(path: &str) -> (r: u64)
    ensures
        r == fnv(encode_utf8(rest_of(path@))),
{
    let leaf = strip_group_prefix(path);
    let bytes = leaf.as_bytes();
    let mut h: u64 = 14695981039346656037;
    let mut i: usize = 0;
    while i < bytes.len()
        invariant
            i <= bytes@.len(),
            h == fnv(bytes@.take(i as int)),
        decreases bytes@.len() - i,
    {
        assert(bytes@.take(i + 1).drop_last() =~= bytes@.take(i as int));
        let mixed: u64 = h ^ (bytes[i] as u64);
        h = mixed.wrapping_mul(1099511628211);
        i = i + 1;
    }
    assert(bytes@.take(bytes@.len() as int) =~= bytes@);
    h
}

/// The colour of a channel by its leaf name.
pub fn palette_for_name(path: &str) -> (r: [u8; 3])
    ensures
        r == palette_colour(fnv(encode_utf8(rest_of(path@))) as int % 10),
{
    palette((name_seed(path) % 10) as usize)
}

/// Channels with the same leaf name have the same colour, whatever their groups.
pub proof fn law_same_leaf_same_colour(a: Seq<char>, b: Seq<char>)
    requires
        rest_of(a) == rest_of(b),
    ensures
        palette_colour(fnv(encode_utf8(rest_of(a))) as int % 10) == palette_colour(
            fnv(encode_utf8(rest_of(b))) as int % 10,
        ),
{
}

/// The colour of a state: a mix of the seed of its channel and its value, moved
/// toward the middle.
pub open spec fn state_mix(seed: int, value: int) -> int {
    ((seed % 0x1_0000_0000) * 2654435761 + value * 40503) % 0x1_0000_0000
}

/// One part of a colour, moved toward the middle.
pub open spec fn softened(part: int) -> u8 {
    ((part + 96) / 2) as u8
}

/// The colour of a state.
pub open spec fn state_color(seed: int, value: int) -> [u8; 3] {
    let h = state_mix(seed, value);
    [softened(h / 0x1_0000 % 0x100), softened(h / 0x100 % 0x100), softened(h % 0x100)]
}

/// The colour of a state.
pub fn state_colour(seed: u64, value: u32) -> (r: [u8; 3])
    ensures
        r == state_color(seed as int, value as int),
{
    let low: u64 = seed % 0x1_0000_0000;
    assert(low * 2654435761 + value * 40503 <= u64::MAX) by (nonlinear_arith)
        requires
            low < 0x1_0000_0000,
            value < 0x1_0000_0000,
    ;
    assert(low * 2654435761 <= u64::MAX) by (nonlinear_arith)
        requires
            low < 0x1_0000_0000,
    ;
    let h: u64 = (low * 2654435761 + value as u64 * 40503) % 0x1_0000_0000;
    let red: u64 = (h / 0x1_0000 % 0x100 + 96) / 2;
    let green: u64 = (h / 0x100 % 0x100 + 96) / 2;
    let blue: u64 = (h % 0x100 + 96) / 2;
    [red as u8, green as u8, blue as u8]
}

/// The colour that a log row takes from the text of a column; none where the text is
/// empty or missing.
pub fn row_colour(row: &LogRow, color_by: Option<ChannelId>) -> (r: Option<[u8; 3]>)
    ensures
        r == (match color_by {
            Some(ch) => if row.cell_views().contains_key(ch)
                && row.cell_views()[ch].display.len() > 0 {
                Some(
                    state_color(
                        fnv(encode_utf8(rest_of(row.cell_views()[ch].display))) as int,
                        0,
                    ),
                )
            } else {
                None
            },
            None => None,
        }),
{
    match color_by {
        None => None,
        Some(ch) => match row.cells.get(&ch) {
            None => None,
            Some(cell) => if cell.display.as_str().is_empty() {
                None
            } else {
                Some(state_colour(name_seed(cell.display.as_str()), 0))
            },
        },
    }
}

} // verus!
