//! Box-drawing characters by the directions they connect to.
use vstd::prelude::*;

verus! {

/// The box-drawing characters, indexed by the bits north, south, west, east
/// (east the lowest).
pub open spec fn box_chars() -> Seq<char> {
    seq![
        ' ',
        '\u{2576}',
        '\u{2574}',
        '\u{2500}',
        '\u{2577}',
        '\u{250c}',
        '\u{2510}',
        '\u{252c}',
        '\u{2575}',
        '\u{2514}',
        '\u{2518}',
        '\u{2534}',
        '\u{2502}',
        '\u{251c}',
        '\u{2524}',
        '\u{253c}',
    ]
}

/// The index of a connection set: `8 * north + 4 * south + 2 * west + east`.
pub open spec fn box_index(north: bool, south: bool, west: bool, east: bool) -> int {
    (if north { 8int } else { 0 }) + (if south { 4int } else { 0 }) + (if west { 2int } else { 0 }) + (
    if east { 1int } else { 0 })
}

/// The box-drawing character that connects to the given directions.
pub fn by_adjacency_nswe(north: bool, south: bool, west: bool, east: bool) -> (r: char)
    ensures
        r == box_chars()[box_index(north, south, west, east)],
{
    let chars: [char; 16] = [
        ' ',
        '\u{2576}',
        '\u{2574}',
        '\u{2500}',
        '\u{2577}',
        '\u{250c}',
        '\u{2510}',
        '\u{252c}',
        '\u{2575}',
        '\u{2514}',
        '\u{2518}',
        '\u{2534}',
        '\u{2502}',
        '\u{251c}',
        '\u{2524}',
        '\u{253c}',
    ];
    let index: usize = (if north { 8 } else { 0 }) + (if south { 4 } else { 0 }) + (if west { 2 } else { 0 }) + (
    if east { 1 } else { 0 });
    proof {
        assert(chars@ == box_chars());
    }
    chars[index]
}

} // verus!
