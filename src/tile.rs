use vstd::prelude::*;

verus! {

/// The largest value a tile can reach: two tiles of this value do not merge.
pub const CEILING: u32 = 2048;

/// The value of a freshly spawned tile, the lowest of the doubling sequence.
pub const SPAWN_VALUE: u32 = 2;

/// The content of one grid cell.
#[derive(Clone, Copy, Debug, PartialEq, Eq, Structural)]
pub enum Tile {
    Empty,
    Value(u32),
}

/// A command handed to the engine once per turn.
#[derive(Clone, Copy, Debug, PartialEq, Eq, Structural)]
pub enum MoveOpt {
    Up,
    Down,
    Left,
    Right,
    Undo,
    Terminate,
}

/// A tile value of the doubling sequence 2, 4, 8, ..., CEILING
/// (a power of two is the one positive number that shares no bit with its predecessor).
pub open spec fn valid_value(v: u32) -> bool {
    2 <= v <= CEILING && v & ((v - 1) as u32) == 0
}

pub open spec fn valid_tile(t: Tile) -> bool {
    match t {
        Tile::Empty => true,
        Tile::Value(v) => valid_value(v),
    }
}

/// Whether two tiles of value `v` merge, and into what.
pub open spec fn next_value_spec(v: u32) -> Option<u32> {
    if v < CEILING {
        Some((2 * v) as u32)
    } else {
        None
    }
}

/// The value two equal tiles of value `v` merge into, or `None` at the ceiling,
/// where they stay apart.
pub fn next_value(v: u32) -> (r: Option<u32>)
    ensures
        r == next_value_spec(v),
        r matches Some(w) ==> w == 2 * v,
{
    if v < CEILING {
        Some(2 * v)
    } else {
        None
    }
}

/// Merging keeps a value in the doubling sequence.
pub proof fn lemma_next_value_valid(v: u32)
    requires
        valid_value(v),
        v < CEILING,
    ensures
        valid_value((2 * v) as u32),
{
    assert(2 <= v && v < 2048 && v & ((v - 1) as u32) == 0 ==> 2 <= ((2 * v) as u32) && ((2
        * v) as u32) <= 2048 && ((2 * v) as u32) & ((((2 * v) as u32) - 1) as u32) == 0)
        by (bit_vector);
}

} // verus!
