use vstd::prelude::*;

verus! {

/// Which of the first four background sprites is drawn at grid position `tile`
/// on a board of `board_dim` cells: 0 at the origin, 1 at `(width, 0)`,
/// 2 at `(0, height)`, 3 at `(width, height)`; none elsewhere.
pub fn background_sprite(tile: (u8, u8), board_dim: (u8, u8)) -> (r: Option<usize>)
    ensures
        r == if tile.0 == 0 && tile.1 == 0 {
            Some(0usize)
        } else if tile.0 == board_dim.0 && tile.1 == 0 {
            Some(1usize)
        } else if tile.0 == 0 && tile.1 == board_dim.1 {
            Some(2usize)
        } else if tile.0 == board_dim.0 && tile.1 == board_dim.1 {
            Some(3usize)
        } else {
            None
        },
{
    if tile.0 == 0 && tile.1 == 0 {
        Some(0)
    } else if tile.0 == board_dim.0 && tile.1 == 0 {
        Some(1)
    } else if tile.0 == 0 && tile.1 == board_dim.1 {
        Some(2)
    } else if tile.0 == board_dim.0 && tile.1 == board_dim.1 {
        Some(3)
    } else {
        None
    }
}

} // verus!
