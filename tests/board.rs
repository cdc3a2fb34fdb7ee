use game2048::board::Board;
use game2048::grid::move_cells;
use game2048::line::slide_line;
use game2048::render::background_sprite;
use game2048::tile::{next_value, MoveOpt, Tile, CEILING, SPAWN_VALUE};

const E: Tile = Tile::Empty;

fn v(x: u32) -> Tile {
    Tile::Value(x)
}

fn board_with(w: u8, h: u8, cells: Vec<Tile>) -> Board {
    let mut b = Board::new((w, h));
    b.current = cells.clone();
    b.last = cells;
    b
}

fn sum(cells: &[Tile]) -> u32 {
    cells
        .iter()
        .map(|t| match t {
            Tile::Value(x) => *x,
            Tile::Empty => 0,
        })
        .sum()
}

fn occupied(cells: &[Tile]) -> usize {
    cells.iter().filter(|t| **t != Tile::Empty).count()
}

fn grid_4x4_first_row(row: [Tile; 4]) -> Vec<Tile> {
    let mut cells = vec![E; 16];
    cells[..4].copy_from_slice(&row);
    cells
}

#[test]
fn new_board_is_empty() {
    let b = Board::new((4, 4));
    assert_eq!(b.dimensions, (4, 4));
    assert_eq!(b.current, vec![E; 16]);
    assert_eq!(b.last, vec![E; 16]);
}

#[test]
fn tile_at_reads_row_major_and_rejects_outside() {
    let mut cells = vec![E; 6];
    cells[1 * 3 + 2] = v(8);
    let b = board_with(3, 2, cells);
    assert_eq!(b.tile_at(2, 1), Some(v(8)));
    assert_eq!(b.tile_at(0, 0), Some(E));
    assert_eq!(b.tile_at(3, 0), None);
    assert_eq!(b.tile_at(0, 2), None);
}

#[test]
fn next_value_doubles_below_ceiling() {
    assert_eq!(next_value(2), Some(4));
    assert_eq!(next_value(1024), Some(2048));
    assert_eq!(next_value(CEILING), None);
}

#[test]
fn left_merges_pair_and_keeps_four_apart() {
    assert_eq!(slide_line(&vec![v(2), v(2), v(4), E]), vec![v(4), v(4), E, E]);
    let cells = grid_4x4_first_row([v(2), v(2), v(4), E]);
    let moved = move_cells(&cells, MoveOpt::Left, 4, 4);
    assert_eq!(moved, grid_4x4_first_row([v(4), v(4), E, E]));
}

#[test]
fn left_merges_middle_pair_only() {
    assert_eq!(slide_line(&vec![v(2), v(4), v(4), v(2)]), vec![v(2), v(8), v(2), E]);
    let cells = grid_4x4_first_row([v(2), v(4), v(4), v(2)]);
    let moved = move_cells(&cells, MoveOpt::Left, 4, 4);
    assert_eq!(moved, grid_4x4_first_row([v(2), v(8), v(2), E]));
}

#[test]
fn slide_line_edge_cases() {
    assert_eq!(slide_line(&vec![]), vec![]);
    assert_eq!(slide_line(&vec![E, E, E, E]), vec![E, E, E, E]);
    assert_eq!(slide_line(&vec![v(2), v(2), v(2), v(2)]), vec![v(4), v(4), E, E]);
    assert_eq!(slide_line(&vec![E, v(2), E, v(2)]), vec![v(4), E, E, E]);
    assert_eq!(slide_line(&vec![v(2), v(2), v(2), E]), vec![v(4), v(2), E, E]);
    assert_eq!(slide_line(&vec![v(2048), v(2048), E]), vec![v(2048), v(2048), E]);
}

#[test]
fn merge_leaves_one_tile_of_double_value() {
    let before = vec![E, v(8), E, v(8)];
    let after = slide_line(&before);
    assert_eq!(after, vec![v(16), E, E, E]);
    assert_eq!(occupied(&after), occupied(&before) - 1);
    assert_eq!(sum(&after), sum(&before));
}

#[test]
fn moves_in_all_four_directions() {
    // 2 . .
    // 2 4 .
    // . 4 2
    let cells = vec![v(2), E, E, v(2), v(4), E, E, v(4), v(2)];
    assert_eq!(
        move_cells(&cells, MoveOpt::Up, 3, 3),
        vec![v(4), v(8), v(2), E, E, E, E, E, E]
    );
    assert_eq!(
        move_cells(&cells, MoveOpt::Down, 3, 3),
        vec![E, E, E, E, E, E, v(4), v(8), v(2)]
    );
    assert_eq!(
        move_cells(&cells, MoveOpt::Right, 3, 3),
        vec![E, E, v(2), E, v(2), v(4), E, v(4), v(2)]
    );
    assert_eq!(
        move_cells(&cells, MoveOpt::Left, 3, 3),
        vec![v(2), E, E, v(2), v(4), E, v(4), v(2), E]
    );
}

#[test]
fn unchanged_move_is_idempotent() {
    let cells = grid_4x4_first_row([v(2), v(4), E, E]);
    let mut b = board_with(4, 4, cells.clone());
    b.last = vec![E; 16];
    b.make_move(&Some(MoveOpt::Left));
    assert_eq!(b.current, cells);
    assert_eq!(b.last, vec![E; 16]);
    b.make_move(&Some(MoveOpt::Left));
    assert_eq!(b.current, cells);
    assert_eq!(b.last, vec![E; 16]);
    b.make_move(&Some(MoveOpt::Up));
    assert_eq!(b.current, cells);
}

#[test]
fn changing_move_adds_spawn_value_to_sum() {
    let cells = grid_4x4_first_row([v(2), v(2), v(4), E]);
    let mut b = board_with(4, 4, cells.clone());
    b.make_move(&Some(MoveOpt::Left));
    assert_eq!(sum(&b.current), sum(&cells) + SPAWN_VALUE);
    assert_eq!(b.last, cells);
    let mut b = board_with(4, 4, grid_4x4_first_row([E, v(2), E, v(4)]));
    b.make_move(&Some(MoveOpt::Left));
    assert_eq!(sum(&b.current), 6 + SPAWN_VALUE);
    assert_eq!(occupied(&b.current), 3);
}

#[test]
fn make_move_with_places_spawn_by_pick() {
    let cells = grid_4x4_first_row([v(2), v(2), v(4), E]);
    let mut b = board_with(4, 4, cells.clone());
    // after the move the empty cells are 2, 3, 4, ..., 15: pick 13 is index 15
    b.make_move_with(MoveOpt::Left, 13);
    let mut expected = grid_4x4_first_row([v(4), v(4), E, E]);
    expected[15] = v(2);
    assert_eq!(b.current, expected);
    assert_eq!(b.last, cells);
    // the pick is taken modulo the number of empty cells
    let mut b = board_with(4, 4, cells);
    b.make_move_with(MoveOpt::Left, 14);
    assert_eq!(b.current, grid_4x4_first_row([v(4), v(4), v(2), E]));
}

#[test]
fn undo_twice_toggles() {
    let cells = grid_4x4_first_row([v(2), v(2), E, E]);
    let mut b = board_with(4, 4, cells.clone());
    b.make_move(&Some(MoveOpt::Right));
    let after = b.current.clone();
    assert_ne!(after, cells);
    b.make_move(&Some(MoveOpt::Undo));
    assert_eq!(b.current, cells);
    assert_eq!(b.last, after);
    b.make_move(&Some(MoveOpt::Undo));
    assert_eq!(b.current, after);
    assert_eq!(b.last, cells);
}

#[test]
fn terminate_leaves_board_alone() {
    let cells = grid_4x4_first_row([v(2), E, v(2), E]);
    let mut b = board_with(4, 4, cells.clone());
    b.make_move(&Some(MoveOpt::Terminate));
    assert_eq!(b.current, cells);
}

#[test]
fn spawn_on_single_empty_cell_fills_it() {
    let mut cells: Vec<Tile> = (0..16u32).map(|i| v(if i % 2 == 0 { 2 } else { 4 })).collect();
    cells[9] = E;
    let b = board_with(4, 4, cells.clone());
    for _ in 0..50 {
        let (t, c) = Tile::new(&b);
        assert_eq!(t, v(SPAWN_VALUE));
        assert_eq!((c.x, c.y), (1, 2));
    }
    let mut b = board_with(4, 4, cells.clone());
    assert!(b.spawn_random());
    let mut expected = cells.clone();
    expected[9] = v(2);
    assert_eq!(b.current, expected);
    assert!(!b.spawn_random());
    assert_eq!(b.current, expected);
    let mut b = board_with(4, 4, cells);
    assert!(b.spawn_tile(7));
    assert_eq!(b.current, expected);
}

#[test]
fn empty_cells_and_nth_empty() {
    let b = board_with(3, 2, vec![v(2), E, v(4), E, E, v(8)]);
    assert_eq!(b.empty_cells(), vec![1, 3, 4]);
    let c = b.nth_empty(2);
    assert_eq!((c.x, c.y), (1, 1));
}

#[test]
fn write_tile_sets_one_cell() {
    let mut b = Board::new((2, 2));
    b.write_tile((v(4), game2048::Coord::new((1, 0))));
    assert_eq!(b.current, vec![E, v(4), E, E]);
}

#[test]
fn starting_tiles_places_two_tiles() {
    for _ in 0..20 {
        let mut b = Board::new((4, 4));
        b.starting_tiles();
        assert_eq!(occupied(&b.current), 2);
        assert_eq!(sum(&b.current), 4);
    }
    let mut b = Board::new((1, 1));
    b.starting_tiles();
    assert_eq!(b.current, vec![v(2)]);
}

#[test]
fn background_sprite_positions() {
    assert_eq!(background_sprite((0, 0), (4, 4)), Some(0));
    assert_eq!(background_sprite((4, 0), (4, 4)), Some(1));
    assert_eq!(background_sprite((0, 4), (4, 4)), Some(2));
    assert_eq!(background_sprite((4, 4), (4, 4)), Some(3));
    assert_eq!(background_sprite((1, 2), (4, 4)), None);
}

#[test]
fn game_over_only_when_no_move_changes_grid() {
    let full: Vec<Tile> = vec![v(2), v(4), v(2), v(4), v(2), v(4), v(2), v(4), v(2)];
    assert!(board_with(3, 3, full.clone()).is_over());
    let mut mergeable = full.clone();
    mergeable[1] = v(2);
    assert!(!board_with(3, 3, mergeable).is_over());
    let mut with_gap = full;
    with_gap[4] = E;
    assert!(!board_with(3, 3, with_gap).is_over());
    assert!(board_with(2, 2, vec![E; 4]).is_over());
}

#[test]
fn has_won_at_ceiling_tile() {
    assert!(!board_with(2, 2, vec![v(1024), v(1024), E, E]).has_won());
    let mut b = board_with(2, 2, vec![v(1024), v(1024), E, E]);
    b.make_move_with(MoveOpt::Left, 0);
    assert_eq!(b.current[0], v(2048));
    assert!(b.has_won());
}
