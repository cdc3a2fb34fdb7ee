use vstd::prelude::*;
use crate::tile::{Tile, MoveOpt, SPAWN_VALUE, next_value_spec};
use crate::line::{
    slid, compact, merge_values, merge_count, occupied, total, lemma_slid_compact,
    lemma_merge_len, lemma_sum_merge, lemma_slid_len, lemma_changed_line_has_empty,
};
use crate::grid::{
    is_direction, moved, num_lines, line_len, line_at, line_index, line_of, pos_of,
    lemma_line_index, lemma_cell_coords,
};
use crate::board::{BoardView, step, spawned, empty_positions, lemma_empty_positions};
use crate::sums::{
    lemma_sum_congr, lemma_total_by_lines, lemma_total_by_index,
    lemma_sum_fill,
};
use vstd::arithmetic::div_mod::lemma_mod_bound;

verus! {

/// A move that changes nothing leaves the whole board alone (no spawn, the
/// undo grid kept), and so does the same move again.
pub proof fn lemma_unchanged_move_repeats(b: BoardView, d: MoveOpt, first: int, second: int)
    requires
        is_direction(d),
        moved(b.current, d, b.width, b.height) == b.current,
    ensures
        step(b, d, first) == b,
        step(step(b, d, first), d, second) == b,
{
}

/// Two undos in a row restore the board: undo toggles between the two latest grids.
pub proof fn lemma_undo_twice(b: BoardView, first: int, second: int)
    ensures
        step(step(b, MoveOpt::Undo, first), MoveOpt::Undo, second) == b,
{
}

/// Undo right after a move that changed the grid shows the grid from before
/// that move; a second undo shows the grid after it again.
pub proof fn lemma_undo_after_move(b: BoardView, d: MoveOpt, p: int, q1: int, q2: int)
    requires
        is_direction(d),
        moved(b.current, d, b.width, b.height) != b.current,
    ensures
        step(step(b, d, p), MoveOpt::Undo, q1).current == b.current,
        step(step(step(b, d, p), MoveOpt::Undo, q1), MoveOpt::Undo, q2) == step(b, d, p),
{
}

/// Sliding a line keeps the sum of its values, and each merge event leaves one
/// occupied cell fewer.
pub proof fn lemma_merge_accounting(s: Seq<Tile>)
    ensures
        total(slid(s)) == total(s),
        occupied(slid(s)) + merge_count(compact(s)) == occupied(s),
{
    lemma_slid_compact(s);
    lemma_merge_len(compact(s));
    lemma_sum_merge(compact(s));
}

/// Two tiles of value `v` below the ceiling, alone in a line, merge into a
/// single tile of value `2 * v` at the front of the line.
pub proof fn lemma_pair_merges(s: Seq<Tile>, v: u32)
    requires
        compact(s) == seq![v, v],
        next_value_spec(v) is Some,
    ensures
        compact(slid(s)) == seq![(2 * v) as u32],
        slid(s)[0] == Tile::Value((2 * v) as u32),
{
    lemma_slid_compact(s);
    let c = compact(s);
    assert(c.subrange(2, 2) == Seq::<u32>::empty());
    assert(merge_values(Seq::<u32>::empty()) == Seq::<u32>::empty());
    assert(seq![(2 * v) as u32] + Seq::<u32>::empty() == seq![(2 * v) as u32]);
    assert(merge_values(c) == seq![(2 * v) as u32]);
    lemma_merge_len(c);
}

proof fn lemma_positions_none(s: Seq<Tile>)
    requires
        forall|j: int| 0 <= j < s.len() ==> s[j] != Tile::Empty,
    ensures
        empty_positions(s) == Seq::<int>::empty(),
    decreases s.len(),
{
    if s.len() > 0 {
        lemma_positions_none(s.drop_last());
    }
}

proof fn lemma_positions_one(s: Seq<Tile>, pos: int)
    requires
        0 <= pos < s.len(),
        s[pos] == Tile::Empty,
        forall|j: int| 0 <= j < s.len() && j != pos ==> s[j] != Tile::Empty,
    ensures
        empty_positions(s) == seq![pos],
    decreases s.len(),
{
    if pos == s.len() - 1 {
        lemma_positions_none(s.drop_last());
    } else {
        lemma_positions_one(s.drop_last(), pos);
    }
}

/// On a grid with exactly one empty cell, a spawn fills that cell, whatever the pick.
pub proof fn lemma_spawn_single_empty(cells: Seq<Tile>, pos: int, pick: int)
    requires
        0 <= pos < cells.len(),
        cells[pos] == Tile::Empty,
        forall|j: int| 0 <= j < cells.len() && j != pos ==> cells[j] != Tile::Empty,
    ensures
        spawned(cells, pick) == cells.update(pos, Tile::Value(SPAWN_VALUE)),
{
    lemma_positions_one(cells, pos);
    assert(pick % 1 == 0);
}

proof fn lemma_moved_lines(cells: Seq<Tile>, d: MoveOpt, w: int, h: int, k: int)
    requires
        is_direction(d),
        0 <= w,
        0 <= h,
        cells.len() == w * h,
        0 <= k < num_lines(d, w, h),
    ensures
        line_at(moved(cells, d, w, h), d, w, h, k) == slid(line_at(cells, d, w, h, k)),
{
    let l = line_at(cells, d, w, h, k);
    lemma_slid_len(l);
    assert forall|i: int| 0 <= i < line_len(d, w, h) implies #[trigger] line_at(
        moved(cells, d, w, h),
        d,
        w,
        h,
        k,
    )[i] == slid(l)[i] by {
        lemma_line_index(d, w, h, k, i);
    }
    assert(line_at(moved(cells, d, w, h), d, w, h, k) =~= slid(l));
}

/// A move without its spawn keeps the sum of the tile values: slides move
/// values, and a merge of two tiles of value `v` leaves one of `2 * v`.
pub proof fn lemma_move_keeps_total(cells: Seq<Tile>, d: MoveOpt, w: int, h: int)
    requires
        is_direction(d),
        0 <= w,
        0 <= h,
        cells.len() == w * h,
    ensures
        total(moved(cells, d, w, h)) == total(cells),
{
    let m = moved(cells, d, w, h);
    let nl = num_lines(d, w, h);
    lemma_total_by_lines(cells, d, w, h);
    lemma_total_by_lines(m, d, w, h);
    assert forall|k: int| 0 <= k < nl implies #[trigger] total(line_at(m, d, w, h, k)) == total(
        line_at(cells, d, w, h, k),
    ) by {
        lemma_moved_lines(cells, d, w, h, k);
        lemma_merge_accounting(line_at(cells, d, w, h, k));
    }
    lemma_sum_congr(
        |k: int| total(line_at(m, d, w, h, k)),
        |k: int| total(line_at(cells, d, w, h, k)),
        nl,
    );
}

proof fn lemma_positions_nonempty(s: Seq<Tile>, q: int)
    requires
        0 <= q < s.len(),
        s[q] == Tile::Empty,
    ensures
        empty_positions(s).len() > 0,
    decreases s.len(),
{
    if q < s.len() - 1 {
        lemma_positions_nonempty(s.drop_last(), q);
    }
}

/// A move that changes the grid leaves an empty cell, so its spawn always happens.
pub proof fn lemma_changed_grid_has_empty(cells: Seq<Tile>, d: MoveOpt, w: int, h: int)
    requires
        is_direction(d),
        0 <= w,
        0 <= h,
        cells.len() == w * h,
        moved(cells, d, w, h) != cells,
    ensures
        empty_positions(moved(cells, d, w, h)).len() > 0,
{
    let m = moved(cells, d, w, h);
    if forall|j: int| 0 <= j < cells.len() ==> #[trigger] m[j] == cells[j] {
        assert(m =~= cells);
    }
    let j = choose|j: int| 0 <= j < cells.len() && #[trigger] m[j] != cells[j];
    lemma_cell_coords(d, w, h, j);
    let k = line_of(d, w, h, j);
    let i = pos_of(d, w, h, j);
    let l = line_at(cells, d, w, h, k);
    lemma_slid_len(l);
    assert(l[i] == cells[j]);
    assert(slid(l)[i] != l[i]);
    lemma_changed_line_has_empty(l);
    let q = line_index(d, w, h, k, l.len() - 1);
    lemma_line_index(d, w, h, k, l.len() - 1);
    assert(m[q] == Tile::Empty);
    lemma_positions_nonempty(m, q);
}

/// A move that changes the grid raises the sum of the tile values by exactly
/// the value of the spawned tile; merges add nothing of their own.
pub proof fn lemma_move_adds_spawn_value(b: BoardView, d: MoveOpt, pick: int)
    requires
        is_direction(d),
        0 <= b.width,
        0 <= b.height,
        b.current.len() == b.width * b.height,
        moved(b.current, d, b.width, b.height) != b.current,
    ensures
        total(step(b, d, pick).current) == total(b.current) + SPAWN_VALUE,
{
    let m = moved(b.current, d, b.width, b.height);
    lemma_move_keeps_total(b.current, d, b.width, b.height);
    lemma_changed_grid_has_empty(b.current, d, b.width, b.height);
    let e = empty_positions(m);
    lemma_mod_bound(pick, e.len() as int);
    let p = e[pick % (e.len() as int)];
    lemma_empty_positions(m);
    let t = Tile::Value(SPAWN_VALUE);
    lemma_total_by_index(m);
    lemma_total_by_index(m.update(p, t));
    lemma_sum_fill(m, p, t, m.len() as int);
}

} // verus!
