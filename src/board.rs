use vstd::prelude::*;
use vstd::arithmetic::div_mod::{
    lemma_fundamental_div_mod, lemma_multiply_divide_lt, lemma_div_pos_is_pos, lemma_mod_pos_bound,
    lemma_small_mod,
};
use crate::tile::{Tile, MoveOpt, SPAWN_VALUE, CEILING, valid_tile};
use crate::line::all_valid;
use crate::grid::{is_direction, moved, move_cells, lemma_moved_valid};
use crate::random::random_below;

verus! {

/// A grid position: column `x`, row `y`, both from 0.
pub struct Coord {
    pub x: usize,
    pub y: usize,
}

impl Coord {
    pub fn new(dim: (usize, usize)) -> (r: Coord)
        ensures
            r.x == dim.0,
            r.y == dim.1,
    {
        Coord { x: dim.0, y: dim.1 }
    }
}

/// The indices of the empty cells of `s`, in increasing order.
pub open spec fn empty_positions(s: Seq<Tile>) -> Seq<int>
    decreases s.len(),
{
    if s.len() == 0 {
        Seq::empty()
    } else {
        let rest = empty_positions(s.drop_last());
        if s.last() == Tile::Empty {
            rest.push(s.len() - 1)
        } else {
            rest
        }
    }
}

/// `cells` with a lowest-value tile written into the empty cell that `pick`
/// selects (the empty cells counted in storage order, `pick` taken modulo their
/// number); unchanged when no cell is empty.
pub open spec fn spawned(cells: Seq<Tile>, pick: int) -> Seq<Tile> {
    let e = empty_positions(cells);
    if e.len() == 0 {
        cells
    } else {
        cells.update(e[pick % (e.len() as int)], Tile::Value(SPAWN_VALUE))
    }
}

/// The state of a board: its size, the grid shown, and the one grid kept for undo.
pub struct BoardView {
    pub width: int,
    pub height: int,
    pub current: Seq<Tile>,
    pub last: Seq<Tile>,
}

/// The board after command `m`, where `pick` chooses the cell of the spawned tile.
/// A directional move that changes nothing leaves the whole state alone; one that
/// changes the grid keeps the grid before it for undo and spawns one tile.
/// Undo swaps the grid shown with the kept one, so a second undo restores it.
pub open spec fn step(b: BoardView, m: MoveOpt, pick: int) -> BoardView {
    match m {
        MoveOpt::Undo => BoardView { width: b.width, height: b.height, current: b.last, last: b.current },
        MoveOpt::Terminate => b,
        _ => {
            let n = moved(b.current, m, b.width, b.height);
            if n == b.current {
                b
            } else {
                BoardView {
                    width: b.width,
                    height: b.height,
                    current: spawned(n, pick),
                    last: b.current,
                }
            }
        },
    }
}

/// The game board: a grid of `dimensions.0` columns by `dimensions.1` rows,
/// stored row by row, and the grid before the last change, for undo.
pub struct Board {
    pub dimensions: (u8, u8),
    pub current: Vec<Tile>,
    pub last: Vec<Tile>,
}

impl View for Board {
    type V = BoardView;

    open spec fn view(&self) -> BoardView {
        BoardView {
            width: self.dimensions.0 as int,
            height: self.dimensions.1 as int,
            current: self.current@,
            last: self.last@,
        }
    }
}

pub proof fn lemma_empty_positions(s: Seq<Tile>)
    ensures
        forall|k: int|
            0 <= k < empty_positions(s).len() ==> 0 <= #[trigger] empty_positions(s)[k] < s.len()
                && s[empty_positions(s)[k]] == Tile::Empty,
    decreases s.len(),
{
    if s.len() > 0 {
        lemma_empty_positions(s.drop_last());
    }
}

proof fn lemma_spawned_valid(cells: Seq<Tile>, pick: int)
    requires
        all_valid(cells),
    ensures
        all_valid(spawned(cells, pick)),
        spawned(cells, pick).len() == cells.len(),
{
    assert(2u32 & 1u32 == 0) by (bit_vector);
    lemma_empty_positions(cells);
}

impl Tile {
    /// A lowest-value tile and an empty cell of `board` chosen uniformly at random for it.
    pub fn new(board: &Board) -> (r: (Tile, Coord))
        requires
            board.wf(),
            empty_positions(board.current@).len() > 0,
        ensures
            r.0 == Tile::Value(SPAWN_VALUE),
            r.1.x < board.width(),
            r.1.y < board.height(),
            exists|k: int|
                0 <= k < empty_positions(board.current@).len() && #[trigger] empty_positions(
                    board.current@,
                )[k] == r.1.y * board.width() + r.1.x,
    {
        let n = board.empty_cells().len();
        let k = random_below(n);
        let coord = board.nth_empty(k);
        assert(empty_positions(board.current@)[k as int] == coord.y * board.width() + coord.x);
        (Tile::Value(SPAWN_VALUE), coord)
    }
}

impl Board {
    pub open spec fn width(&self) -> int {
        self.dimensions.0 as int
    }

    pub open spec fn height(&self) -> int {
        self.dimensions.1 as int
    }

    /// Both grids have one cell per position and hold only tiles of the doubling sequence.
    pub open spec fn wf(&self) -> bool {
        &&& self.current.len() == self.width() * self.height()
        &&& self.last.len() == self.width() * self.height()
        &&& all_valid(self.current@)
        &&& all_valid(self.last@)
    }

    /// An empty board; the grid kept for undo is empty too.
    pub fn new(dimensions: (u8, u8)) -> (r: Board)
        ensures
            r.wf(),
            r.dimensions == dimensions,
            r.current@ == Seq::new((dimensions.0 * dimensions.1) as nat, |i: int| Tile::Empty),
            r.last@ == r.current@,
    {
        proof {
            assert(dimensions.0 as usize * dimensions.1 as usize <= 255 * 255) by (nonlinear_arith)
                requires
                    dimensions.0 <= 255,
                    dimensions.1 <= 255,
            ;
        }
        let n: usize = dimensions.0 as usize * dimensions.1 as usize;
        let mut current: Vec<Tile> = Vec::new();
        while current.len() < n
            invariant
                current.len() <= n,
                current@ == Seq::new(current.len() as nat, |i: int| Tile::Empty),
            decreases n - current.len(),
        {
            current.push(Tile::Empty);
            assert(current@ == Seq::new(current.len() as nat, |i: int| Tile::Empty));
        }
        let last = current.clone();
        assert(last@ == current@);
        Board { dimensions, current, last }
    }

    /// The tile at column `x`, row `y`, or `None` outside the grid.
    pub fn tile_at(&self, x: usize, y: usize) -> (r: Option<Tile>)
        requires
            self.wf(),
        ensures
            r == if x < self.width() && y < self.height() {
                Some(self.current@[y * self.width() + x])
            } else {
                None
            },
    {
        let w = self.dimensions.0 as usize;
        let h = self.dimensions.1 as usize;
        if x < w && y < h {
            proof {
                assert(y * w + x < w * h) by (nonlinear_arith)
                    requires
                        x < w,
                        y < h,
                ;
            }
            Some(self.current[y * w + x])
        } else {
            None
        }
    }

    /// The indices of the empty cells, in increasing order.
    pub fn empty_cells(&self) -> (r: Vec<usize>)
        ensures
            r@.map_values(|p: usize| p as int) == empty_positions(self.current@),
    {
        let mut r: Vec<usize> = Vec::new();
        let mut i: usize = 0;
        while i < self.current.len()
            invariant
                i <= self.current.len(),
                r@.map_values(|p: usize| p as int) == empty_positions(
                    self.current@.subrange(0, i as int),
                ),
            decreases self.current.len() - i,
        {
            assert(self.current@.subrange(0, i + 1).drop_last() == self.current@.subrange(
                0,
                i as int,
            ));
            if self.current[i] == Tile::Empty {
                r.push(i);
            }
            i += 1;
            assert(r@.map_values(|p: usize| p as int) == empty_positions(
                self.current@.subrange(0, i as int),
            ));
        }
        assert(self.current@.subrange(0, i as int) == self.current@);
        r
    }

    /// The position of the `k`-th empty cell, counted in storage order from 0.
    pub fn nth_empty(&self, k: usize) -> (c: Coord)
        requires
            self.wf(),
            k < empty_positions(self.current@).len(),
        ensures
            c.x < self.width(),
            c.y < self.height(),
            c.y * self.width() + c.x == empty_positions(self.current@)[k as int],
    {
        let e = self.empty_cells();
        proof {
            lemma_empty_positions(self.current@);
            assert(e@.map_values(|p: usize| p as int)[k as int] == e@[k as int] as int);
        }
        let idx = e[k];
        let w = self.dimensions.0 as usize;
        proof {
            let wi = w as int;
            let hi = self.height();
            assert(wi > 0) by (nonlinear_arith)
                requires
                    idx < wi * hi,
                    0 <= wi,
                    0 <= hi,
            ;
            lemma_fundamental_div_mod(idx as int, wi);
            lemma_mod_pos_bound(idx as int, wi);
            lemma_div_pos_is_pos(idx as int, wi);
            lemma_multiply_divide_lt(idx as int, wi, hi);
            assert(wi * (idx as int / wi) == (idx as int / wi) * wi) by (nonlinear_arith);
        }
        Coord::new((idx % w, idx / w))
    }

    /// Writes `new_tile` at `coord`.
    pub fn write_tile(&mut self, placed: (Tile, Coord))
        requires
            old(self).wf(),
            placed.1.x < old(self).width(),
            placed.1.y < old(self).height(),
            valid_tile(placed.0),
        ensures
            final(self).wf(),
            final(self).dimensions == old(self).dimensions,
            final(self).current@ == old(self).current@.update(
                placed.1.y * old(self).width() + placed.1.x,
                placed.0,
            ),
            final(self).last@ == old(self).last@,
    {
        let (new_tile, coord) = placed;
        let w = self.dimensions.0 as usize;
        proof {
            assert(coord.y * w + coord.x < w * self.height()) by (nonlinear_arith)
                requires
                    coord.x < w,
                    coord.y < self.height(),
            ;
        }
        self.current.set(coord.y * w + coord.x, new_tile);
    }

    /// Writes a lowest-value tile into the empty cell that `pick` selects
    /// (see `spawned`); returns whether some cell was empty.
    pub fn spawn_tile(&mut self, pick: usize) -> (r: bool)
        requires
            old(self).wf(),
        ensures
            final(self).wf(),
            final(self).dimensions == old(self).dimensions,
            final(self).current@ == spawned(old(self).current@, pick as int),
            final(self).last@ == old(self).last@,
            r == (empty_positions(old(self).current@).len() > 0),
    {
        let n = self.empty_cells().len();
        proof {
            assert(empty_positions(self.current@).len() == n);
            lemma_spawned_valid(self.current@, pick as int);
        }
        if n == 0 {
            return false;
        }
        let c = self.nth_empty(pick % n);
        assert(2u32 & 1u32 == 0) by (bit_vector);
        self.write_tile((Tile::Value(SPAWN_VALUE), c));
        true
    }

    /// Writes a lowest-value tile into an empty cell chosen uniformly at
    /// random; returns whether some cell was empty.
    pub fn spawn_random(&mut self) -> (r: bool)
        requires
            old(self).wf(),
        ensures
            final(self).wf(),
            final(self).dimensions == old(self).dimensions,
            exists|pick: int| #[trigger] spawned(old(self).current@, pick) == final(self).current@,
            final(self).last@ == old(self).last@,
            r == (empty_positions(old(self).current@).len() > 0),
    {
        let n = self.empty_cells().len();
        if n == 0 {
            assert(spawned(self.current@, 0) == self.current@);
            return false;
        }
        let ghost before = self.current@;
        let placed = Tile::new(self);
        let ghost k = choose|k: int|
            0 <= k < n && #[trigger] empty_positions(before)[k] == placed.1.y * self.width()
                + placed.1.x;
        proof {
            lemma_small_mod(k as nat, n as nat);
        }
        assert(2u32 & 1u32 == 0) by (bit_vector);
        self.write_tile(placed);
        assert(spawned(before, k) == self.current@);
        true
    }

    /// Places the two starting tiles, each in a random empty cell (as far as
    /// empty cells remain).
    pub fn starting_tiles(&mut self)
        requires
            old(self).wf(),
        ensures
            final(self).wf(),
            final(self).dimensions == old(self).dimensions,
            exists|first: int, second: int|
                #[trigger] spawned(spawned(old(self).current@, first), second) == final(self).current@,
            final(self).last@ == old(self).last@,
    {
        let ghost c0 = self.current@;
        self.spawn_random();
        let ghost c1 = self.current@;
        let ghost first = choose|pick: int| #[trigger] spawned(c0, pick) == c1;
        self.spawn_random();
        let ghost second = choose|pick: int| #[trigger] spawned(c1, pick) == self.current@;
        assert(spawned(spawned(c0, first), second) == self.current@);
    }

    /// Slides the grid toward `d`; when that changes it, the grid before is kept
    /// for undo. Returns whether the grid changed.
    fn apply_direction(&mut self, d: MoveOpt) -> (changed: bool)
        requires
            old(self).wf(),
            is_direction(d),
        ensures
            final(self).wf(),
            final(self).dimensions == old(self).dimensions,
            changed == (moved(old(self).current@, d, old(self).width(), old(self).height())
                != old(self).current@),
            changed ==> final(self).current@ == moved(
                old(self).current@,
                d,
                old(self).width(),
                old(self).height(),
            ) && final(self).last@ == old(self).current@,
            !changed ==> final(self).current@ == old(self).current@ && final(self).last@ == old(
                self,
            ).last@,
    {
        let w = self.dimensions.0 as usize;
        let h = self.dimensions.1 as usize;
        let mut next = move_cells(&self.current, d, w, h);
        proof {
            lemma_moved_valid(self.current@, d, w as int, h as int);
        }
        if same_tiles(&next, &self.current) {
            return false;
        }
        std::mem::swap(&mut self.current, &mut next);
        self.last = next;
        true
    }

    /// Whether the game is over: no move in any direction changes the grid.
    pub fn is_over(&self) -> (r: bool)
        requires
            self.wf(),
        ensures
            r == forall|d: MoveOpt|
                is_direction(d) ==> #[trigger] moved(self.current@, d, self.width(), self.height())
                    == self.current@,
    {
        let w = self.dimensions.0 as usize;
        let h = self.dimensions.1 as usize;
        let up = move_cells(&self.current, MoveOpt::Up, w, h);
        let down = move_cells(&self.current, MoveOpt::Down, w, h);
        let left = move_cells(&self.current, MoveOpt::Left, w, h);
        let right = move_cells(&self.current, MoveOpt::Right, w, h);
        same_tiles(&up, &self.current) && same_tiles(&down, &self.current) && same_tiles(
            &left,
            &self.current,
        ) && same_tiles(&right, &self.current)
    }

    /// Whether some tile has reached the ceiling value.
    pub fn has_won(&self) -> (r: bool)
        ensures
            r == exists|i: int|
                0 <= i < self.current.len() && #[trigger] self.current@[i] == Tile::Value(CEILING),
    {
        let mut i: usize = 0;
        while i < self.current.len()
            invariant
                i <= self.current.len(),
                forall|j: int| 0 <= j < i ==> #[trigger] self.current@[j] != Tile::Value(CEILING),
            decreases self.current.len() - i,
        {
            if self.current[i] == Tile::Value(CEILING) {
                return true;
            }
            i += 1;
        }
        false
    }

    /// Undo: swaps the grid shown with the one kept; a second undo swaps them back.
    pub fn undo(&mut self)
        requires
            old(self).wf(),
        ensures
            final(self).wf(),
            final(self).dimensions == old(self).dimensions,
            final(self).current@ == old(self).last@,
            final(self).last@ == old(self).current@,
    {
        std::mem::swap(&mut self.current, &mut self.last);
    }

    /// Carries out command `mov`, with `pick` choosing the cell of a spawned tile
    /// (see `step`).
    pub fn make_move_with(&mut self, mov: MoveOpt, pick: usize)
        requires
            old(self).wf(),
        ensures
            final(self).wf(),
            final(self).dimensions == old(self).dimensions,
            final(self)@ == step(old(self)@, mov, pick as int),
    {
        match mov {
            MoveOpt::Undo => self.undo(),
            MoveOpt::Terminate => {},
            _ => {
                if self.apply_direction(mov) {
                    self.spawn_tile(pick);
                }
            },
        }
    }

    /// Carries out the command in `move_opt`; a tile spawned after a move goes
    /// into an empty cell chosen uniformly at random. Terminate leaves the board
    /// alone: ending the game is the caller's part.
    pub fn make_move(&mut self, move_opt: &Option<MoveOpt>)
        requires
            old(self).wf(),
            move_opt is Some,
        ensures
            final(self).wf(),
            final(self).dimensions == old(self).dimensions,
            exists|pick: int| #[trigger] step(old(self)@, move_opt->0, pick) == final(self)@,
    {
        let mov = match move_opt {
            Some(m) => *m,
            None => MoveOpt::Terminate,
        };
        let ghost before = self@;
        match mov {
            MoveOpt::Undo => {
                self.undo();
                assert(step(before, mov, 0) == self@);
            },
            MoveOpt::Terminate => {
                assert(step(before, mov, 0) == self@);
            },
            _ => {
                if self.apply_direction(mov) {
                    let ghost mid = self.current@;
                    self.spawn_random();
                    let ghost p = choose|pick: int| #[trigger] spawned(mid, pick) == self.current@;
                    assert(step(before, mov, p) == self@);
                } else {
                    assert(step(before, mov, 0) == self@);
                }
            },
        }
    }
}

/// Whether two grids hold the same tiles.
fn same_tiles(a: &Vec<Tile>, b: &Vec<Tile>) -> (r: bool)
    ensures
        r == (a@ == b@),
{
    if a.len() != b.len() {
        return false;
    }
    let mut i: usize = 0;
    while i < a.len()
        invariant
            a.len() == b.len(),
            i <= a.len(),
            forall|j: int| 0 <= j < i ==> a@[j] == b@[j],
        decreases a.len() - i,
    {
        if a[i] != b[i] {
            return false;
        }
        i += 1;
    }
    assert(a@ == b@);
    true
}

} // verus!
