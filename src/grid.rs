use vstd::prelude::*;
use vstd::arithmetic::div_mod::{
    lemma_fundamental_div_mod, lemma_fundamental_div_mod_converse, lemma_multiply_divide_lt,
    lemma_div_pos_is_pos, lemma_mod_pos_bound,
};
use crate::tile::{Tile, MoveOpt};
use crate::line::{slid, slide_line, lemma_slid_len, lemma_slid_valid, all_valid};

verus! {

// A grid of width `w` and height `h` is stored row by row: cell (x, y) sits at
// index `y * w + x`. A move toward one edge cuts the grid into lines that run
// from that edge inward (rows for Left and Right, columns for Up and Down),
// and slides each of them toward its front.

pub open spec fn is_direction(d: MoveOpt) -> bool {
    matches!(d, MoveOpt::Up | MoveOpt::Down | MoveOpt::Left | MoveOpt::Right)
}

/// How many lines a move toward `d` works on.
pub open spec fn num_lines(d: MoveOpt, w: int, h: int) -> int {
    match d {
        MoveOpt::Left | MoveOpt::Right => h,
        _ => w,
    }
}

/// How many cells each of those lines has.
pub open spec fn line_len(d: MoveOpt, w: int, h: int) -> int {
    match d {
        MoveOpt::Left | MoveOpt::Right => w,
        _ => h,
    }
}

/// The grid index of cell `i` of line `k`, counted from the edge the move goes toward.
pub open spec fn line_index(d: MoveOpt, w: int, h: int, k: int, i: int) -> int {
    match d {
        MoveOpt::Left => k * w + i,
        MoveOpt::Right => k * w + (w - 1 - i),
        MoveOpt::Up => i * w + k,
        _ => (h - 1 - i) * w + k,
    }
}

/// The line that grid index `j` belongs to.
pub open spec fn line_of(d: MoveOpt, w: int, h: int, j: int) -> int {
    match d {
        MoveOpt::Left | MoveOpt::Right => j / w,
        _ => j % w,
    }
}

/// The place of grid index `j` within its line.
pub open spec fn pos_of(d: MoveOpt, w: int, h: int, j: int) -> int {
    match d {
        MoveOpt::Left => j % w,
        MoveOpt::Right => w - 1 - j % w,
        MoveOpt::Up => j / w,
        _ => h - 1 - j / w,
    }
}

/// Line `k` of `cells`, front first.
pub open spec fn line_at(cells: Seq<Tile>, d: MoveOpt, w: int, h: int, k: int) -> Seq<Tile> {
    Seq::new(line_len(d, w, h) as nat, |i: int| cells[line_index(d, w, h, k, i)])
}

/// The grid after every line has slid toward `d` (no tile spawned yet).
pub open spec fn moved(cells: Seq<Tile>, d: MoveOpt, w: int, h: int) -> Seq<Tile> {
    Seq::new(
        cells.len(),
        |j: int| slid(line_at(cells, d, w, h, line_of(d, w, h, j)))[pos_of(d, w, h, j)],
    )
}

/// Each (line, place) pair names one grid cell, and that cell names the pair back.
pub proof fn lemma_line_index(d: MoveOpt, w: int, h: int, k: int, i: int)
    requires
        is_direction(d),
        0 <= k < num_lines(d, w, h),
        0 <= i < line_len(d, w, h),
    ensures
        0 <= line_index(d, w, h, k, i) < w * h,
        line_of(d, w, h, line_index(d, w, h, k, i)) == k,
        pos_of(d, w, h, line_index(d, w, h, k, i)) == i,
{
    let (q, r) = match d {
        MoveOpt::Left => (k, i),
        MoveOpt::Right => (k, w - 1 - i),
        MoveOpt::Up => (i, k),
        _ => (h - 1 - i, k),
    };
    assert(0 <= q < h && 0 <= r < w);
    assert(line_index(d, w, h, k, i) == q * w + r);
    assert(0 <= q * w + r < w * h) by (nonlinear_arith)
        requires
            0 <= q < h,
            0 <= r < w,
    ;
    lemma_fundamental_div_mod_converse(q * w + r, w, q, r);
}

/// Every grid cell lies on one line, at one place.
pub proof fn lemma_cell_coords(d: MoveOpt, w: int, h: int, j: int)
    requires
        is_direction(d),
        0 <= w,
        0 <= h,
        0 <= j < w * h,
    ensures
        0 <= line_of(d, w, h, j) < num_lines(d, w, h),
        0 <= pos_of(d, w, h, j) < line_len(d, w, h),
        line_index(d, w, h, line_of(d, w, h, j), pos_of(d, w, h, j)) == j,
{
    if w == 0 {
        assert(w * h == 0);
    }
    lemma_fundamental_div_mod(j, w);
    lemma_mod_pos_bound(j, w);
    lemma_div_pos_is_pos(j, w);
    lemma_multiply_divide_lt(j, w, h);
    assert(w * (j / w) == (j / w) * w) by (nonlinear_arith);
}

/// A move keeps every tile in the doubling sequence.
pub proof fn lemma_moved_valid(cells: Seq<Tile>, d: MoveOpt, w: int, h: int)
    requires
        is_direction(d),
        0 <= w,
        0 <= h,
        cells.len() == w * h,
        all_valid(cells),
    ensures
        all_valid(moved(cells, d, w, h)),
{
    let m = moved(cells, d, w, h);
    assert forall|j: int| 0 <= j < m.len() implies crate::tile::valid_tile(#[trigger] m[j]) by {
        lemma_cell_coords(d, w, h, j);
        let k = line_of(d, w, h, j);
        let l = line_at(cells, d, w, h, k);
        assert forall|i: int| 0 <= i < l.len() implies crate::tile::valid_tile(#[trigger] l[i]) by {
            lemma_line_index(d, w, h, k, i);
        }
        lemma_slid_valid(l);
        lemma_slid_len(l);
    }
}

/// The grid index of cell `i` of line `k`, computed.
pub fn cell_index(d: MoveOpt, w: usize, h: usize, k: usize, i: usize) -> (r: usize)
    requires
        is_direction(d),
        w <= 255,
        h <= 255,
        k < num_lines(d, w as int, h as int),
        i < line_len(d, w as int, h as int),
    ensures
        r == line_index(d, w as int, h as int, k as int, i as int),
{
    proof {
        lemma_line_index(d, w as int, h as int, k as int, i as int);
        assert(w * h <= 255 * 255) by (nonlinear_arith)
            requires
                w <= 255,
                h <= 255,
        ;
    }
    match d {
        MoveOpt::Left => k * w + i,
        MoveOpt::Right => k * w + (w - 1 - i),
        MoveOpt::Up => i * w + k,
        _ => (h - 1 - i) * w + k,
    }
}

/// The grid `cells` (of `w` by `h` cells) after a move toward `d`, before any spawn.
pub fn move_cells(cells: &Vec<Tile>, d: MoveOpt, w: usize, h: usize) -> (r: Vec<Tile>)
    requires
        is_direction(d),
        w <= 255,
        h <= 255,
        cells.len() == w * h,
    ensures
        r@ == moved(cells@, d, w as int, h as int),
{
    let ghost wi = w as int;
    let ghost hi = h as int;
    let ghost target = moved(cells@, d, wi, hi);
    let (nl, ll) = match d {
        MoveOpt::Left | MoveOpt::Right => (h, w),
        _ => (w, h),
    };
    let mut out = cells.clone();
    let mut k: usize = 0;
    while k < nl
        invariant
            wi == w,
            hi == h,
            target == moved(cells@, d, wi, hi),
            nl == num_lines(d, wi, hi),
            ll == line_len(d, wi, hi),
            is_direction(d),
            w <= 255,
            h <= 255,
            cells.len() == w * h,
            out.len() == cells.len(),
            k <= nl,
            forall|j: int|
                0 <= j < out.len() ==> #[trigger] out@[j] == if line_of(d, wi, hi, j) < k {
                    target[j]
                } else {
                    cells@[j]
                },
        decreases nl - k,
    {
        let mut line: Vec<Tile> = Vec::new();
        let mut i: usize = 0;
        while i < ll
            invariant
                wi == w,
                hi == h,
                target == moved(cells@, d, wi, hi),
                nl == num_lines(d, wi, hi),
                ll == line_len(d, wi, hi),
                is_direction(d),
                w <= 255,
                h <= 255,
                cells.len() == w * h,
                k < nl,
                i <= ll,
                out.len() == cells.len(),
                forall|j: int|
                    0 <= j < out.len() ==> #[trigger] out@[j] == if line_of(d, wi, hi, j) < k {
                        target[j]
                    } else {
                        cells@[j]
                    },
                line@ == line_at(cells@, d, wi, hi, k as int).subrange(0, i as int),
            decreases ll - i,
        {
            let p = cell_index(d, w, h, k, i);
            proof {
                lemma_line_index(d, wi, hi, k as int, i as int);
            }
            line.push(cells[p]);
            i += 1;
        }
        assert(line@ == line_at(cells@, d, wi, hi, k as int));
        let slid_k = slide_line(&line);
        proof {
            lemma_slid_len(line@);
            assert forall|j: int| 0 <= j < out.len() implies pos_of(d, wi, hi, j) >= 0 by {
                lemma_cell_coords(d, wi, hi, j);
            }
        }
        let mut i: usize = 0;
        while i < ll
            invariant
                wi == w,
                hi == h,
                target == moved(cells@, d, wi, hi),
                nl == num_lines(d, wi, hi),
                ll == line_len(d, wi, hi),
                is_direction(d),
                w <= 255,
                h <= 255,
                cells.len() == w * h,
                out.len() == cells.len(),
                k < nl,
                i <= ll,
                slid_k@ == slid(line_at(cells@, d, wi, hi, k as int)),
                slid_k.len() == ll,
                forall|j: int|
                    0 <= j < out.len() ==> #[trigger] out@[j] == if line_of(d, wi, hi, j) < k || (
                    line_of(d, wi, hi, j) == k && pos_of(d, wi, hi, j) < i) {
                        target[j]
                    } else {
                        cells@[j]
                    },
            decreases ll - i,
        {
            let p = cell_index(d, w, h, k, i);
            proof {
                lemma_line_index(d, wi, hi, k as int, i as int);
            }
            let ghost before = out@;
            out.set(p, slid_k[i]);
            assert forall|j: int| 0 <= j < out.len() implies #[trigger] out@[j] == if line_of(
                d,
                wi,
                hi,
                j,
            ) < k || (line_of(d, wi, hi, j) == k && pos_of(d, wi, hi, j) < i + 1) {
                target[j]
            } else {
                cells@[j]
            } by {
                lemma_cell_coords(d, wi, hi, j);
                if j != p {
                    assert(out@[j] == before[j]);
                }
            }
            i += 1;
        }
        assert forall|j: int| 0 <= j < out.len() implies #[trigger] out@[j] == if line_of(
            d,
            wi,
            hi,
            j,
        ) < k + 1 {
            target[j]
        } else {
            cells@[j]
        } by {
            lemma_cell_coords(d, wi, hi, j);
        }
        k += 1;
    }
    assert forall|j: int| 0 <= j < out.len() implies #[trigger] out@[j] == target[j] by {
        lemma_cell_coords(d, wi, hi, j);
    }
    assert(out@ == target);
    out
}

} // verus!
