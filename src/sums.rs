use vstd::prelude::*;
use crate::tile::Tile;
use crate::tile::MoveOpt;
use crate::line::{compact, sum_values, total};
use crate::grid::{is_direction, num_lines, line_len, line_at};

verus! {

pub open spec fn tile_value(t: Tile) -> int {
    match t {
        Tile::Value(v) => v as int,
        Tile::Empty => 0,
    }
}

/// `f(0) + f(1) + ... + f(n - 1)`.
pub open spec fn sum_to(f: spec_fn(int) -> int, n: int) -> int
    decreases n,
{
    if n <= 0 {
        0
    } else {
        sum_to(f, n - 1) + f(n - 1)
    }
}

pub proof fn lemma_sum_congr(f: spec_fn(int) -> int, g: spec_fn(int) -> int, n: int)
    requires
        forall|i: int| 0 <= i < n ==> #[trigger] f(i) == g(i),
    ensures
        sum_to(f, n) == sum_to(g, n),
    decreases n,
{
    if n > 0 {
        lemma_sum_congr(f, g, n - 1);
    }
}

pub proof fn lemma_sum_split(f: spec_fn(int) -> int, a: int, b: int)
    requires
        0 <= a,
        0 <= b,
    ensures
        sum_to(f, a + b) == sum_to(f, a) + sum_to(|i: int| f(a + i), b),
    decreases b,
{
    if b > 0 {
        lemma_sum_split(f, a, b - 1);
    }
}

pub proof fn lemma_sum_rows(f: spec_fn(int) -> int, w: int, h: int)
    requires
        0 <= w,
        0 <= h,
    ensures
        sum_to(f, h * w) == sum_to(|k: int| sum_to(|i: int| f(k * w + i), w), h),
    decreases h,
{
    if h > 0 {
        lemma_sum_rows(f, w, h - 1);
        assert(h * w == (h - 1) * w + w) by (nonlinear_arith);
        assert(0 <= (h - 1) * w) by (nonlinear_arith)
            requires
                0 <= w,
                0 < h,
        ;
        lemma_sum_split(f, (h - 1) * w, w);
        let row = |k: int| sum_to(|i: int| f(k * w + i), w);
        lemma_sum_congr(|i: int| f((h - 1) * w + i), |i: int| f((h - 1) * w + i), w);
        assert(row(h - 1) == sum_to(|i: int| f((h - 1) * w + i), w));
        assert(sum_to(row, h) == sum_to(row, h - 1) + row(h - 1));
        assert(sum_to(f, (h - 1) * w + w) == sum_to(f, (h - 1) * w) + sum_to(
            |i: int| f((h - 1) * w + i),
            w,
        ));
        assert(sum_to(f, h * w) == sum_to(f, (h - 1) * w + w));
        assert(sum_to(f, h * w) == sum_to(row, h));
    } else {
        assert(h * w == 0) by (nonlinear_arith)
            requires
                h == 0,
        ;
    }
}

pub proof fn lemma_sum_reverse(f: spec_fn(int) -> int, n: int)
    requires
        0 <= n,
    ensures
        sum_to(|i: int| f(n - 1 - i), n) == sum_to(f, n),
    decreases n,
{
    if n > 0 {
        let g = |i: int| f(1 + i);
        lemma_sum_reverse(g, n - 1);
        lemma_sum_congr(|i: int| f(n - 1 - i), |i: int| g((n - 1) - 1 - i), n - 1);
        lemma_sum_split(f, 1, n - 1);
        assert(sum_to(f, 0) == 0);
        assert(sum_to(f, 1) == f(0));
    }
}

pub proof fn lemma_sum_add(f: spec_fn(int) -> int, g: spec_fn(int) -> int, n: int)
    ensures
        sum_to(|i: int| f(i) + g(i), n) == sum_to(f, n) + sum_to(g, n),
    decreases n,
{
    if n > 0 {
        lemma_sum_add(f, g, n - 1);
    }
}

proof fn lemma_sum_zero(f: spec_fn(int) -> int, n: int)
    requires
        forall|i: int| 0 <= i < n ==> #[trigger] f(i) == 0,
    ensures
        sum_to(f, n) == 0,
    decreases n,
{
    if n > 0 {
        lemma_sum_zero(f, n - 1);
    }
}

pub proof fn lemma_sum_swap(g: spec_fn(int, int) -> int, a: int, b: int)
    requires
        0 <= a,
        0 <= b,
    ensures
        sum_to(|k: int| sum_to(|i: int| g(k, i), a), b) == sum_to(
            |i: int| sum_to(|k: int| g(k, i), b),
            a,
        ),
    decreases b,
{
    if b > 0 {
        lemma_sum_swap(g, a, b - 1);
        let prev = |i: int| sum_to(|k: int| g(k, i), b - 1);
        let last = |i: int| g(b - 1, i);
        lemma_sum_add(prev, last, a);
        lemma_sum_congr(
            |i: int| sum_to(|k: int| g(k, i), b),
            |i: int| prev(i) + last(i),
            a,
        );
        let lhs = |k: int| sum_to(|i: int| g(k, i), a);
        assert(sum_to(lhs, b) == sum_to(lhs, b - 1) + lhs(b - 1));
        assert(lhs(b - 1) == sum_to(last, a));
        let full = |i: int| sum_to(|k: int| g(k, i), b);
        assert forall|i: int| 0 <= i < a implies #[trigger] full(i) == prev(i) + last(i) by {
            let col = |k: int| g(k, i);
            assert(sum_to(col, b) == sum_to(col, b - 1) + col(b - 1));
        }
        lemma_sum_congr(
            |i: int| sum_to(|k: int| g(k, i), b),
            |i: int| prev(i) + last(i),
            a,
        );
    } else {
        let zero = |i: int| sum_to(|k: int| g(k, i), b);
        assert forall|i: int| 0 <= i < a implies #[trigger] zero(i) == 0 by {}
        lemma_sum_zero(zero, a);
    }
}

proof fn lemma_sum_values_push(a: Seq<u32>, x: u32)
    ensures
        sum_values(a.push(x)) == sum_values(a) + x,
    decreases a.len(),
{
    if a.len() == 0 {
        assert(a.push(x).subrange(1, 1) == Seq::<u32>::empty());
        assert(sum_values(a.push(x)) == x + sum_values(a.push(x).subrange(1, 1)));
    } else {
        let t = a.subrange(1, a.len() as int);
        lemma_sum_values_push(t, x);
        let ax = a.push(x);
        assert(ax.subrange(1, ax.len() as int) == t.push(x));
        assert(ax[0] == a[0]);
        assert(sum_values(ax) == ax[0] + sum_values(ax.subrange(1, ax.len() as int)));
        assert(sum_values(a) == a[0] + sum_values(t));
    }
}

/// The sum of a line's values, cell by cell.
pub proof fn lemma_total_by_index(s: Seq<Tile>)
    ensures
        total(s) == sum_to(|i: int| tile_value(s[i]), s.len() as int),
    decreases s.len(),
{
    if s.len() > 0 {
        let d = s.drop_last();
        lemma_total_by_index(d);
        lemma_sum_congr(|i: int| tile_value(d[i]), |i: int| tile_value(s[i]), d.len() as int);
        match s.last() {
            Tile::Value(v) => lemma_sum_values_push(compact(d), v),
            Tile::Empty => {},
        }
    }
}

/// Writing `x` into an empty cell adds its value to the sum.
pub proof fn lemma_sum_fill(s: Seq<Tile>, p: int, x: Tile, n: int)
    requires
        0 <= p < s.len(),
        s[p] == Tile::Empty,
        0 <= n <= s.len(),
    ensures
        sum_to(|i: int| tile_value(s.update(p, x)[i]), n) == sum_to(|i: int| tile_value(s[i]), n)
            + if p < n {
            tile_value(x)
        } else {
            0
        },
    decreases n,
{
    if n > 0 {
        lemma_sum_fill(s, p, x, n - 1);
    }
}

/// The grid index of cell `i` of line `k` when lines are read from the low end
/// (rows left to right, columns top to bottom).
pub open spec fn straight_index(d: MoveOpt, w: int, k: int, i: int) -> int {
    match d {
        MoveOpt::Left | MoveOpt::Right => k * w + i,
        _ => i * w + k,
    }
}

proof fn lemma_line_total(cells: Seq<Tile>, d: MoveOpt, w: int, h: int, k: int)
    requires
        is_direction(d),
        0 <= k < num_lines(d, w, h),
        0 <= w,
        0 <= h,
    ensures
        total(line_at(cells, d, w, h, k)) == sum_to(
            |i: int| tile_value(cells[straight_index(d, w, k, i)]),
            line_len(d, w, h),
        ),
{
    let l = line_at(cells, d, w, h, k);
    let n = line_len(d, w, h);
    let f = |i: int| tile_value(cells[straight_index(d, w, k, i)]);
    lemma_total_by_index(l);
    match d {
        MoveOpt::Left | MoveOpt::Up => {
            lemma_sum_congr(|i: int| tile_value(l[i]), f, n);
        },
        _ => {
            lemma_sum_reverse(f, n);
            lemma_sum_congr(|i: int| tile_value(l[i]), |i: int| f(n - 1 - i), n);
        },
    }
}

/// The sum of a grid is the sum of the sums of its lines, for the lines of any move.
pub proof fn lemma_total_by_lines(cells: Seq<Tile>, d: MoveOpt, w: int, h: int)
    requires
        is_direction(d),
        0 <= w,
        0 <= h,
        cells.len() == w * h,
    ensures
        total(cells) == sum_to(|k: int| total(line_at(cells, d, w, h, k)), num_lines(d, w, h)),
{
    let f = |j: int| tile_value(cells[j]);
    let nl = num_lines(d, w, h);
    let per_line = |k: int| total(line_at(cells, d, w, h, k));
    lemma_total_by_index(cells);
    lemma_sum_congr(|i: int| tile_value(cells[i]), f, w * h);
    assert(h * w == w * h) by (nonlinear_arith);
    lemma_sum_rows(f, w, h);
    let rows = |k: int| sum_to(|i: int| f(k * w + i), w);
    assert forall|k: int| 0 <= k < nl implies #[trigger] per_line(k) == sum_to(
        |i: int| f(straight_index(d, w, k, i)),
        line_len(d, w, h),
    ) by {
        lemma_line_total(cells, d, w, h, k);
        lemma_sum_congr(
            |i: int| tile_value(cells[straight_index(d, w, k, i)]),
            |i: int| f(straight_index(d, w, k, i)),
            line_len(d, w, h),
        );
    }
    match d {
        MoveOpt::Left | MoveOpt::Right => {
            assert forall|k: int| 0 <= k < nl implies #[trigger] per_line(k) == rows(k) by {
                lemma_sum_congr(
                    |i: int| f(straight_index(d, w, k, i)),
                    |i: int| f(k * w + i),
                    w,
                );
            }
            lemma_sum_congr(per_line, rows, nl);
        },
        _ => {
            let g = |k: int, i: int| f(i * w + k);
            let cols = |k: int| sum_to(|i: int| g(k, i), h);
            assert forall|k: int| 0 <= k < nl implies #[trigger] per_line(k) == cols(k) by {
                lemma_sum_congr(
                    |i: int| f(straight_index(d, w, k, i)),
                    |i: int| g(k, i),
                    h,
                );
            }
            lemma_sum_congr(per_line, cols, nl);
            lemma_sum_swap(g, h, w);
            let swapped = |i: int| sum_to(|k: int| g(k, i), w);
            assert forall|i: int| 0 <= i < h implies #[trigger] swapped(i) == rows(i) by {
                lemma_sum_congr(|k: int| g(k, i), |k: int| f(i * w + k), w);
            }
            lemma_sum_congr(swapped, rows, h);
        },
    }
}

} // verus!
