use vstd::prelude::*;
use crate::tile::{Tile, valid_tile, valid_value, next_value, next_value_spec, lemma_next_value_valid};

verus! {

/// The values of the non-empty cells of a line, in order.
pub open spec fn compact(s: Seq<Tile>) -> Seq<u32>
    decreases s.len(),
{
    if s.len() == 0 {
        Seq::empty()
    } else {
        let rest = compact(s.drop_last());
        match s.last() {
            Tile::Value(v) => rest.push(v),
            Tile::Empty => rest,
        }
    }
}

/// Merges the packed values of a line, front first: two equal neighbours below
/// the ceiling become one of double value, and the result takes part in no
/// further merge.
pub open spec fn merge_values(v: Seq<u32>) -> Seq<u32>
    decreases v.len(),
{
    if v.len() < 2 {
        v
    } else if v[0] == v[1] && next_value_spec(v[0]) is Some {
        seq![next_value_spec(v[0])->0] + merge_values(v.subrange(2, v.len() as int))
    } else {
        seq![v[0]] + merge_values(v.subrange(1, v.len() as int))
    }
}

/// The number of merge events in `merge_values(v)`.
pub open spec fn merge_count(v: Seq<u32>) -> nat
    decreases v.len(),
{
    if v.len() < 2 {
        0
    } else if v[0] == v[1] && next_value_spec(v[0]) is Some {
        1 + merge_count(v.subrange(2, v.len() as int))
    } else {
        merge_count(v.subrange(1, v.len() as int))
    }
}

pub open spec fn tiles_of(v: Seq<u32>) -> Seq<Tile> {
    v.map_values(|x: u32| Tile::Value(x))
}

pub open spec fn empties(n: nat) -> Seq<Tile> {
    Seq::new(n, |i: int| Tile::Empty)
}

/// A line after a move toward its front (index 0): tiles packed toward the
/// front, equal neighbours merged, the rest empty.
pub open spec fn slid(s: Seq<Tile>) -> Seq<Tile> {
    let m = merge_values(compact(s));
    tiles_of(m) + empties((s.len() - m.len()) as nat)
}

pub open spec fn sum_values(v: Seq<u32>) -> int
    decreases v.len(),
{
    if v.len() == 0 {
        0
    } else {
        v[0] + sum_values(v.subrange(1, v.len() as int))
    }
}

/// The sum of the tile values of a line.
pub open spec fn total(s: Seq<Tile>) -> int {
    sum_values(compact(s))
}

/// The number of non-empty cells of a line.
pub open spec fn occupied(s: Seq<Tile>) -> nat {
    compact(s).len()
}

pub open spec fn all_valid(s: Seq<Tile>) -> bool {
    forall|i: int| 0 <= i < s.len() ==> valid_tile(#[trigger] s[i])
}

pub proof fn lemma_compact_len(s: Seq<Tile>)
    ensures
        compact(s).len() <= s.len(),
    decreases s.len(),
{
    if s.len() > 0 {
        lemma_compact_len(s.drop_last());
    }
}

pub proof fn lemma_merge_len(v: Seq<u32>)
    ensures
        merge_values(v).len() + merge_count(v) == v.len(),
    decreases v.len(),
{
    if v.len() >= 2 {
        lemma_merge_len(v.subrange(2, v.len() as int));
        lemma_merge_len(v.subrange(1, v.len() as int));
    }
}

pub proof fn lemma_slid_len(s: Seq<Tile>)
    ensures
        slid(s).len() == s.len(),
        merge_values(compact(s)).len() <= s.len(),
{
    lemma_compact_len(s);
    lemma_merge_len(compact(s));
}

pub proof fn lemma_compact_concat(a: Seq<Tile>, b: Seq<Tile>)
    ensures
        compact(a + b) == compact(a) + compact(b),
    decreases b.len(),
{
    if b.len() == 0 {
        assert(a + b == a);
        assert(compact(b) == Seq::<u32>::empty());
        assert(compact(a) + compact(b) == compact(a));
    } else {
        assert((a + b).drop_last() == a + b.drop_last());
        lemma_compact_concat(a, b.drop_last());
        match b.last() {
            Tile::Value(v) => {
                assert(compact(a) + compact(b.drop_last()).push(v) == (compact(a) + compact(
                    b.drop_last(),
                )).push(v));
            },
            Tile::Empty => {},
        }
    }
}

pub proof fn lemma_compact_tiles(u: Seq<u32>)
    ensures
        compact(tiles_of(u)) == u,
    decreases u.len(),
{
    if u.len() > 0 {
        assert(tiles_of(u).drop_last() == tiles_of(u.drop_last()));
        lemma_compact_tiles(u.drop_last());
        assert(u.drop_last().push(u.last()) == u);
    }
}

pub proof fn lemma_compact_empties(n: nat)
    ensures
        compact(empties(n)) == Seq::<u32>::empty(),
    decreases n,
{
    if n > 0 {
        assert(empties(n).drop_last() == empties((n - 1) as nat));
        lemma_compact_empties((n - 1) as nat);
    }
}

/// What is left of a slid line once its empty cells are dropped.
pub proof fn lemma_slid_compact(s: Seq<Tile>)
    ensures
        compact(slid(s)) == merge_values(compact(s)),
{
    let m = merge_values(compact(s));
    lemma_compact_concat(tiles_of(m), empties((s.len() - m.len()) as nat));
    lemma_compact_tiles(m);
    lemma_compact_empties((s.len() - m.len()) as nat);
    assert(m + Seq::<u32>::empty() == m);
}

pub proof fn lemma_sum_merge(v: Seq<u32>)
    ensures
        sum_values(merge_values(v)) == sum_values(v),
    decreases v.len(),
{
    if v.len() >= 2 {
        let t2 = v.subrange(2, v.len() as int);
        let t1 = v.subrange(1, v.len() as int);
        assert(t1.subrange(1, t1.len() as int) == t2);
        assert(sum_values(t1) == v[1] + sum_values(t2));
        if v[0] == v[1] && next_value_spec(v[0]) is Some {
            lemma_sum_merge(t2);
            let m = seq![next_value_spec(v[0])->0] + merge_values(t2);
            assert(m.subrange(1, m.len() as int) == merge_values(t2));
            assert(m[0] == 2 * v[0]);
        } else {
            lemma_sum_merge(t1);
            let m = seq![v[0]] + merge_values(t1);
            assert(m.subrange(1, m.len() as int) == merge_values(t1));
        }
    }
}

pub proof fn lemma_no_merge_identity(v: Seq<u32>)
    requires
        merge_count(v) == 0,
    ensures
        merge_values(v) == v,
    decreases v.len(),
{
    if v.len() >= 2 {
        let t1 = v.subrange(1, v.len() as int);
        lemma_no_merge_identity(t1);
        assert(seq![v[0]] + t1 == v);
    }
}

pub proof fn lemma_full_compact(s: Seq<Tile>)
    requires
        compact(s).len() == s.len(),
    ensures
        s == tiles_of(compact(s)),
    decreases s.len(),
{
    if s.len() > 0 {
        lemma_compact_len(s.drop_last());
        match s.last() {
            Tile::Value(v) => {
                lemma_full_compact(s.drop_last());
                assert(s == tiles_of(compact(s.drop_last())).push(Tile::Value(v)));
                assert(tiles_of(compact(s)) == tiles_of(compact(s.drop_last())).push(
                    Tile::Value(v),
                ));
            },
            Tile::Empty => {},
        }
    }
}

/// A line that a move changes has an empty cell afterwards: a merge frees a
/// cell, and a tile slides only into a cell that was empty.
pub proof fn lemma_changed_line_has_empty(s: Seq<Tile>)
    requires
        slid(s) != s,
    ensures
        slid(s)[s.len() - 1] == Tile::Empty,
        s.len() > 0,
{
    let c = compact(s);
    let m = merge_values(c);
    lemma_compact_len(s);
    lemma_merge_len(c);
    if m.len() == s.len() {
        lemma_no_merge_identity(c);
        lemma_full_compact(s);
        assert(slid(s) == tiles_of(m));
        assert(false);
    }
}

pub proof fn lemma_compact_valid(s: Seq<Tile>)
    requires
        all_valid(s),
    ensures
        forall|i: int| 0 <= i < compact(s).len() ==> valid_value(#[trigger] compact(s)[i]),
    decreases s.len(),
{
    if s.len() > 0 {
        assert(valid_tile(s[s.len() - 1]));
        let d = s.drop_last();
        assert forall|i: int| 0 <= i < d.len() implies valid_tile(#[trigger] d[i]) by {
            assert(d[i] == s[i]);
        }
        lemma_compact_valid(d);
        let c = compact(s);
        assert forall|i: int| 0 <= i < c.len() implies valid_value(#[trigger] c[i]) by {
            if i < compact(d).len() {
                assert(c[i] == compact(d)[i]);
            }
        }
    }
}

pub proof fn lemma_merge_valid(v: Seq<u32>)
    requires
        forall|i: int| 0 <= i < v.len() ==> valid_value(#[trigger] v[i]),
    ensures
        forall|i: int| 0 <= i < merge_values(v).len() ==> valid_value(#[trigger] merge_values(v)[i]),
    decreases v.len(),
{
    if v.len() >= 2 {
        let t2 = v.subrange(2, v.len() as int);
        let t1 = v.subrange(1, v.len() as int);
        assert(valid_value(v[0]));
        if v[0] == v[1] && next_value_spec(v[0]) is Some {
            lemma_next_value_valid(v[0]);
            assert forall|i: int| 0 <= i < t2.len() implies valid_value(#[trigger] t2[i]) by {
                assert(t2[i] == v[i + 2]);
            }
            lemma_merge_valid(t2);
            let m = merge_values(v);
            assert forall|i: int| 0 <= i < m.len() implies valid_value(#[trigger] m[i]) by {
                if i > 0 {
                    assert(m[i] == merge_values(t2)[i - 1]);
                }
            }
        } else {
            assert forall|i: int| 0 <= i < t1.len() implies valid_value(#[trigger] t1[i]) by {
                assert(t1[i] == v[i + 1]);
            }
            lemma_merge_valid(t1);
            let m = merge_values(v);
            assert forall|i: int| 0 <= i < m.len() implies valid_value(#[trigger] m[i]) by {
                if i > 0 {
                    assert(m[i] == merge_values(t1)[i - 1]);
                }
            }
        }
    }
}

/// A slid line of valid tiles holds valid tiles.
pub proof fn lemma_slid_valid(s: Seq<Tile>)
    requires
        all_valid(s),
    ensures
        all_valid(slid(s)),
{
    lemma_compact_valid(s);
    lemma_merge_valid(compact(s));
    let m = merge_values(compact(s));
    assert forall|i: int| 0 <= i < slid(s).len() implies valid_tile(#[trigger] slid(s)[i]) by {
        if i < m.len() {
            assert(slid(s)[i] == Tile::Value(m[i]));
        }
    }
}

/// Slides one line toward its front (index 0).
pub fn slide_line(line: &Vec<Tile>) -> (r: Vec<Tile>)
    ensures
        r@ == slid(line@),
{
    let mut vals: Vec<u32> = Vec::new();
    let mut i: usize = 0;
    while i < line.len()
        invariant
            i <= line.len(),
            vals@ == compact(line@.subrange(0, i as int)),
        decreases line.len() - i,
    {
        assert(line@.subrange(0, i + 1).drop_last() == line@.subrange(0, i as int));
        match line[i] {
            Tile::Value(v) => vals.push(v),
            Tile::Empty => {},
        }
        i += 1;
    }
    assert(line@.subrange(0, line.len() as int) == line@);
    let ghost c = vals@;
    proof {
        lemma_slid_len(line@);
        assert(c.subrange(0, c.len() as int) == c);
        assert(Seq::<u32>::empty() + merge_values(c) == merge_values(c));
    }
    let mut out: Vec<Tile> = Vec::new();
    let ghost mut acc: Seq<u32> = Seq::empty();
    let mut j: usize = 0;
    while j < vals.len()
        invariant
            vals@ == c,
            j <= vals.len(),
            out@ == tiles_of(acc),
            acc + merge_values(c.subrange(j as int, c.len() as int)) == merge_values(c),
        decreases vals.len() - j,
    {
        let ghost rest = c.subrange(j as int, c.len() as int);
        let v = vals[j];
        let mut merged: Option<u32> = None;
        if j + 1 < vals.len() && vals[j + 1] == v {
            merged = next_value(v);
        }
        match merged {
            Some(w) => {
                assert(rest.subrange(2, rest.len() as int) == c.subrange(j + 2, c.len() as int));
                proof {
                    assert(acc.push(w) + merge_values(rest.subrange(2, rest.len() as int)) == acc
                        + merge_values(rest));
                    acc = acc.push(w);
                }
                out.push(Tile::Value(w));
                j += 2;
            },
            None => {
                assert(rest.subrange(1, rest.len() as int) == c.subrange(j + 1, c.len() as int));
                proof {
                    assert(acc.push(v) + merge_values(rest.subrange(1, rest.len() as int)) == acc
                        + merge_values(rest));
                    acc = acc.push(v);
                }
                out.push(Tile::Value(v));
                j += 1;
            },
        }
        assert(out@ == tiles_of(acc));
    }
    assert(c.subrange(j as int, c.len() as int) == Seq::<u32>::empty());
    assert(acc == merge_values(c));
    let ghost m = merge_values(c);
    while out.len() < line.len()
        invariant
            m.len() <= out.len() <= line.len(),
            out@ == tiles_of(m) + empties((out.len() - m.len()) as nat),
        decreases line.len() - out.len(),
    {
        out.push(Tile::Empty);
        assert(out@ == tiles_of(m) + empties((out.len() - m.len()) as nat));
    }
    out
}

} // verus!
