//! Board-wide guarantees of the move pipeline, stated and proved over the
//! same spec functions the executable contracts use: conservation of the
//! value total, no-op moves, pairwise merging of four equal tiles, and
//! spawn legality.

use vstd::prelude::*;
use crate::board::{
    col_of, lemma_cell_index, lemma_flat_coords, move_vals, row_of, seed_value, spawned_from,
    Direction,
};
use crate::line::{
    collapse_line, kept_vals, line_result, line_sum, merge_from, merge_line, no_adjacent_pair,
    opt_val, packed, lemma_kept_vals_of_all_some, lemma_line_result_len, lemma_line_result_noop,
    lemma_line_result_sum, lemma_line_sum_add, lemma_line_sum_reverse, lemma_line_sum_update,
};
use vstd::arithmetic::div_mod::lemma_fundamental_div_mod_converse;
use vstd::arithmetic::mul::lemma_mul_basics;

verus! {

/// How many independent lines a move in `direction` processes.
pub open spec fn line_count(direction: Direction, height: int, width: int) -> int {
    match direction {
        Direction::Left | Direction::Right => height,
        Direction::Up | Direction::Down => width,
    }
}

/// Line `l` of the grid as a move in `direction` walks it: from the
/// target edge outward.
pub open spec fn line_of(
    vals: Seq<Option<usize>>,
    direction: Direction,
    l: int,
    height: int,
    width: int,
) -> Seq<Option<usize>> {
    match direction {
        Direction::Left => row_of(vals, l, width),
        Direction::Right => row_of(vals, l, width).reverse(),
        Direction::Up => col_of(vals, l, height, width),
        Direction::Down => col_of(vals, l, height, width).reverse(),
    }
}

/// No-op idempotence: a move toward an edge against which every line is
/// already fully packed, with no equal neighbouring pair in any line,
/// produces a grid identical to the input — and so, by
/// `Board::move_tile_content`'s contract, triggers no spawn.
#[verifier::rlimit(60)]
pub proof fn lemma_noop_move(
    vals: Seq<Option<usize>>,
    direction: Direction,
    height: int,
    width: int,
)
    requires
        vals.len() == width * height,
        width >= 0,
        height >= 0,
        forall|l: int|
            0 <= l < line_count(direction, height, width) ==> packed(
                #[trigger] line_of(vals, direction, l, height, width),
            ) && no_adjacent_pair(line_of(vals, direction, l, height, width)),
    ensures
        move_vals(vals, direction, height, width) == vals,
{
    let mid = move_vals(vals, direction, height, width);
    assert(mid =~= vals) by {
        assert forall|k: int| 0 <= k < vals.len() implies mid[k] == vals[k] by {
            assert(width > 0) by {
                if width == 0 {
                    lemma_mul_basics(height);
                }
            }
            lemma_flat_coords(k, height, width);
            let h = k / width;
            let j = k % width;
            match direction {
                Direction::Left => {
                    assert(packed(line_of(vals, direction, h, height, width)));
                    lemma_line_result_noop(row_of(vals, h, width));
                    assert(mid[k] == line_result(row_of(vals, h, width))[j]);
                },
                Direction::Right => {
                    assert(packed(line_of(vals, direction, h, height, width)));
                    let s = row_of(vals, h, width).reverse();
                    lemma_line_result_noop(s);
                    assert(s.reverse() =~= row_of(vals, h, width));
                    assert(mid[k] == line_result(s).reverse()[j]);
                },
                Direction::Up => {
                    assert(packed(line_of(vals, direction, j, height, width)));
                    lemma_line_result_noop(col_of(vals, j, height, width));
                    assert(mid[k] == line_result(col_of(vals, j, height, width))[h]);
                },
                Direction::Down => {
                    assert(packed(line_of(vals, direction, j, height, width)));
                    let s = col_of(vals, j, height, width).reverse();
                    lemma_line_result_noop(s);
                    assert(s.reverse() =~= col_of(vals, j, height, width));
                    assert(mid[k] == line_result(s).reverse()[h]);
                },
            }
        }
    };
}

/// Single merge per tile: a line of four equal values `v, v, v, v` moves
/// to exactly `2v, 2v` and two empty cells — never one `4v` tile, and
/// never the line unchanged.
pub proof fn lemma_four_equal_line(v: usize)
    requires
        v <= usize::MAX / 2,
    ensures
        line_result(seq![Some(v), Some(v), Some(v), Some(v)]) == seq![
            Some((2 * v) as usize),
            Some((2 * v) as usize),
            None::<usize>,
            None::<usize>,
        ],
{
    let s = seq![Some(v), Some(v), Some(v), Some(v)];
    let d = (2 * v) as usize;
    assert forall|k: int| 0 <= k < s.len() implies (#[trigger] s[k]) is Some by {}
    lemma_kept_vals_of_all_some(s);
    assert(collapse_line(s) == s);
    let r1 = s.update(0int, Some(d)).update(1int, None::<usize>);
    assert(merge_line(s) == merge_from(s, s, 1, s[0], 0));
    assert(merge_from(s, s, 1, Some(v), 0) == merge_from(s, r1, 2, None::<usize>, 1));
    assert(merge_from(s, r1, 2, None::<usize>, 1) == merge_from(s, r1, 3, s[2], 2));
    let r2 = r1.update(2int, Some(d)).update(3int, None::<usize>);
    assert(merge_from(s, r1, 3, Some(v), 2) == merge_from(s, r2, 4, None::<usize>, 3));
    assert(merge_from(s, r2, 4, None::<usize>, 3) == r2);
    let m0 = seq![Some(d), None::<usize>, Some(d), None::<usize>];
    assert(r2 =~= m0);
    let m1 = seq![Some(d), None::<usize>, Some(d)];
    let m2 = seq![Some(d), None::<usize>];
    let m3 = seq![Some(d)];
    let m4 = Seq::<Option<usize>>::empty();
    assert(m0.drop_last() =~= m1);
    assert(m1.drop_last() =~= m2);
    assert(m2.drop_last() =~= m3);
    assert(m3.drop_last() =~= m4);
    assert(kept_vals(m4) =~= m4);
    assert(kept_vals(m3) =~= seq![Some(d)]);
    assert(kept_vals(m2) =~= seq![Some(d)]);
    assert(kept_vals(m1) =~= seq![Some(d), Some(d)]);
    assert(kept_vals(m0) =~= seq![Some(d), Some(d)]);
    assert(collapse_line(m0) =~= seq![Some(d), Some(d), None::<usize>, None::<usize>]);
    assert(line_result(s) == collapse_line(m0));
}

/// Spawn legality: the spawn step turns exactly one previously-empty cell
/// non-empty, with value 2 or 4, and keeps every other cell.
pub proof fn lemma_spawn_legality(mid: Seq<Option<usize>>, fin: Seq<Option<usize>>)
    requires
        spawned_from(mid, fin),
    ensures
        exists|k: int|
            0 <= k < mid.len() && (#[trigger] mid[k]) is None && seed_value(fin[k]) && (forall|
                j: int,
            |
                0 <= j < mid.len() && j != k ==> fin[j] == mid[j]),
{
    let k = choose|k: int|
        0 <= k < mid.len() && mid[k] is None && (fin == mid.update(k, Some(2usize)) || fin
            == mid.update(k, Some(4usize)));
    assert(seed_value(fin[k]));
    assert(forall|j: int| 0 <= j < mid.len() && j != k ==> fin[j] == mid[j]);
    assert(0 <= k < mid.len() && (#[trigger] mid[k]) is None && seed_value(fin[k]) && (forall|
        j: int,
    |
        0 <= j < mid.len() && j != k ==> fin[j] == mid[j]));
}

/// The spawn step adds exactly one fresh value, 2 or 4, to the total of
/// the board's tile values.
pub proof fn lemma_spawn_adds(mid: Seq<Option<usize>>, fin: Seq<Option<usize>>)
    requires
        spawned_from(mid, fin),
    ensures
        line_sum(fin) == line_sum(mid) + 2 || line_sum(fin) == line_sum(mid) + 4,
{
    let k = choose|k: int|
        0 <= k < mid.len() && mid[k] is None && (fin == mid.update(k, Some(2usize)) || fin
            == mid.update(k, Some(4usize)));
    if fin == mid.update(k, Some(2usize)) {
        lemma_line_sum_update(mid, k, Some(2usize));
    } else {
        lemma_line_sum_update(mid, k, Some(4usize));
    }
}

/// The totals of the first `h` rows of a grid.
pub open spec fn rows_sum(g: Seq<Option<usize>>, height: int, width: int, h: int) -> int
    decreases h,
{
    if h <= 0 {
        0
    } else {
        rows_sum(g, height, width, h - 1) + line_sum(row_of(g, h - 1, width))
    }
}

/// The totals of the first `w` columns of a grid.
pub open spec fn cols_sum(g: Seq<Option<usize>>, height: int, width: int, w: int) -> int
    decreases w,
{
    if w <= 0 {
        0
    } else {
        cols_sum(g, height, width, w - 1) + line_sum(col_of(g, w - 1, height, width))
    }
}

proof fn lemma_rows_sum_shift(g: Seq<Option<usize>>, height: int, width: int, h: int)
    requires
        height > 0,
        width > 0,
        g.len() == width * height,
        1 <= h <= height,
    ensures
        rows_sum(g, height, width, h) == line_sum(row_of(g, 0, width)) + rows_sum(
            g.skip(width),
            height - 1,
            width,
            h - 1,
        ),
    decreases h,
{
    let rest = g.skip(width);
    if h == 1 {
        assert(rows_sum(g, height, width, 0) == 0);
        assert(rows_sum(g, height, width, 1) == line_sum(row_of(g, 0, width)));
    } else {
        lemma_rows_sum_shift(g, height, width, h - 1);
        assert(row_of(g, h - 1, width) =~= row_of(rest, h - 2, width)) by {
            assert forall|j: int|
                0 <= j < width implies #[trigger] row_of(g, h - 1, width)[j] == row_of(
                rest,
                h - 2,
                width,
            )[j] by {
                lemma_cell_index(h - 1, j, height, width);
                lemma_cell_index(h - 2, j, height - 1, width);
                assert((h - 2) * width + j + width == (h - 1) * width + j) by (nonlinear_arith);
                assert(width * (height - 1) == width * height - width) by (nonlinear_arith);
            }
        };
    }
}

proof fn lemma_sum_rows(g: Seq<Option<usize>>, height: int, width: int)
    requires
        g.len() == width * height,
        height >= 0,
        width >= 0,
    ensures
        line_sum(g) == rows_sum(g, height, width, height),
    decreases height,
{
    if height == 0 {
        assert(width * 0 == 0) by (nonlinear_arith);
        assert(g.len() == 0);
    } else if width == 0 {
        assert(0 * height == 0) by (nonlinear_arith);
        assert(g.len() == 0);
        lemma_rows_sum_empty(g, height, width, height);
    } else {
        let rest = g.skip(width);
        assert(width * (height - 1) == width * height - width) by (nonlinear_arith);
        lemma_sum_rows(rest, height - 1, width);
        lemma_rows_sum_shift(g, height, width, height);
        assert(g.subrange(0, width) =~= row_of(g, 0, width)) by {
            assert forall|j: int|
                0 <= j < width implies g.subrange(0, width)[j] == #[trigger] row_of(g, 0, width)[j]
            by {
                assert(0 * width + j == j) by (nonlinear_arith);
            }
        };
        assert(g =~= g.subrange(0, width) + rest);
        lemma_line_sum_add(g.subrange(0, width), rest);
    }
}

proof fn lemma_rows_sum_empty(g: Seq<Option<usize>>, height: int, width: int, h: int)
    requires
        width == 0,
    ensures
        rows_sum(g, height, width, h) == 0,
    decreases h,
{
    if h > 0 {
        lemma_rows_sum_empty(g, height, width, h - 1);
        assert(row_of(g, h - 1, width).len() == 0);
    }
}

proof fn lemma_cols_sum_zero_height(g: Seq<Option<usize>>, height: int, width: int, w: int)
    requires
        height == 0,
    ensures
        cols_sum(g, height, width, w) == 0,
    decreases w,
{
    if w > 0 {
        lemma_cols_sum_zero_height(g, height, width, w - 1);
        assert(col_of(g, w - 1, height, width).len() == 0);
    }
}

proof fn lemma_cols_sum_peel(g: Seq<Option<usize>>, height: int, width: int, w: int)
    requires
        height > 0,
        width > 0,
        g.len() == width * height,
        0 <= w <= width,
    ensures
        cols_sum(g, height, width, w) == cols_sum(g.skip(width), height - 1, width, w) + line_sum(
            g.subrange(0, w),
        ),
    decreases w,
{
    let rest = g.skip(width);
    assert(width * (height - 1) == width * height - width) by (nonlinear_arith);
    if w == 0 {
        assert(g.subrange(0, 0).len() == 0);
    } else {
        lemma_cols_sum_peel(g, height, width, w - 1);
        let c = col_of(g, w - 1, height, width);
        let c2 = col_of(rest, w - 1, height - 1, width);
        assert(c =~= seq![g[w - 1]] + c2) by {
            assert forall|i: int| 0 <= i < height implies c[i] == (seq![g[w - 1]] + c2)[i] by {
                if i == 0 {
                    assert(0 * width + (w - 1) == w - 1) by (nonlinear_arith);
                    assert(c[0] == g[w - 1]);
                } else {
                    lemma_cell_index(i, w - 1, height, width);
                    lemma_cell_index(i - 1, w - 1, height - 1, width);
                    assert((i - 1) * width + (w - 1) + width == i * width + (w - 1))
                        by (nonlinear_arith);
                }
            }
        };
        lemma_line_sum_add(seq![g[w - 1]], c2);
        assert(seq![g[w - 1]].drop_last() =~= Seq::<Option<usize>>::empty());
        assert(line_sum(Seq::<Option<usize>>::empty()) == 0);
        assert(seq![g[w - 1]].last() == g[w - 1]);
        assert(line_sum(seq![g[w - 1]]) == opt_val(g[w - 1]));
        assert(g.subrange(0, w).drop_last() =~= g.subrange(0, w - 1));
        assert(g.subrange(0, w).last() == g[w - 1]);
    }
}

proof fn lemma_sum_cols(g: Seq<Option<usize>>, height: int, width: int)
    requires
        g.len() == width * height,
        height >= 0,
        width >= 0,
    ensures
        line_sum(g) == cols_sum(g, height, width, width),
    decreases height,
{
    if height == 0 {
        lemma_cols_sum_zero_height(g, height, width, width);
        assert(width * 0 == 0) by (nonlinear_arith);
        assert(g.len() == 0);
    } else if width == 0 {
        assert(0 * height == 0) by (nonlinear_arith);
        assert(g.len() == 0);
    } else {
        let rest = g.skip(width);
        assert(width * (height - 1) == width * height - width) by (nonlinear_arith);
        lemma_sum_cols(rest, height - 1, width);
        lemma_cols_sum_peel(g, height, width, width);
        assert(g =~= g.subrange(0, width) + rest);
        lemma_line_sum_add(g.subrange(0, width), rest);
    }
}

proof fn lemma_rows_sum_transform(
    vals: Seq<Option<usize>>,
    direction: Direction,
    height: int,
    width: int,
    h: int,
)
    requires
        vals.len() == width * height,
        width > 0,
        height >= 0,
        0 <= h <= height,
        direction == Direction::Left || direction == Direction::Right,
    ensures
        rows_sum(move_vals(vals, direction, height, width), height, width, h) == rows_sum(
            vals,
            height,
            width,
            h,
        ),
    decreases h,
{
    let mid = move_vals(vals, direction, height, width);
    if h > 0 {
        lemma_rows_sum_transform(vals, direction, height, width, h - 1);
        let rv = row_of(vals, h - 1, width);
        let rm = row_of(mid, h - 1, width);
        if direction == Direction::Left {
            lemma_line_result_len(rv);
            assert(rm =~= line_result(rv)) by {
                assert forall|j: int|
                    0 <= j < width implies #[trigger] rm[j] == line_result(rv)[j] by {
                    lemma_cell_index(h - 1, j, height, width);
                    lemma_fundamental_div_mod_converse((h - 1) * width + j, width, h - 1, j);
                }
            };
            lemma_line_result_sum(rv);
        } else {
            lemma_line_result_len(rv.reverse());
            assert(rm =~= line_result(rv.reverse()).reverse()) by {
                assert forall|j: int|
                    0 <= j < width implies #[trigger] rm[j] == line_result(rv.reverse()).reverse()[j]
                by {
                    lemma_cell_index(h - 1, j, height, width);
                    lemma_fundamental_div_mod_converse((h - 1) * width + j, width, h - 1, j);
                }
            };
            lemma_line_sum_reverse(line_result(rv.reverse()));
            lemma_line_result_sum(rv.reverse());
            lemma_line_sum_reverse(rv);
        }
    }
}

proof fn lemma_cols_sum_transform(
    vals: Seq<Option<usize>>,
    direction: Direction,
    height: int,
    width: int,
    w: int,
)
    requires
        vals.len() == width * height,
        width > 0,
        height >= 0,
        0 <= w <= width,
        direction == Direction::Up || direction == Direction::Down,
    ensures
        cols_sum(move_vals(vals, direction, height, width), height, width, w) == cols_sum(
            vals,
            height,
            width,
            w,
        ),
    decreases w,
{
    let mid = move_vals(vals, direction, height, width);
    if w > 0 {
        lemma_cols_sum_transform(vals, direction, height, width, w - 1);
        let cv = col_of(vals, w - 1, height, width);
        let cm = col_of(mid, w - 1, height, width);
        if direction == Direction::Up {
            lemma_line_result_len(cv);
            assert(cm =~= line_result(cv)) by {
                assert forall|i: int|
                    0 <= i < height implies #[trigger] cm[i] == line_result(cv)[i] by {
                    lemma_cell_index(i, w - 1, height, width);
                    lemma_fundamental_div_mod_converse(i * width + (w - 1), width, i, w - 1);
                }
            };
            lemma_line_result_sum(cv);
        } else {
            lemma_line_result_len(cv.reverse());
            assert(cm =~= line_result(cv.reverse()).reverse()) by {
                assert forall|i: int|
                    0 <= i < height implies #[trigger] cm[i] == line_result(cv.reverse()).reverse()[
                    i
                ] by {
                    lemma_cell_index(i, w - 1, height, width);
                    lemma_fundamental_div_mod_converse(i * width + (w - 1), width, i, w - 1);
                }
            };
            lemma_line_sum_reverse(line_result(cv.reverse()));
            lemma_line_result_sum(cv.reverse());
            lemma_line_sum_reverse(cv);
        }
    }
}

/// Conservation: the slide-and-merge passes of a move never change the
/// total of the board's tile values — compaction only moves values, and
/// each merge replaces `v + v` by `2v`. Together with
/// `lemma_spawn_adds`, the whole move adds exactly one value of 2 or 4,
/// and only when the board changed.
pub proof fn lemma_move_preserves_sum(
    vals: Seq<Option<usize>>,
    direction: Direction,
    height: int,
    width: int,
)
    requires
        vals.len() == width * height,
        height >= 0,
        width >= 0,
    ensures
        line_sum(move_vals(vals, direction, height, width)) == line_sum(vals),
{
    let mid = move_vals(vals, direction, height, width);
    if vals.len() == 0 {
        assert(mid =~= vals);
    } else {
        assert(width > 0) by {
            if width == 0 {
                lemma_mul_basics(height);
            }
        }
        match direction {
            Direction::Left | Direction::Right => {
                lemma_sum_rows(vals, height, width);
                lemma_sum_rows(mid, height, width);
                lemma_rows_sum_transform(vals, direction, height, width, height);
            },
            Direction::Up | Direction::Down => {
                lemma_sum_cols(vals, height, width);
                lemma_sum_cols(mid, height, width);
                lemma_cols_sum_transform(vals, direction, height, width, width);
            },
        }
    }
}

} // verus!
