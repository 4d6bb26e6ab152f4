//! The board: a row-major grid of identity-bearing cells, the four
//! directional compactions, and the full move pipeline (compact, merge,
//! compact, detect change, spawn).

use vstd::prelude::*;
use crate::line::{
    collapse_line, collapse_line_vals, line_result, merge_line, merge_neighbouring,
    lemma_collapse_line_len, lemma_merge_line_len, lemma_line_result_len,
    lemma_line_result_changed,
};
use crate::random::{choose_from, shuffle_ids, two_or_four};
use vstd::arithmetic::div_mod::{lemma_fundamental_div_mod, lemma_fundamental_div_mod_converse};
use vstd::arithmetic::mul::{lemma_mul_basics, lemma_mul_is_distributive_add_other_way};

verus! {

/// One grid slot: a stable position index and an optional tile value.
#[derive(Clone, Copy, PartialEq, Eq, Debug)]
pub struct Tile {
    pub tilecontent: Option<usize>,
    pub id: usize,
}

/// A directional move command. Any other input to the game is ignored
/// before it reaches the board.
#[derive(Clone, Copy, PartialEq, Eq, Debug)]
pub enum Direction {
    Left,
    Right,
    Up,
    Down,
}

/// The board: exactly `width * height` cells in row-major order,
/// indexed by their ids.
#[derive(Debug)]
pub struct Board(pub Vec<Tile>);

/// The row at height `h` of a row-major grid, as a line of values.
pub open spec fn row_of(vals: Seq<Option<usize>>, h: int, width: int) -> Seq<Option<usize>> {
    Seq::new(width as nat, |j: int| vals[h * width + j])
}

/// The column at offset `w` of a row-major grid, as a line of values.
pub open spec fn col_of(vals: Seq<Option<usize>>, w: int, height: int, width: int) -> Seq<
    Option<usize>,
> {
    Seq::new(height as nat, |i: int| vals[i * width + w])
}

/// The grid after the slide-and-merge passes of a move in `direction`,
/// before change detection and spawning: every line (row for Left/Right,
/// column for Up/Down) is compacted toward the target edge, merged once
/// walking away from that edge, and compacted again.
pub open spec fn move_vals(
    vals: Seq<Option<usize>>,
    direction: Direction,
    height: int,
    width: int,
) -> Seq<Option<usize>> {
    Seq::new(
        vals.len(),
        |k: int|
            match direction {
                Direction::Left => line_result(row_of(vals, k / width, width))[k % width],
                Direction::Right => line_result(row_of(vals, k / width, width).reverse()).reverse()[
                    k % width
                ],
                Direction::Up => line_result(col_of(vals, k % width, height, width))[k / width],
                Direction::Down => line_result(
                    col_of(vals, k % width, height, width).reverse(),
                ).reverse()[k / width],
            },
    )
}

/// The spawn step: exactly one previously-empty cell of `mid` now holds a
/// fresh tile valued 2 or 4; everything else is unchanged.
pub open spec fn spawned_from(mid: Seq<Option<usize>>, fin: Seq<Option<usize>>) -> bool {
    exists|k: int|
        0 <= k < mid.len() && mid[k] is None && (fin == mid.update(k, Some(2usize)) || fin
            == mid.update(k, Some(4usize)))
}

/// A freshly spawned or seeded tile holds 2 or 4.
pub open spec fn seed_value(v: Option<usize>) -> bool {
    v == Some(2usize) || v == Some(4usize)
}

/// Exactly two cells, at distinct positions, hold a seed value; every
/// other cell is empty.
pub open spec fn two_seeded(vals: Seq<Option<usize>>) -> bool {
    exists|i: int, j: int|
        #![trigger vals[i], vals[j]]
        0 <= i < vals.len() && 0 <= j < vals.len() && i != j && seed_value(vals[i]) && seed_value(
            vals[j],
        ) && (forall|k: int| 0 <= k < vals.len() && k != i && k != j ==> vals[k] is None)
}

pub proof fn lemma_cell_index(h: int, j: int, height: int, width: int)
    requires
        0 <= h < height,
        0 <= j < width,
    ensures
        0 <= h * width + j < width * height,
{
    assert(0 <= h * width + j < width * height) by (nonlinear_arith)
        requires
            0 <= h < height,
            0 <= j < width,
    ;
}

pub proof fn lemma_row_below(r: int, j: int, h: int, width: int)
    requires
        0 <= r < h,
        0 <= j < width,
    ensures
        r * width + j < h * width,
{
    assert(r * width + j < h * width) by (nonlinear_arith)
        requires
            0 <= r < h,
            0 <= j < width,
    ;
}

/// Coordinates of the cell at flat index `k` of a grid `width` cells wide.
pub proof fn lemma_flat_coords(k: int, height: int, width: int)
    requires
        0 < width,
        0 <= k < width * height,
    ensures
        0 <= k / width < height,
        0 <= k % width < width,
        k == (k / width) * width + (k % width),
{
    lemma_fundamental_div_mod(k, width);
    assert(0 <= k % width < width);
    assert(k == width * (k / width) + (k % width));
    assert((k / width) * width == width * (k / width)) by (nonlinear_arith);
    if k / width < 0 {
        assert(width * (k / width) <= -width) by (nonlinear_arith)
            requires
                0 < width,
                k / width <= -1,
        ;
    }
    if k / width >= height {
        assert(width * (k / width) >= width * height) by (nonlinear_arith)
            requires
                0 < width,
                k / width >= height,
        ;
    }
}

impl Board {
    /// The cells' values alone, in id order.
    pub open spec fn vals(&self) -> Seq<Option<usize>> {
        self.0@.map_values(|t: Tile| t.tilecontent)
    }

    /// Shape invariant for a `height` by `width` board: the cell count is
    /// fixed at `width * height` and every cell's id is its position.
    pub open spec fn wf(&self, height: usize, width: usize) -> bool {
        &&& self.0.len() == width * height
        &&& forall|k: int| 0 <= k < self.0@.len() ==> (#[trigger] self.0@[k]).id == k
    }

    /// Overwrites the value of the cell at `idx`, keeping its id.
    fn set_val(&mut self, idx: usize, v: Option<usize>)
        requires
            idx < old(self).0.len(),
        ensures
            final(self).0@.len() == old(self).0@.len(),
            forall|k: int|
                0 <= k < final(self).0@.len() ==> final(self).0@[k].id == old(self).0@[k].id,
            final(self).vals() == old(self).vals().update(idx as int, v),
    {
        let id = self.0[idx].id;
        self.0[idx] = Tile { tilecontent: v, id };
        proof {
            assert(self.vals() =~= old(self).vals().update(idx as int, v));
        }
    }

    /// The values of row `h`, in column order.
    fn read_row(&self, h: usize, height: usize, width: usize) -> (r: Vec<Option<usize>>)
        requires
            self.wf(height, width),
            h < height,
        ensures
            r@ == row_of(self.vals(), h as int, width as int),
    {
        let mut out: Vec<Option<usize>> = Vec::new();
        for j in 0..width
            invariant
                self.wf(height, width),
                h < height,
                out@.len() == j,
                forall|t: int|
                    0 <= t < j ==> #[trigger] out@[t] == row_of(
                        self.vals(),
                        h as int,
                        width as int,
                    )[t],
        {
            proof {
                lemma_cell_index(h as int, j as int, height as int, width as int);
            }
            let idx = crate::pair_to_index(h, j, width);
            out.push(self.0[idx].tilecontent);
        }
        proof {
            assert(out@ =~= row_of(self.vals(), h as int, width as int));
        }
        out
    }

    /// Replaces the values of row `h`, keeping every other cell.
    fn write_row(&mut self, h: usize, height: usize, width: usize, line: &Vec<Option<usize>>)
        requires
            old(self).wf(height, width),
            h < height,
            line@.len() == width,
        ensures
            final(self).wf(height, width),
            final(self).vals().len() == old(self).vals().len(),
            row_of(final(self).vals(), h as int, width as int) == line@,
            forall|k: int|
                0 <= k < final(self).vals().len() && !(h as int * (width as int) <= k < h as int * (
                width as int) + width) ==> final(self).vals()[k] == old(self).vals()[k],
    {
        for j in 0..width
            invariant
                self.wf(height, width),
                h < height,
                line@.len() == width,
                self.vals().len() == old(self).vals().len(),
                forall|t: int|
                    0 <= t < j ==> #[trigger] row_of(self.vals(), h as int, width as int)[t]
                        == line@[t],
                forall|k: int|
                    0 <= k < self.vals().len() && !(h as int * (width as int) <= k < h as int * (
                    width as int) + j) ==> self.vals()[k] == old(self).vals()[k],
        {
            proof {
                lemma_cell_index(h as int, j as int, height as int, width as int);
            }
            let idx = crate::pair_to_index(h, j, width);
            let ghost prev = self.vals();
            self.set_val(idx, line[j]);
            proof {
                assert forall|t: int|
                    0 <= t < j + 1 implies #[trigger] row_of(self.vals(), h as int, width as int)[t]
                    == line@[t] by {
                    lemma_cell_index(h as int, t, height as int, width as int);
                    if t < j {
                        assert(row_of(prev, h as int, width as int)[t] == line@[t]);
                    }
                }
            }
        }
        proof {
            assert(row_of(self.vals(), h as int, width as int) =~= line@);
        }
    }

    /// The values of the column at offset `w`, top to bottom.
    fn read_col(&self, w: usize, height: usize, width: usize) -> (r: Vec<Option<usize>>)
        requires
            self.wf(height, width),
            w < width,
        ensures
            r@ == col_of(self.vals(), w as int, height as int, width as int),
    {
        let mut out: Vec<Option<usize>> = Vec::new();
        for i in 0..height
            invariant
                self.wf(height, width),
                w < width,
                out@.len() == i,
                forall|t: int|
                    0 <= t < i ==> #[trigger] out@[t] == col_of(
                        self.vals(),
                        w as int,
                        height as int,
                        width as int,
                    )[t],
        {
            proof {
                lemma_cell_index(i as int, w as int, height as int, width as int);
            }
            let idx = crate::pair_to_index(i, w, width);
            out.push(self.0[idx].tilecontent);
        }
        proof {
            assert(out@ =~= col_of(self.vals(), w as int, height as int, width as int));
        }
        out
    }

    /// Replaces the values of the column at offset `w`, keeping every
    /// other cell.
    fn write_col(&mut self, w: usize, height: usize, width: usize, line: &Vec<Option<usize>>)
        requires
            old(self).wf(height, width),
            w < width,
            line@.len() == height,
        ensures
            final(self).wf(height, width),
            final(self).vals().len() == old(self).vals().len(),
            col_of(final(self).vals(), w as int, height as int, width as int) == line@,
            forall|k: int|
                0 <= k < final(self).vals().len() && k % (width as int) != w as int
                    ==> final(self).vals()[k] == old(self).vals()[k],
    {
        for i in 0..height
            invariant
                self.wf(height, width),
                w < width,
                line@.len() == height,
                self.vals().len() == old(self).vals().len(),
                forall|t: int|
                    0 <= t < i ==> #[trigger] col_of(
                        self.vals(),
                        w as int,
                        height as int,
                        width as int,
                    )[t] == line@[t],
                forall|k: int|
                    0 <= k < self.vals().len() && k % (width as int) != w as int ==> self.vals()[k]
                        == old(self).vals()[k],
        {
            proof {
                lemma_cell_index(i as int, w as int, height as int, width as int);
                lemma_fundamental_div_mod_converse(
                    i as int * (width as int) + w as int,
                    width as int,
                    i as int,
                    w as int,
                );
            }
            let idx = crate::pair_to_index(i, w, width);
            let ghost prev = self.vals();
            self.set_val(idx, line[i]);
            proof {
                assert forall|t: int|
                    0 <= t < i + 1 implies #[trigger] col_of(
                    self.vals(),
                    w as int,
                    height as int,
                    width as int,
                )[t] == line@[t] by {
                    lemma_cell_index(t, w as int, height as int, width as int);
                    if t < i {
                        assert(col_of(prev, w as int, height as int, width as int)[t] == line@[t]);
                        assert(t * (width as int) + w as int != i as int * (width as int)
                            + w as int) by (nonlinear_arith)
                            requires
                                0 <= t < i,
                                0 < width as int,
                        ;
                    }
                }
            }
        }
        proof {
            assert(col_of(self.vals(), w as int, height as int, width as int) =~= line@);
        }
    }

    /// Compacts every row toward the left edge.
    pub fn collapse_left(&mut self, height: usize, width: usize)
        requires
            old(self).wf(height, width),
        ensures
            final(self).wf(height, width),
            final(self).vals().len() == old(self).vals().len(),
            forall|h: int|
                0 <= h < height ==> row_of(final(self).vals(), h, width as int) == collapse_line(
                    row_of(old(self).vals(), h, width as int),
                ),
    {
        for h in 0..height
            invariant
                self.wf(height, width),
                self.vals().len() == old(self).vals().len(),
                forall|r: int|
                    0 <= r < h ==> row_of(self.vals(), r, width as int) == collapse_line(
                        row_of(old(self).vals(), r, width as int),
                    ),
                forall|k: int|
                    h as int * (width as int) <= k < self.vals().len() ==> self.vals()[k] == old(
                        self,
                    ).vals()[k],
        {
            proof {
                assert(row_of(self.vals(), h as int, width as int) =~= row_of(
                    old(self).vals(),
                    h as int,
                    width as int,
                )) by {
                    assert forall|j: int|
                        0 <= j < width implies #[trigger] row_of(
                        self.vals(),
                        h as int,
                        width as int,
                    )[j] == row_of(old(self).vals(), h as int, width as int)[j] by {
                        lemma_cell_index(h as int, j, height as int, width as int);
                    }
                };
            }
            let row = self.read_row(h, height, width);
            let new_row = collapse_line_vals(&row);
            proof {
                lemma_collapse_line_len(row@);
            }
            let ghost before = self.vals();
            self.write_row(h, height, width, &new_row);
            proof {
                lemma_mul_is_distributive_add_other_way(width as int, h as int, 1);
                assert forall|r: int|
                    0 <= r < h + 1 implies row_of(self.vals(), r, width as int) == collapse_line(
                    row_of(old(self).vals(), r, width as int),
                ) by {
                    if r < h {
                        assert(row_of(self.vals(), r, width as int) =~= row_of(
                            before,
                            r,
                            width as int,
                        )) by {
                            assert forall|j: int|
                                0 <= j < width implies #[trigger] row_of(
                                self.vals(),
                                r,
                                width as int,
                            )[j] == row_of(before, r, width as int)[j] by {
                                lemma_cell_index(r, j, height as int, width as int);
                                lemma_row_below(r, j, h as int, width as int);
                            }
                        };
                    }
                }
                assert forall|k: int|
                    (h + 1) as int * (width as int) <= k < self.vals().len() implies self.vals()[k]
                    == old(self).vals()[k] by {
                    assert(self.vals()[k] == before[k]);
                }
            }
        }
    }

    /// Compacts every row toward the right edge.
    pub fn collapse_right(&mut self, height: usize, width: usize)
        requires
            old(self).wf(height, width),
        ensures
            final(self).wf(height, width),
            final(self).vals().len() == old(self).vals().len(),
            forall|h: int|
                0 <= h < height ==> row_of(final(self).vals(), h, width as int) == collapse_line(
                    row_of(old(self).vals(), h, width as int).reverse(),
                ).reverse(),
    {
        for h in 0..height
            invariant
                self.wf(height, width),
                self.vals().len() == old(self).vals().len(),
                forall|r: int|
                    0 <= r < h ==> row_of(self.vals(), r, width as int) == collapse_line(
                        row_of(old(self).vals(), r, width as int).reverse(),
                    ).reverse(),
                forall|k: int|
                    h as int * (width as int) <= k < self.vals().len() ==> self.vals()[k] == old(
                        self,
                    ).vals()[k],
        {
            proof {
                assert(row_of(self.vals(), h as int, width as int) =~= row_of(
                    old(self).vals(),
                    h as int,
                    width as int,
                )) by {
                    assert forall|j: int|
                        0 <= j < width implies #[trigger] row_of(
                        self.vals(),
                        h as int,
                        width as int,
                    )[j] == row_of(old(self).vals(), h as int, width as int)[j] by {
                        lemma_cell_index(h as int, j, height as int, width as int);
                    }
                };
            }
            let row = self.read_row(h, height, width);
            let rev = reverse_vals(&row);
            let collapsed = collapse_line_vals(&rev);
            let new_row = reverse_vals(&collapsed);
            proof {
                lemma_collapse_line_len(rev@);
            }
            let ghost before = self.vals();
            self.write_row(h, height, width, &new_row);
            proof {
                lemma_mul_is_distributive_add_other_way(width as int, h as int, 1);
                assert forall|r: int|
                    0 <= r < h + 1 implies row_of(self.vals(), r, width as int) == collapse_line(
                    row_of(old(self).vals(), r, width as int).reverse(),
                ).reverse() by {
                    if r < h {
                        assert(row_of(self.vals(), r, width as int) =~= row_of(
                            before,
                            r,
                            width as int,
                        )) by {
                            assert forall|j: int|
                                0 <= j < width implies #[trigger] row_of(
                                self.vals(),
                                r,
                                width as int,
                            )[j] == row_of(before, r, width as int)[j] by {
                                lemma_cell_index(r, j, height as int, width as int);
                                lemma_row_below(r, j, h as int, width as int);
                            }
                        };
                    }
                }
                assert forall|k: int|
                    (h + 1) as int * (width as int) <= k < self.vals().len() implies self.vals()[k]
                    == old(self).vals()[k] by {
                    assert(self.vals()[k] == before[k]);
                }
            }
        }
    }

    /// Compacts every column toward the top edge.
    pub fn collapse_up(&mut self, height: usize, width: usize)
        requires
            old(self).wf(height, width),
        ensures
            final(self).wf(height, width),
            final(self).vals().len() == old(self).vals().len(),
            forall|w: int|
                0 <= w < width ==> col_of(final(self).vals(), w, height as int, width as int)
                    == collapse_line(col_of(old(self).vals(), w, height as int, width as int)),
    {
        for w in 0..width
            invariant
                self.wf(height, width),
                self.vals().len() == old(self).vals().len(),
                forall|c: int|
                    0 <= c < w ==> col_of(self.vals(), c, height as int, width as int)
                        == collapse_line(
                        col_of(old(self).vals(), c, height as int, width as int),
                    ),
                forall|k: int|
                    0 <= k < self.vals().len() && k % (width as int) >= w ==> self.vals()[k] == old(
                        self,
                    ).vals()[k],
        {
            proof {
                assert(col_of(self.vals(), w as int, height as int, width as int) =~= col_of(
                    old(self).vals(),
                    w as int,
                    height as int,
                    width as int,
                )) by {
                    assert forall|i: int|
                        0 <= i < height implies #[trigger] col_of(
                        self.vals(),
                        w as int,
                        height as int,
                        width as int,
                    )[i] == col_of(old(self).vals(), w as int, height as int, width as int)[i] by {
                        lemma_cell_index(i, w as int, height as int, width as int);
                        lemma_fundamental_div_mod_converse(
                            i * (width as int) + w as int,
                            width as int,
                            i,
                            w as int,
                        );
                    }
                };
            }
            let col = self.read_col(w, height, width);
            let new_col = collapse_line_vals(&col);
            proof {
                lemma_collapse_line_len(col@);
            }
            let ghost before = self.vals();
            self.write_col(w, height, width, &new_col);
            proof {
                assert forall|c: int|
                    0 <= c < w + 1 implies col_of(self.vals(), c, height as int, width as int)
                    == collapse_line(col_of(old(self).vals(), c, height as int, width as int)) by {
                    if c < w {
                        assert(col_of(self.vals(), c, height as int, width as int) =~= col_of(
                            before,
                            c,
                            height as int,
                            width as int,
                        )) by {
                            assert forall|i: int|
                                0 <= i < height implies #[trigger] col_of(
                                self.vals(),
                                c,
                                height as int,
                                width as int,
                            )[i] == col_of(before, c, height as int, width as int)[i] by {
                                lemma_cell_index(i, c, height as int, width as int);
                                lemma_fundamental_div_mod_converse(
                                    i * (width as int) + c,
                                    width as int,
                                    i,
                                    c,
                                );
                            }
                        };
                    }
                }
                assert forall|k: int|
                    0 <= k < self.vals().len() && k % (width as int) >= w + 1 implies self.vals()[k]
                    == old(self).vals()[k] by {
                    assert(self.vals()[k] == before[k]);
                }
            }
        }
    }

    /// Compacts every column toward the bottom edge.
    pub fn collapse_down(&mut self, height: usize, width: usize)
        requires
            old(self).wf(height, width),
        ensures
            final(self).wf(height, width),
            final(self).vals().len() == old(self).vals().len(),
            forall|w: int|
                0 <= w < width ==> col_of(final(self).vals(), w, height as int, width as int)
                    == collapse_line(
                    col_of(old(self).vals(), w, height as int, width as int).reverse(),
                ).reverse(),
    {
        for w in 0..width
            invariant
                self.wf(height, width),
                self.vals().len() == old(self).vals().len(),
                forall|c: int|
                    0 <= c < w ==> col_of(self.vals(), c, height as int, width as int)
                        == collapse_line(
                        col_of(old(self).vals(), c, height as int, width as int).reverse(),
                    ).reverse(),
                forall|k: int|
                    0 <= k < self.vals().len() && k % (width as int) >= w ==> self.vals()[k] == old(
                        self,
                    ).vals()[k],
        {
            proof {
                assert(col_of(self.vals(), w as int, height as int, width as int) =~= col_of(
                    old(self).vals(),
                    w as int,
                    height as int,
                    width as int,
                )) by {
                    assert forall|i: int|
                        0 <= i < height implies #[trigger] col_of(
                        self.vals(),
                        w as int,
                        height as int,
                        width as int,
                    )[i] == col_of(old(self).vals(), w as int, height as int, width as int)[i] by {
                        lemma_cell_index(i, w as int, height as int, width as int);
                        lemma_fundamental_div_mod_converse(
                            i * (width as int) + w as int,
                            width as int,
                            i,
                            w as int,
                        );
                    }
                };
            }
            let col = self.read_col(w, height, width);
            let rev = reverse_vals(&col);
            let collapsed = collapse_line_vals(&rev);
            let new_col = reverse_vals(&collapsed);
            proof {
                lemma_collapse_line_len(rev@);
            }
            let ghost before = self.vals();
            self.write_col(w, height, width, &new_col);
            proof {
                assert forall|c: int|
                    0 <= c < w + 1 implies col_of(self.vals(), c, height as int, width as int)
                    == collapse_line(
                    col_of(old(self).vals(), c, height as int, width as int).reverse(),
                ).reverse() by {
                    if c < w {
                        assert(col_of(self.vals(), c, height as int, width as int) =~= col_of(
                            before,
                            c,
                            height as int,
                            width as int,
                        )) by {
                            assert forall|i: int|
                                0 <= i < height implies #[trigger] col_of(
                                self.vals(),
                                c,
                                height as int,
                                width as int,
                            )[i] == col_of(before, c, height as int, width as int)[i] by {
                                lemma_cell_index(i, c, height as int, width as int);
                                lemma_fundamental_div_mod_converse(
                                    i * (width as int) + c,
                                    width as int,
                                    i,
                                    c,
                                );
                            }
                        };
                    }
                }
                assert forall|k: int|
                    0 <= k < self.vals().len() && k % (width as int) >= w + 1 implies self.vals()[k]
                    == old(self).vals()[k] by {
                    assert(self.vals()[k] == before[k]);
                }
            }
        }
    }
}

/// A move that changes the grid leaves at least one empty cell in it:
/// either a slide closed a gap, which reappears at the line's tail, or a
/// merge emptied a cell.
pub proof fn lemma_changed_board_has_empty(
    vals: Seq<Option<usize>>,
    direction: Direction,
    height: int,
    width: int,
)
    requires
        vals.len() == width * height,
        width >= 0,
        height >= 0,
    ensures
        move_vals(vals, direction, height, width) != vals ==> exists|k: int|
            0 <= k < vals.len() && (#[trigger] move_vals(vals, direction, height, width)[k])
                is None,
{
    let mid = move_vals(vals, direction, height, width);
    if mid != vals {
        assert(exists|k: int| 0 <= k < vals.len() && mid[k] != vals[k]) by {
            if forall|k: int| 0 <= k < vals.len() ==> #[trigger] mid[k] == vals[k] {
                assert(mid =~= vals);
            }
        }
        let k0 = choose|k: int| 0 <= k < vals.len() && mid[k] != vals[k];
        assert(width > 0) by {
            if width == 0 {
                lemma_mul_basics(height);
            }
        }
        lemma_flat_coords(k0, height, width);
        let h = k0 / width;
        let j = k0 % width;
        match direction {
            Direction::Left => {
                let s = row_of(vals, h, width);
                lemma_line_result_len(s);
                assert(mid[k0] == line_result(s)[j]);
                assert(vals[k0] == s[j]);
                lemma_line_result_changed(s);
                let t = choose|t: int| 0 <= t < s.len() && (#[trigger] line_result(s)[t]) is None;
                lemma_cell_index(h, t, height, width);
                let k1 = h * width + t;
                lemma_fundamental_div_mod_converse(k1, width, h, t);
                assert(mid[k1] == line_result(row_of(vals, h, width))[t]);
                assert(mid[k1] is None);
            },
            Direction::Right => {
                let s = row_of(vals, h, width).reverse();
                lemma_line_result_len(s);
                assert(mid[k0] == line_result(s).reverse()[j]);
                assert(line_result(s) != s) by {
                    if line_result(s) == s {
                        assert(s.reverse() =~= row_of(vals, h, width));
                        assert(vals[k0] == row_of(vals, h, width)[j]);
                    }
                }
                lemma_line_result_changed(s);
                let t = choose|t: int| 0 <= t < s.len() && (#[trigger] line_result(s)[t]) is None;
                let t1 = width - 1 - t;
                lemma_cell_index(h, t1, height, width);
                let k1 = h * width + t1;
                lemma_fundamental_div_mod_converse(k1, width, h, t1);
                assert(mid[k1] == line_result(row_of(vals, h, width).reverse()).reverse()[t1]);
                assert(line_result(s).reverse()[t1] == line_result(s)[t]);
                assert(mid[k1] is None);
            },
            Direction::Up => {
                let s = col_of(vals, j, height, width);
                lemma_line_result_len(s);
                assert(mid[k0] == line_result(s)[h]);
                assert(vals[k0] == s[h]);
                lemma_line_result_changed(s);
                let t = choose|t: int| 0 <= t < s.len() && (#[trigger] line_result(s)[t]) is None;
                lemma_cell_index(t, j, height, width);
                let k1 = t * width + j;
                lemma_fundamental_div_mod_converse(k1, width, t, j);
                assert(mid[k1] == line_result(col_of(vals, j, height, width))[t]);
                assert(mid[k1] is None);
            },
            Direction::Down => {
                let s = col_of(vals, j, height, width).reverse();
                lemma_line_result_len(s);
                assert(mid[k0] == line_result(s).reverse()[h]);
                assert(line_result(s) != s) by {
                    if line_result(s) == s {
                        assert(s.reverse() =~= col_of(vals, j, height, width));
                        assert(vals[k0] == col_of(vals, j, height, width)[h]);
                    }
                }
                lemma_line_result_changed(s);
                let t = choose|t: int| 0 <= t < s.len() && (#[trigger] line_result(s)[t]) is None;
                let t1 = height - 1 - t;
                lemma_cell_index(t1, j, height, width);
                let k1 = t1 * width + j;
                lemma_fundamental_div_mod_converse(k1, width, t1, j);
                assert(mid[k1] == line_result(col_of(vals, j, height, width).reverse()).reverse()[
                    t1
                ]);
                assert(line_result(s).reverse()[t1] == line_result(s)[t]);
                assert(mid[k1] is None);
            },
        }
    }
}

impl Board {
    /// A plain copy of the cells' values, for change detection.
    fn snapshot_vals(&self) -> (r: Vec<Option<usize>>)
        ensures
            r@ == self.vals(),
    {
        let n = self.0.len();
        let mut out: Vec<Option<usize>> = Vec::new();
        for k in 0..n
            invariant
                n == self.0@.len(),
                out@.len() == k,
                forall|t: int| 0 <= t < k ==> #[trigger] out@[t] == self.vals()[t],
        {
            out.push(self.0[k].tilecontent);
        }
        proof {
            assert(out@ =~= self.vals());
        }
        out
    }

    /// Structural comparison of the cells' values against a snapshot.
    fn vals_equal(&self, other: &Vec<Option<usize>>) -> (r: bool)
        ensures
            r == (self.vals() == other@),
    {
        let n = self.0.len();
        if n != other.len() {
            proof {
                assert(self.vals().len() == self.0@.len());
            }
            return false;
        }
        for k in 0..n
            invariant
                n == self.0@.len(),
                n == other@.len(),
                forall|t: int| 0 <= t < k ==> #[trigger] self.vals()[t] == other@[t],
        {
            let a = self.0[k].tilecontent;
            let b = other[k];
            let eq = match (a, b) {
                (None, None) => true,
                (Some(x), Some(y)) => x == y,
                _ => false,
            };
            if !eq {
                proof {
                    assert(self.vals()[k as int] != other@[k as int]);
                }
                return false;
            }
        }
        proof {
            assert(self.vals() =~= other@);
        }
        true
    }

    /// The ids of all currently empty cells, in id order.
    fn empty_ids(&self) -> (r: Vec<usize>)
        ensures
            forall|t: int|
                0 <= t < r@.len() ==> (#[trigger] r@[t]) < self.0@.len() && self.vals()[r@[t] as int]
                    is None,
            forall|m: int|
                0 <= m < self.vals().len() && self.vals()[m] is None ==> r@.contains(m as usize),
    {
        let n = self.0.len();
        let mut out: Vec<usize> = Vec::new();
        for k in 0..n
            invariant
                n == self.0@.len(),
                forall|t: int|
                    0 <= t < out@.len() ==> (#[trigger] out@[t]) < n && self.vals()[out@[t] as int]
                        is None,
                forall|m: int| 0 <= m < k && self.vals()[m] is None ==> out@.contains(m as usize),
        {
            let empty = self.0[k].tilecontent.is_none();
            let ghost prev = out@;
            if empty {
                out.push(k);
            }
            proof {
                assert forall|m: int|
                    0 <= m < k + 1 && self.vals()[m] is None implies out@.contains(m as usize) by {
                    if m < k {
                        assert(prev.contains(m as usize));
                        let i = choose|i: int| 0 <= i < prev.len() && prev[i] == m as usize;
                        assert(out@[i] == m as usize);
                    } else {
                        assert(out@[out@.len() - 1] == k as usize);
                    }
                }
            }
        }
        out
    }

    /// Applies one directional move in place: every line is compacted
    /// toward the target edge, merged once, and compacted again; then, if
    /// and only if that changed the board, exactly one randomly chosen
    /// empty cell receives a fresh tile valued 2 or 4.
    pub fn move_tile_content(&mut self, direction: Direction, height: usize, width: usize)
        requires
            old(self).wf(height, width),
        ensures
            final(self).wf(height, width),
            move_vals(old(self).vals(), direction, height as int, width as int) == old(self).vals()
                ==> final(self).vals() == old(self).vals(),
            move_vals(old(self).vals(), direction, height as int, width as int) != old(self).vals()
                ==> spawned_from(
                move_vals(old(self).vals(), direction, height as int, width as int),
                final(self).vals(),
            ),
    {
        let ghost mid = move_vals(old(self).vals(), direction, height as int, width as int);
        let snapshot = self.snapshot_vals();
        match direction {
            Direction::Left => {
                for h in 0..height
                    invariant
                        self.wf(height, width),
                        self.vals().len() == old(self).vals().len(),
                        forall|r: int|
                            0 <= r < h ==> row_of(self.vals(), r, width as int) == line_result(
                                row_of(old(self).vals(), r, width as int),
                            ),
                        forall|k: int|
                            h as int * (width as int) <= k < self.vals().len() ==> self.vals()[k]
                                == old(self).vals()[k],
                {
                    proof {
                        assert(row_of(self.vals(), h as int, width as int) =~= row_of(
                            old(self).vals(),
                            h as int,
                            width as int,
                        )) by {
                            assert forall|j: int|
                                0 <= j < width implies #[trigger] row_of(
                                self.vals(),
                                h as int,
                                width as int,
                            )[j] == row_of(old(self).vals(), h as int, width as int)[j] by {
                                lemma_cell_index(h as int, j, height as int, width as int);
                            }
                        };
                    }
                    let row = self.read_row(h, height, width);
                    let c1 = collapse_line_vals(&row);
                    let m = merge_neighbouring(&c1);
                    let new_row = collapse_line_vals(&m);
                    proof {
                        lemma_collapse_line_len(row@);
                        lemma_merge_line_len(collapse_line(row@));
                        lemma_collapse_line_len(merge_line(collapse_line(row@)));
                    }
                    let ghost before = self.vals();
                    self.write_row(h, height, width, &new_row);
                    proof {
                        lemma_mul_is_distributive_add_other_way(width as int, h as int, 1);
                        assert forall|r: int|
                            0 <= r < h + 1 implies row_of(self.vals(), r, width as int)
                            == line_result(row_of(old(self).vals(), r, width as int)) by {
                            if r < h {
                                assert(row_of(self.vals(), r, width as int) =~= row_of(
                                    before,
                                    r,
                                    width as int,
                                )) by {
                                    assert forall|j: int|
                                        0 <= j < width implies #[trigger] row_of(
                                        self.vals(),
                                        r,
                                        width as int,
                                    )[j] == row_of(before, r, width as int)[j] by {
                                        lemma_cell_index(r, j, height as int, width as int);
                                        lemma_row_below(r, j, h as int, width as int);
                                    }
                                };
                            }
                        }
                        assert forall|k: int|
                            (h + 1) as int * (width as int) <= k
                                < self.vals().len() implies self.vals()[k] == old(self).vals()[k]
                        by {
                            assert(self.vals()[k] == before[k]);
                        }
                    }
                }
                proof {
                    assert(self.vals() =~= mid) by {
                        assert forall|k: int|
                            0 <= k < self.vals().len() implies self.vals()[k] == mid[k] by {
                            assert(width as int > 0) by {
                                if width as int == 0 {
                                    lemma_mul_basics(height as int);
                                }
                            }
                            lemma_flat_coords(k, height as int, width as int);
                            let h = k / (width as int);
                            let j = k % (width as int);
                            assert(row_of(self.vals(), h, width as int)[j] == self.vals()[h * (
                            width as int) + j]);
                        }
                    };
                }
            },
            Direction::Right => {
                for h in 0..height
                    invariant
                        self.wf(height, width),
                        self.vals().len() == old(self).vals().len(),
                        forall|r: int|
                            0 <= r < h ==> row_of(self.vals(), r, width as int) == line_result(
                                row_of(old(self).vals(), r, width as int).reverse(),
                            ).reverse(),
                        forall|k: int|
                            h as int * (width as int) <= k < self.vals().len() ==> self.vals()[k]
                                == old(self).vals()[k],
                {
                    proof {
                        assert(row_of(self.vals(), h as int, width as int) =~= row_of(
                            old(self).vals(),
                            h as int,
                            width as int,
                        )) by {
                            assert forall|j: int|
                                0 <= j < width implies #[trigger] row_of(
                                self.vals(),
                                h as int,
                                width as int,
                            )[j] == row_of(old(self).vals(), h as int, width as int)[j] by {
                                lemma_cell_index(h as int, j, height as int, width as int);
                            }
                        };
                    }
                    let row = self.read_row(h, height, width);
                    let rev = reverse_vals(&row);
                    let c1 = collapse_line_vals(&rev);
                    let m = merge_neighbouring(&c1);
                    let c2 = collapse_line_vals(&m);
                    let new_row = reverse_vals(&c2);
                    proof {
                        lemma_collapse_line_len(rev@);
                        lemma_merge_line_len(collapse_line(rev@));
                        lemma_collapse_line_len(merge_line(collapse_line(rev@)));
                    }
                    let ghost before = self.vals();
                    self.write_row(h, height, width, &new_row);
                    proof {
                        lemma_mul_is_distributive_add_other_way(width as int, h as int, 1);
                        assert forall|r: int|
                            0 <= r < h + 1 implies row_of(self.vals(), r, width as int)
                            == line_result(
                            row_of(old(self).vals(), r, width as int).reverse(),
                        ).reverse() by {
                            if r < h {
                                assert(row_of(self.vals(), r, width as int) =~= row_of(
                                    before,
                                    r,
                                    width as int,
                                )) by {
                                    assert forall|j: int|
                                        0 <= j < width implies #[trigger] row_of(
                                        self.vals(),
                                        r,
                                        width as int,
                                    )[j] == row_of(before, r, width as int)[j] by {
                                        lemma_cell_index(r, j, height as int, width as int);
                                        lemma_row_below(r, j, h as int, width as int);
                                    }
                                };
                            }
                        }
                        assert forall|k: int|
                            (h + 1) as int * (width as int) <= k
                                < self.vals().len() implies self.vals()[k] == old(self).vals()[k]
                        by {
                            assert(self.vals()[k] == before[k]);
                        }
                    }
                }
                proof {
                    assert(self.vals() =~= mid) by {
                        assert forall|k: int|
                            0 <= k < self.vals().len() implies self.vals()[k] == mid[k] by {
                            assert(width as int > 0) by {
                                if width as int == 0 {
                                    lemma_mul_basics(height as int);
                                }
                            }
                            lemma_flat_coords(k, height as int, width as int);
                            let h = k / (width as int);
                            let j = k % (width as int);
                            assert(row_of(self.vals(), h, width as int)[j] == self.vals()[h * (
                            width as int) + j]);
                        }
                    };
                }
            },
            Direction::Up => {
                for w in 0..width
                    invariant
                        self.wf(height, width),
                        self.vals().len() == old(self).vals().len(),
                        forall|c: int|
                            0 <= c < w ==> col_of(self.vals(), c, height as int, width as int)
                                == line_result(
                                col_of(old(self).vals(), c, height as int, width as int),
                            ),
                        forall|k: int|
                            0 <= k < self.vals().len() && k % (width as int) >= w
                                ==> self.vals()[k] == old(self).vals()[k],
                {
                    proof {
                        assert(col_of(self.vals(), w as int, height as int, width as int)
                            =~= col_of(old(self).vals(), w as int, height as int, width as int))
                            by {
                            assert forall|i: int|
                                0 <= i < height implies #[trigger] col_of(
                                self.vals(),
                                w as int,
                                height as int,
                                width as int,
                            )[i] == col_of(old(self).vals(), w as int, height as int, width as int)[
                                i
                            ] by {
                                lemma_cell_index(i, w as int, height as int, width as int);
                                lemma_fundamental_div_mod_converse(
                                    i * (width as int) + w as int,
                                    width as int,
                                    i,
                                    w as int,
                                );
                            }
                        };
                    }
                    let col = self.read_col(w, height, width);
                    let c1 = collapse_line_vals(&col);
                    let m = merge_neighbouring(&c1);
                    let new_col = collapse_line_vals(&m);
                    proof {
                        lemma_collapse_line_len(col@);
                        lemma_merge_line_len(collapse_line(col@));
                        lemma_collapse_line_len(merge_line(collapse_line(col@)));
                    }
                    let ghost before = self.vals();
                    self.write_col(w, height, width, &new_col);
                    proof {
                        assert forall|c: int|
                            0 <= c < w + 1 implies col_of(
                            self.vals(),
                            c,
                            height as int,
                            width as int,
                        ) == line_result(col_of(old(self).vals(), c, height as int, width as int))
                        by {
                            if c < w {
                                assert(col_of(self.vals(), c, height as int, width as int)
                                    =~= col_of(before, c, height as int, width as int)) by {
                                    assert forall|i: int|
                                        0 <= i < height implies #[trigger] col_of(
                                        self.vals(),
                                        c,
                                        height as int,
                                        width as int,
                                    )[i] == col_of(before, c, height as int, width as int)[i] by {
                                        lemma_cell_index(i, c, height as int, width as int);
                                        lemma_fundamental_div_mod_converse(
                                            i * (width as int) + c,
                                            width as int,
                                            i,
                                            c,
                                        );
                                    }
                                };
                            }
                        }
                        assert forall|k: int|
                            0 <= k < self.vals().len() && k % (width as int) >= w
                                + 1 implies self.vals()[k] == old(self).vals()[k] by {
                            assert(self.vals()[k] == before[k]);
                        }
                    }
                }
                proof {
                    assert(self.vals() =~= mid) by {
                        assert forall|k: int|
                            0 <= k < self.vals().len() implies self.vals()[k] == mid[k] by {
                            assert(width as int > 0) by {
                                if width as int == 0 {
                                    lemma_mul_basics(height as int);
                                }
                            }
                            lemma_flat_coords(k, height as int, width as int);
                            let i = k / (width as int);
                            let c = k % (width as int);
                            assert(col_of(self.vals(), c, height as int, width as int)[i]
                                == self.vals()[i * (width as int) + c]);
                        }
                    };
                }
            },
            Direction::Down => {
                for w in 0..width
                    invariant
                        self.wf(height, width),
                        self.vals().len() == old(self).vals().len(),
                        forall|c: int|
                            0 <= c < w ==> col_of(self.vals(), c, height as int, width as int)
                                == line_result(
                                col_of(old(self).vals(), c, height as int, width as int).reverse(),
                            ).reverse(),
                        forall|k: int|
                            0 <= k < self.vals().len() && k % (width as int) >= w
                                ==> self.vals()[k] == old(self).vals()[k],
                {
                    proof {
                        assert(col_of(self.vals(), w as int, height as int, width as int)
                            =~= col_of(old(self).vals(), w as int, height as int, width as int))
                            by {
                            assert forall|i: int|
                                0 <= i < height implies #[trigger] col_of(
                                self.vals(),
                                w as int,
                                height as int,
                                width as int,
                            )[i] == col_of(old(self).vals(), w as int, height as int, width as int)[
                                i
                            ] by {
                                lemma_cell_index(i, w as int, height as int, width as int);
                                lemma_fundamental_div_mod_converse(
                                    i * (width as int) + w as int,
                                    width as int,
                                    i,
                                    w as int,
                                );
                            }
                        };
                    }
                    let col = self.read_col(w, height, width);
                    let rev = reverse_vals(&col);
                    let c1 = collapse_line_vals(&rev);
                    let m = merge_neighbouring(&c1);
                    let c2 = collapse_line_vals(&m);
                    let new_col = reverse_vals(&c2);
                    proof {
                        lemma_collapse_line_len(rev@);
                        lemma_merge_line_len(collapse_line(rev@));
                        lemma_collapse_line_len(merge_line(collapse_line(rev@)));
                    }
                    let ghost before = self.vals();
                    self.write_col(w, height, width, &new_col);
                    proof {
                        assert forall|c: int|
                            0 <= c < w + 1 implies col_of(
                            self.vals(),
                            c,
                            height as int,
                            width as int,
                        ) == line_result(
                            col_of(old(self).vals(), c, height as int, width as int).reverse(),
                        ).reverse() by {
                            if c < w {
                                assert(col_of(self.vals(), c, height as int, width as int)
                                    =~= col_of(before, c, height as int, width as int)) by {
                                    assert forall|i: int|
                                        0 <= i < height implies #[trigger] col_of(
                                        self.vals(),
                                        c,
                                        height as int,
                                        width as int,
                                    )[i] == col_of(before, c, height as int, width as int)[i] by {
                                        lemma_cell_index(i, c, height as int, width as int);
                                        lemma_fundamental_div_mod_converse(
                                            i * (width as int) + c,
                                            width as int,
                                            i,
                                            c,
                                        );
                                    }
                                };
                            }
                        }
                        assert forall|k: int|
                            0 <= k < self.vals().len() && k % (width as int) >= w
                                + 1 implies self.vals()[k] == old(self).vals()[k] by {
                            assert(self.vals()[k] == before[k]);
                        }
                    }
                }
                proof {
                    assert(self.vals() =~= mid) by {
                        assert forall|k: int|
                            0 <= k < self.vals().len() implies self.vals()[k] == mid[k] by {
                            assert(width as int > 0) by {
                                if width as int == 0 {
                                    lemma_mul_basics(height as int);
                                }
                            }
                            lemma_flat_coords(k, height as int, width as int);
                            let i = k / (width as int);
                            let c = k % (width as int);
                            assert(col_of(self.vals(), c, height as int, width as int)[i]
                                == self.vals()[i * (width as int) + c]);
                        }
                    };
                }
            },
        }
        let same = self.vals_equal(&snapshot);
        if !same {
            proof {
                lemma_changed_board_has_empty(
                    old(self).vals(),
                    direction,
                    height as int,
                    width as int,
                );
            }
            let empties = self.empty_ids();
            proof {
                let k0 = choose|k: int|
                    0 <= k < old(self).vals().len() && (#[trigger] mid[k]) is None;
                assert(self.vals()[k0] is None);
                assert(empties@.contains(k0 as usize));
            }
            match choose_from(&empties) {
                Some(id) => {
                    proof {
                        assert(empties@.contains(id));
                        let ti = choose|i: int| 0 <= i < empties@.len() && empties@[i] == id;
                        assert((id as int) < self.0@.len());
                        assert(self.vals()[id as int] is None);
                    }
                    let v = two_or_four();
                    self.set_val(id, Some(v));
                    proof {
                        assert((id as int) < mid.len() && mid[id as int] is None && (self.vals()
                            == mid.update(id as int, Some(2usize)) || self.vals() == mid.update(
                            id as int,
                            Some(4usize),
                        )));
                        assert(spawned_from(mid, self.vals()));
                    }
                },
                None => {
                    proof {
                        assert(false);
                    }
                },
            }
        }
    }

    /// A fresh `height` by `width` board: every cell empty, except two
    /// distinct randomly chosen cells (one, on a single-cell board), each
    /// seeded with 2 or 4.
    pub fn new(height: usize, width: usize) -> (r: Board)
        requires
            1 <= height,
            1 <= width,
            width * height <= usize::MAX,
        ensures
            r.wf(height, width),
            width * height >= 2 ==> two_seeded(r.vals()),
            width * height == 1 ==> r.vals().len() == 1 && seed_value(r.vals()[0]),
    {
        proof {
            assert(width * height >= 1) by (nonlinear_arith)
                requires
                    1 <= width,
                    1 <= height,
            ;
        }
        let n = width * height;
        let mut cells: Vec<Tile> = Vec::new();
        for id in 0..n
            invariant
                cells@.len() == id,
                forall|t: int|
                    0 <= t < id ==> (#[trigger] cells@[t]).id == t && cells@[t].tilecontent
                        is None,
        {
            cells.push(Tile { tilecontent: None, id });
        }
        let mut ids: Vec<usize> = Vec::new();
        for t in 0..n
            invariant
                ids@.len() == t,
                forall|u: int| 0 <= u < t ==> (#[trigger] ids@[u]) == u,
        {
            ids.push(t);
        }
        let ghost ids0 = ids@;
        shuffle_ids(&mut ids);
        proof {
            broadcast use vstd::seq_lib::group_to_multiset_ensures;

            assert(ids0.no_duplicates());
            ids0.lemma_multiset_has_no_duplicates();
            assert forall|x: usize|
                ids@.to_multiset().contains(x) implies ids@.to_multiset().count(x) == 1 by {
                assert(ids0.to_multiset().contains(x));
            }
            ids@.lemma_multiset_has_no_duplicates_conv();
            assert forall|u: int| 0 <= u < ids@.len() implies (#[trigger] ids@[u]) < n by {
                assert(ids@.contains(ids@[u]));
                assert(ids@.to_multiset().count(ids@[u]) > 0);
                assert(ids0.to_multiset().count(ids@[u]) > 0);
                assert(ids0.contains(ids@[u]));
                let i0 = choose|i: int| 0 <= i < ids0.len() && ids0[i] == ids@[u];
                assert(ids0[i0] == i0);
            }
        }
        let mut board = Board(cells);
        let a = ids[0];
        let va = two_or_four();
        board.set_val(a, Some(va));
        if n >= 2 {
            let b = ids[1];
            let vb = two_or_four();
            proof {
                assert(ids@[0] != ids@[1]);
            }
            board.set_val(b, Some(vb));
            proof {
                assert(board.vals()[a as int] == Some(va));
                assert(board.vals()[b as int] == Some(vb));
                assert forall|k: int|
                    0 <= k < board.vals().len() && k != a as int && k
                        != b as int implies board.vals()[k] is None by {}
                assert(two_seeded(board.vals()));
            }
        } else {
            proof {
                assert(a as int == 0);
                assert(board.vals()[0] == Some(va));
            }
        }
        board
    }
}

/// A copy of the line in reverse order.
fn reverse_vals(line: &Vec<Option<usize>>) -> (r: Vec<Option<usize>>)
    ensures
        r@ == line@.reverse(),
{
    let n = line.len();
    let mut out: Vec<Option<usize>> = Vec::new();
    for k in 0..n
        invariant
            n == line@.len(),
            out@.len() == k,
            forall|t: int| 0 <= t < k ==> #[trigger] out@[t] == line@.reverse()[t],
    {
        out.push(line[n - 1 - k]);
    }
    proof {
        assert(out@ =~= line@.reverse());
    }
    out
}

} // verus!
