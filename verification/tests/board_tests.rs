use twenty48::board::{Board, Direction, Tile};
use twenty48::pair_to_index;

fn board_of(vals: &[Option<usize>]) -> Board {
    let mut cells: Vec<Tile> = Vec::new();
    for (id, v) in vals.iter().enumerate() {
        cells.push(Tile { tilecontent: *v, id });
    }
    Board(cells)
}

fn values(board: &Board) -> Vec<Option<usize>> {
    board.0.iter().map(|t| t.tilecontent).collect()
}

fn is_seed(v: Option<usize>) -> bool {
    v == Some(2) || v == Some(4)
}

#[test]
fn pair_to_index_is_row_major() {
    assert_eq!(pair_to_index(0, 0, 4), 0);
    assert_eq!(pair_to_index(0, 3, 4), 3);
    assert_eq!(pair_to_index(2, 3, 4), 11);
    assert_eq!(pair_to_index(3, 0, 4), 12);
}

#[test]
fn left_collapse_merge_boundary_example() {
    // One row [2, 2, 4, _]: collapse keeps it, the merge combines the two
    // leading 2s in place, the second collapse closes the gap, and one of
    // the two empty cells receives a fresh seed tile.
    let mut b = board_of(&[Some(2), Some(2), Some(4), None]);
    b.move_tile_content(Direction::Left, 1, 4);
    assert_eq!(b.0[0].tilecontent, Some(4));
    assert_eq!(b.0[1].tilecontent, Some(4));
    let spawned = match (b.0[2].tilecontent, b.0[3].tilecontent) {
        (Some(v), None) | (None, Some(v)) => is_seed(Some(v)),
        _ => false,
    };
    assert!(spawned);
}

#[test]
fn construction_seeds_exactly_two_cells() {
    let b = Board::new(4, 4);
    assert_eq!(b.0.len(), 16);
    for (k, t) in b.0.iter().enumerate() {
        assert_eq!(t.id, k);
    }
    let seeded: Vec<Option<usize>> = values(&b).into_iter().filter(|v| v.is_some()).collect();
    assert_eq!(seeded.len(), 2);
    for v in seeded {
        assert!(is_seed(v));
    }
}

#[test]
fn construction_on_single_cell_board() {
    let b = Board::new(1, 1);
    assert_eq!(b.0.len(), 1);
    assert!(is_seed(b.0[0].tilecontent));
}

#[test]
fn four_equal_tiles_merge_pairwise() {
    // [2, 2, 2, 2] moved Left becomes [4, 4, _, _] before the spawn:
    // two doubled tiles, never one 8.
    let mut b = board_of(&[Some(2), Some(2), Some(2), Some(2)]);
    b.move_tile_content(Direction::Left, 1, 4);
    assert_eq!(b.0[0].tilecontent, Some(4));
    assert_eq!(b.0[1].tilecontent, Some(4));
    let spawned = match (b.0[2].tilecontent, b.0[3].tilecontent) {
        (Some(v), None) | (None, Some(v)) => is_seed(Some(v)),
        _ => false,
    };
    assert!(spawned);
}

#[test]
fn noop_move_spawns_nothing() {
    // Already packed left with no equal neighbours: the move changes
    // nothing and no tile spawns.
    let before = [Some(2), Some(4), Some(2), Some(4)];
    let mut b = board_of(&before);
    b.move_tile_content(Direction::Left, 1, 4);
    assert_eq!(values(&b), before.to_vec());
}

#[test]
fn noop_move_up_spawns_nothing() {
    // Columns [2, 4] and [4, 2] are packed up with no pairs.
    let before = [Some(2), Some(4), Some(4), Some(2)];
    let mut b = board_of(&before);
    b.move_tile_content(Direction::Up, 2, 2);
    assert_eq!(values(&b), before.to_vec());
}

#[test]
fn move_right_merges_toward_right_edge() {
    // [2, 2, _, 4] slides right to [_, 2, 2, 4], the two 2s merge into
    // the cell nearer the edge, and the line compacts to [_, _, 4, 4].
    let mut b = board_of(&[Some(2), Some(2), None, Some(4)]);
    b.move_tile_content(Direction::Right, 1, 4);
    assert_eq!(b.0[2].tilecontent, Some(4));
    assert_eq!(b.0[3].tilecontent, Some(4));
    let spawned = match (b.0[0].tilecontent, b.0[1].tilecontent) {
        (Some(v), None) | (None, Some(v)) => is_seed(Some(v)),
        _ => false,
    };
    assert!(spawned);
}

#[test]
fn move_up_merges_columns() {
    // 2x2 board, rows [2, _] and [2, 4]: the left column merges to 4, the
    // right column slides its 4 up.
    let mut b = board_of(&[Some(2), None, Some(2), Some(4)]);
    b.move_tile_content(Direction::Up, 2, 2);
    assert_eq!(b.0[0].tilecontent, Some(4));
    assert_eq!(b.0[1].tilecontent, Some(4));
    let spawned = match (b.0[2].tilecontent, b.0[3].tilecontent) {
        (Some(v), None) | (None, Some(v)) => is_seed(Some(v)),
        _ => false,
    };
    assert!(spawned);
}

#[test]
fn move_down_merges_columns() {
    // 2x2 board, rows [2, 4] and [2, 4]: both columns merge downward.
    let mut b = board_of(&[Some(2), Some(4), Some(2), Some(4)]);
    b.move_tile_content(Direction::Down, 2, 2);
    assert_eq!(b.0[2].tilecontent, Some(4));
    assert_eq!(b.0[3].tilecontent, Some(8));
    let spawned = match (b.0[0].tilecontent, b.0[1].tilecontent) {
        (Some(v), None) | (None, Some(v)) => is_seed(Some(v)),
        _ => false,
    };
    assert!(spawned);
}

#[test]
fn merged_tile_does_not_merge_again() {
    // [4, 2, 2, _] moved Left: the 2s merge into a fresh 4, but that 4
    // does not combine with the leading 4 in the same move.
    let mut b = board_of(&[Some(4), Some(2), Some(2), None]);
    b.move_tile_content(Direction::Left, 1, 4);
    assert_eq!(b.0[0].tilecontent, Some(4));
    assert_eq!(b.0[1].tilecontent, Some(4));
    let spawned = match (b.0[2].tilecontent, b.0[3].tilecontent) {
        (Some(v), None) | (None, Some(v)) => is_seed(Some(v)),
        _ => false,
    };
    assert!(spawned);
}

#[test]
fn collapse_left_packs_rows_without_merging() {
    let mut b = board_of(&[
        None,
        Some(2),
        None,
        Some(2),
        Some(4),
        None,
        None,
        Some(4),
    ]);
    b.collapse_left(2, 4);
    assert_eq!(
        values(&b),
        vec![Some(2), Some(2), None, None, Some(4), Some(4), None, None]
    );
    for (k, t) in b.0.iter().enumerate() {
        assert_eq!(t.id, k);
    }
}

#[test]
fn collapse_left_keeps_packed_row() {
    let before = [Some(2), Some(2), Some(4), None];
    let mut b = board_of(&before);
    b.collapse_left(1, 4);
    assert_eq!(values(&b), before.to_vec());
}

#[test]
fn collapse_right_packs_toward_right() {
    let mut b = board_of(&[None, Some(2), None, Some(4)]);
    b.collapse_right(1, 4);
    assert_eq!(values(&b), vec![None, None, Some(2), Some(4)]);
}

#[test]
fn collapse_up_packs_columns() {
    // 2x2 board, rows [_, 2] and [4, 2].
    let mut b = board_of(&[None, Some(2), Some(4), Some(2)]);
    b.collapse_up(2, 2);
    assert_eq!(values(&b), vec![Some(4), Some(2), None, Some(2)]);
}

#[test]
fn collapse_down_packs_columns() {
    // 2x2 board, rows [2, 4] and [_, _].
    let mut b = board_of(&[Some(2), Some(4), None, None]);
    b.collapse_down(2, 2);
    assert_eq!(values(&b), vec![None, None, Some(2), Some(4)]);
}

#[test]
fn move_conserves_value_sum_before_spawn() {
    // The sum after a move is the sum before plus the one spawned seed.
    let before = [Some(2), Some(2), Some(4), None, Some(8), None, Some(8), Some(2)];
    let mut b = board_of(&before);
    let sum_before: usize = before.iter().flatten().sum();
    b.move_tile_content(Direction::Left, 2, 4);
    let sum_after: usize = values(&b).into_iter().flatten().sum();
    assert!(sum_after == sum_before + 2 || sum_after == sum_before + 4);
}
