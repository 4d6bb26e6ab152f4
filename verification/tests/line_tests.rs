use twenty48::line::{collapse_line_vals, merge_neighbouring};

#[test]
fn collapse_keeps_order_and_pads_with_empties() {
    let line = vec![None, Some(8), None, Some(2)];
    let out = collapse_line_vals(&line);
    assert_eq!(out, vec![Some(8), Some(2), None, None]);
}

#[test]
fn collapse_of_empty_line_is_empty() {
    let line: Vec<Option<usize>> = Vec::new();
    let out = collapse_line_vals(&line);
    assert!(out.is_empty());
}

#[test]
fn merge_combines_each_pair_once() {
    // Four equal values merge pairwise, in place, without chaining.
    let line = vec![Some(2), Some(2), Some(2), Some(2)];
    let out = merge_neighbouring(&line);
    assert_eq!(out, vec![Some(4), None, Some(4), None]);
}

#[test]
fn merge_skips_unequal_neighbours() {
    let line = vec![Some(2), Some(4), Some(2), Some(4)];
    let out = merge_neighbouring(&line);
    assert_eq!(out, line);
}

#[test]
fn merge_result_does_not_merge_again() {
    // The 4 produced by merging the 2s is not compared against the later 4.
    let line = vec![Some(2), Some(2), Some(4), None];
    let out = merge_neighbouring(&line);
    assert_eq!(out, vec![Some(4), None, Some(4), None]);
}

#[test]
fn merge_does_not_cross_gaps() {
    // Equal values separated by an empty cell stay apart: the walk tracks
    // the empty cell as the new previous.
    let line = vec![Some(2), None, Some(2), None];
    let out = merge_neighbouring(&line);
    assert_eq!(out, line);
}
