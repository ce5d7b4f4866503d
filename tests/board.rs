use fractal_tictactoe::board::{Board, Element, State};
use fractal_tictactoe::pick::CELL_UNITS;

const C: i64 = CELL_UNITS;

#[test]
fn nested_zero_is_plain_empty_board() {
    let b = Board::nested(0);
    assert_eq!(b.elements.len(), 9);
    for x in 0..3 {
        for y in 0..3 {
            assert_eq!(b.cell_at(&vec![(x, y)]), Some(None));
        }
    }
}

#[test]
fn default_board_matches_nested_zero() {
    let b = Board::default();
    assert_eq!(b.elements.len(), 9);
    assert!(b.elements.iter().all(|e| matches!(e, Element::State(None))));
    assert!(b.fits_depth(0));
}

#[test]
fn nested_one_has_boards_in_every_cell() {
    let b = Board::nested(1);
    assert!(b.elements.iter().all(|e| matches!(e, Element::Board(_))));
    assert_eq!(b.cell_at(&vec![(1, 1)]), None);
    assert_eq!(b.cell_at(&vec![(2, 0), (0, 2)]), Some(None));
}

#[test]
fn cell_at_rejects_bad_paths() {
    let b = Board::nested(0);
    assert_eq!(b.cell_at(&vec![]), None);
    assert_eq!(b.cell_at(&vec![(3, 0)]), None);
    assert_eq!(b.cell_at(&vec![(0, 3)]), None);
    assert_eq!(b.cell_at(&vec![(1, 1), (0, 0)]), None);
}

#[test]
fn fits_depth_counts_levels() {
    let b = Board::nested(2);
    assert!(!b.fits_depth(0));
    assert!(!b.fits_depth(1));
    assert!(b.fits_depth(2));
    assert!(b.fits_depth(7));
}

#[test]
fn mark_fills_an_empty_cell_once() {
    let mut b = Board::nested(1);
    let path = vec![(0, 1), (2, 2)];
    assert!(b.mark(&path, State::Cross));
    assert_eq!(b.cell_at(&path), Some(Some(State::Cross)));
    assert!(!b.mark(&path, State::Circle));
    assert_eq!(b.cell_at(&path), Some(Some(State::Cross)));
    assert_eq!(b.cell_at(&vec![(0, 1), (2, 1)]), Some(None));
}

#[test]
fn mark_ignores_paths_that_stop_at_a_board() {
    let mut b = Board::nested(1);
    assert!(!b.mark(&vec![(0, 1)], State::Cross));
    assert!(!b.mark(&vec![], State::Cross));
    assert!(b.fits_depth(1));
}

#[test]
fn state_names() {
    assert_eq!(State::Cross.name(), "Cross");
    assert_eq!(State::Circle.name(), "Circle");
}

#[test]
fn path_at_centre_of_plain_board() {
    let b = Board::nested(0);
    assert_eq!(b.path_at(3 * C / 2, 3 * C / 2), Some(vec![(1, 1)]));
    assert_eq!(b.path_at(0, 0), Some(vec![(0, 0)]));
    assert_eq!(b.path_at(3 * C, 3 * C), Some(vec![(2, 2)]));
}

#[test]
fn path_at_descends_into_nested_boards() {
    let b = Board::nested(1);
    assert_eq!(b.path_at(C / 2, 5 * C / 2), Some(vec![(0, 2), (1, 1)]));
    let deep = Board::nested(2);
    assert_eq!(deep.path_at(C / 2, 5 * C / 2), Some(vec![(0, 2), (1, 1), (1, 1)]));
}

#[test]
fn path_at_shared_line_picks_lower_cell() {
    let b = Board::nested(1);
    assert_eq!(b.path_at(C, C), Some(vec![(0, 0), (2, 2)]));
    assert_eq!(b.path_at(2 * C, 0), Some(vec![(1, 0), (2, 0)]));
}

#[test]
fn path_at_off_board_is_none() {
    let b = Board::nested(1);
    assert_eq!(b.path_at(-1, C), None);
    assert_eq!(b.path_at(C, -1), None);
    assert_eq!(b.path_at(3 * C + 1, C), None);
    assert_eq!(b.path_at(C, 3 * C + 1), None);
}

#[test]
fn click_marks_the_innermost_cell() {
    let mut b = Board::nested(1);
    assert!(b.click(C / 2, 5 * C / 2, State::Circle));
    assert_eq!(b.cell_at(&vec![(0, 2), (1, 1)]), Some(Some(State::Circle)));
    assert_eq!(b.cell_at(&vec![(0, 2), (1, 0)]), Some(None));
}

#[test]
fn click_twice_marks_once() {
    let mut b = Board::nested(1);
    assert!(b.click(C / 2, C / 2, State::Cross));
    assert!(!b.click(C / 2, C / 2, State::Circle));
    assert_eq!(b.cell_at(&vec![(0, 0), (1, 1)]), Some(Some(State::Cross)));
}

#[test]
fn click_keeps_other_marks() {
    let mut b = Board::nested(0);
    assert!(b.click(C / 2, C / 2, State::Cross));
    assert!(b.click(5 * C / 2, C / 2, State::Circle));
    assert_eq!(b.cell_at(&vec![(0, 0)]), Some(Some(State::Cross)));
    assert_eq!(b.cell_at(&vec![(2, 0)]), Some(Some(State::Circle)));
}

#[test]
fn click_off_board_changes_nothing() {
    let mut b = Board::nested(0);
    assert!(!b.click(-5, C, State::Cross));
    assert!(!b.click(C, 4 * C, State::Cross));
    for x in 0..3 {
        for y in 0..3 {
            assert_eq!(b.cell_at(&vec![(x, y)]), Some(None));
        }
    }
}

#[test]
fn point_inside_a_cell_is_found_in_it() {
    let b = Board::nested(1);
    let path = b.path_at(5 * C / 2, 3 * C / 2).unwrap();
    assert_eq!(path[0], (2, 1));
    assert_eq!(path, vec![(2, 1), (1, 1)]);
}
