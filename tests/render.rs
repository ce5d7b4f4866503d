use fractal_tictactoe::board::{Board, State};
use fractal_tictactoe::pick::CELL_UNITS;
use fractal_tictactoe::render::{render_board, Primitive, Shape, MAX_DEPTH};

const C: i64 = CELL_UNITS;

fn p(shape: Shape, x: i64, y: i64, level: u32) -> Primitive {
    Primitive { shape, x, y, level }
}

fn grid(cx: i64, cy: i64, level: u32) -> Vec<Primitive> {
    vec![
        p(Shape::GridColumn, cx - 3, cy, level),
        p(Shape::GridColumn, cx - 1, cy, level),
        p(Shape::GridColumn, cx + 1, cy, level),
        p(Shape::GridColumn, cx + 3, cy, level),
        p(Shape::GridRow, cx, cy - 3, level),
        p(Shape::GridRow, cx, cy - 1, level),
        p(Shape::GridRow, cx, cy + 1, level),
        p(Shape::GridRow, cx, cy + 3, level),
    ]
}

#[test]
fn empty_board_draws_its_grid() {
    let b = Board::nested(0);
    let mut out = Vec::new();
    render_board(&b, &mut out);
    assert_eq!(out, grid(0, 0, 0));
}

#[test]
fn render_appends_to_what_is_there() {
    let b = Board::nested(0);
    let first = p(Shape::Circle, 7, 7, 3);
    let mut out = vec![first];
    render_board(&b, &mut out);
    assert_eq!(out.len(), 9);
    assert_eq!(out[0], first);
    assert_eq!(out[1..].to_vec(), grid(0, 0, 0));
}

#[test]
fn marks_draw_at_their_cell_centres() {
    let mut b = Board::nested(0);
    assert!(b.click(3 * C / 2, 3 * C / 2, State::Circle));
    assert!(b.click(C / 2, 5 * C / 2, State::Cross));
    let mut out = Vec::new();
    render_board(&b, &mut out);
    let mut expected = grid(0, 0, 0);
    expected.push(p(Shape::CrossPositive, -2, 2, 0));
    expected.push(p(Shape::CrossNegative, -2, 2, 0));
    expected.push(p(Shape::Circle, 0, 0, 0));
    assert_eq!(out, expected);
}

#[test]
fn nested_boards_draw_one_level_deeper() {
    let b = Board::nested(1);
    let mut out = Vec::new();
    render_board(&b, &mut out);
    assert_eq!(out.len(), 80);
    assert_eq!(out[..8].to_vec(), grid(0, 0, 0));
    assert_eq!(out[8..16].to_vec(), grid(-6, -6, 1));
    assert_eq!(out[16..24].to_vec(), grid(-6, 0, 1));
    assert_eq!(out[72..80].to_vec(), grid(6, 6, 1));
}

#[test]
fn nested_mark_draws_in_its_sub_board() {
    let mut b = Board::nested(1);
    assert!(b.click(C / 2, 5 * C / 2, State::Cross));
    let mut out = Vec::new();
    render_board(&b, &mut out);
    assert_eq!(out.len(), 82);
    assert_eq!(out[24..32].to_vec(), grid(-6, 6, 1));
    assert_eq!(out[32], p(Shape::CrossPositive, -6, 6, 1));
    assert_eq!(out[33], p(Shape::CrossNegative, -6, 6, 1));
}

#[test]
fn deepest_board_fits() {
    let b = Board::nested(2);
    assert!(b.fits_depth(MAX_DEPTH));
    let mut out = Vec::new();
    render_board(&b, &mut out);
    assert_eq!(out.len(), 8 + 9 * (8 + 9 * 8));
    assert_eq!(out[16..24].to_vec(), grid(-24, -24, 2));
}
