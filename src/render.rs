use vstd::prelude::*;
use crate::board::{Board, Element, State};

verus! {

/// The deepest nesting below the outermost board that `render_board` draws.
pub const MAX_DEPTH: u32 = 32;

/// What a primitive draws.
#[derive(Clone, Copy, Debug, PartialEq, Eq, Structural)]
pub enum Shape {
    /// A vertical grid line, as tall as the board it belongs to.
    GridColumn,
    /// A horizontal grid line, as wide as the board it belongs to.
    GridRow,
    /// The ring of a circle mark, as wide as its cell.
    Circle,
    /// The cross mark's bar turned by +45 degrees.
    CrossPositive,
    /// The cross mark's bar turned by -45 degrees.
    CrossNegative,
}

/// One shape to draw. Its centre lies `(x, y)` half-cells of its level away
/// from the centre of the outermost board, where a cell of level `level`
/// measures `1 / 3^level` of a cell of the outermost board; its size is that
/// of its level's cells.
#[derive(Clone, Copy, Debug, PartialEq, Eq, Structural)]
pub struct Primitive {
    pub shape: Shape,
    pub x: i64,
    pub y: i64,
    pub level: u32,
}

/// Three to the power `n`.
pub open spec fn pow3(n: nat) -> int
    decreases n,
{
    if n == 0 {
        1
    } else {
        3 * pow3((n - 1) as nat)
    }
}

pub open spec fn prim(shape: Shape, x: int, y: int, level: nat) -> Primitive {
    Primitive { shape, x: x as i64, y: y as i64, level: level as u32 }
}

/// The grid of a board centred at `(cx, cy)`: its four column lines from
/// left to right, then its four row lines from bottom to top, borders
/// included.
pub open spec fn grid_lines(cx: int, cy: int, level: nat) -> Seq<Primitive> {
    seq![
        prim(Shape::GridColumn, cx - 3, cy, level),
        prim(Shape::GridColumn, cx - 1, cy, level),
        prim(Shape::GridColumn, cx + 1, cy, level),
        prim(Shape::GridColumn, cx + 3, cy, level),
        prim(Shape::GridRow, cx, cy - 3, level),
        prim(Shape::GridRow, cx, cy - 1, level),
        prim(Shape::GridRow, cx, cy + 1, level),
        prim(Shape::GridRow, cx, cy + 3, level),
    ]
}

/// The shapes of a terminal cell centred at `(px, py)`: none when empty,
/// a ring for a circle, two crossed bars for a cross.
pub open spec fn mark_shapes(s: Option<State>, px: int, py: int, level: nat) -> Seq<Primitive> {
    match s {
        None => Seq::empty(),
        Some(State::Circle) => seq![prim(Shape::Circle, px, py, level)],
        Some(State::Cross) => seq![
            prim(Shape::CrossPositive, px, py, level),
            prim(Shape::CrossNegative, px, py, level),
        ],
    }
}

/// Centre of column (or row) `c` of a board centred at `cx`, in half-cells.
pub open spec fn cell_centre(cx: int, c: int) -> int {
    cx + 2 * (c - 1)
}

impl Board {
    /// Everything that draws this board, centred at `(cx, cy)` half-cells of
    /// level `level`: its grid, then the shapes of its elements column by
    /// column, each column from bottom to top. A nested board is drawn one
    /// level deeper, where its centre measures three times as many
    /// half-cells.
    pub open spec fn shapes(self, cx: int, cy: int, level: nat) -> Seq<Primitive>
        decreases self, 10int,
    {
        grid_lines(cx, cy, level) + self.cell_shapes(0, cx, cy, level)
    }

    /// The shapes of this board's elements from index `k` on.
    pub open spec fn cell_shapes(self, k: nat, cx: int, cy: int, level: nat) -> Seq<Primitive>
        decreases self, 9 - k,
    {
        if k >= 9 || k >= self.elements@.len() {
            Seq::empty()
        } else {
            let px = cell_centre(cx, (k / 3) as int);
            let py = cell_centre(cy, (k % 3) as int);
            let here = match self.elements@[k as int] {
                Element::State(s) => mark_shapes(s, px, py, level),
                Element::Board(b) => b.shapes(3 * px, 3 * py, level + 1),
            };
            here + self.cell_shapes(k + 1, cx, cy, level)
        }
    }
}

/// Appends to `out` everything that draws `board`, the outermost board,
/// centred at the origin, as `Board::shapes` lists it.
pub fn render_board(board: &Board, out: &mut Vec<Primitive>)
    requires
        board.wf(),
        board.depth() <= MAX_DEPTH,
    ensures
        final(out)@ == old(out)@ + board.shapes(0, 0, 0),
{
    push_board(board, 0, 0, 0, out);
}

fn push_board(board: &Board, cx: i64, cy: i64, level: u32, out: &mut Vec<Primitive>)
    requires
        board.wf(),
        level + board.depth() <= MAX_DEPTH,
        -(3 * pow3(level as nat) - 3) <= cx <= 3 * pow3(level as nat) - 3,
        -(3 * pow3(level as nat) - 3) <= cy <= 3 * pow3(level as nat) - 3,
    ensures
        final(out)@ == old(out)@ + board.shapes(cx as int, cy as int, level as nat),
    decreases board,
{
    proof {
        lemma_pow3_bound(level as nat);
    }
    out.push(Primitive { shape: Shape::GridColumn, x: cx - 3, y: cy, level });
    out.push(Primitive { shape: Shape::GridColumn, x: cx - 1, y: cy, level });
    out.push(Primitive { shape: Shape::GridColumn, x: cx + 1, y: cy, level });
    out.push(Primitive { shape: Shape::GridColumn, x: cx + 3, y: cy, level });
    out.push(Primitive { shape: Shape::GridRow, x: cx, y: cy - 3, level });
    out.push(Primitive { shape: Shape::GridRow, x: cx, y: cy - 1, level });
    out.push(Primitive { shape: Shape::GridRow, x: cx, y: cy + 1, level });
    out.push(Primitive { shape: Shape::GridRow, x: cx, y: cy + 3, level });
    let ghost total = old(out)@ + board.shapes(cx as int, cy as int, level as nat);
    proof {
        assert(out@ =~= old(out)@ + grid_lines(cx as int, cy as int, level as nat));
        assert(total =~= out@ + board.cell_shapes(0, cx as int, cy as int, level as nat));
    }
    let mut k: usize = 0;
    while k < 9
        invariant
            board.wf(),
            k <= 9,
            level + board.depth() <= MAX_DEPTH,
            -(3 * pow3(level as nat) - 3) <= cx <= 3 * pow3(level as nat) - 3,
            -(3 * pow3(level as nat) - 3) <= cy <= 3 * pow3(level as nat) - 3,
            pow3(level as nat) <= pow3(MAX_DEPTH as nat),
            pow3(MAX_DEPTH as nat) == 1853020188851841,
            total == out@ + board.cell_shapes(k as nat, cx as int, cy as int, level as nat),
        decreases 9 - k,
    {
        let px = cx + 2 * ((k / 3) as i64) - 2;
        let py = cy + 2 * ((k % 3) as i64) - 2;
        let ghost before = out@;
        let ghost rest = board.cell_shapes((k + 1) as nat, cx as int, cy as int, level as nat);
        match &board.elements[k] {
            Element::State(None) => {},
            Element::State(Some(State::Circle)) => {
                out.push(Primitive { shape: Shape::Circle, x: px, y: py, level });
            },
            Element::State(Some(State::Cross)) => {
                out.push(Primitive { shape: Shape::CrossPositive, x: px, y: py, level });
                out.push(Primitive { shape: Shape::CrossNegative, x: px, y: py, level });
            },
            Element::Board(b) => {
                proof {
                    lemma_depth_from_covers(*board, 0, k as nat);
                    lemma_pow3_bound((level + 1) as nat);
                }
                push_board(b, 3 * px, 3 * py, level + 1, out);
            },
        }
        proof {
            let here = out@.subrange(before.len() as int, out@.len() as int);
            assert(out@ =~= before + here);
            assert(board.cell_shapes(k as nat, cx as int, cy as int, level as nat) =~= here + rest);
            assert(total =~= out@ + rest);
        }
        k = k + 1;
    }
}

/// Three to a power of at most `MAX_DEPTH` stays below `3^MAX_DEPTH`.
proof fn lemma_pow3_bound(n: nat)
    requires
        n <= MAX_DEPTH,
    ensures
        1 <= pow3(n) <= pow3(MAX_DEPTH as nat),
        pow3(MAX_DEPTH as nat) == 1853020188851841,
    decreases MAX_DEPTH - n,
{
    reveal_with_fuel(pow3, 33);
    if n < MAX_DEPTH {
        lemma_pow3_bound(n + 1);
    }
}

/// The depth of a board over its elements from `k` on is at least the
/// height of each of them.
proof fn lemma_depth_from_covers(b: Board, k: nat, j: nat)
    requires
        b.elements@.len() == 9,
        k <= j < 9,
    ensures
        b.depth_from(k) >= Board::height(b.elements@[j as int]),
    decreases j - k,
{
    if k < j {
        lemma_depth_from_covers(b, k + 1, j);
    }
}

} // verus!
