use vstd::prelude::*;
use crate::board::{Board, Element, State, step_index, valid_path, valid_step, marked};

verus! {

/// The side of one cell of the outermost board, in point units. A point is
/// given by its distance from the outermost board's lower left corner, so
/// that board covers `0 ..= 3 * CELL_UNITS` on each axis.
pub const CELL_UNITS: i64 = 1099511627776;

/// The point lies on the board: inside it or on its border.
pub open spec fn on_board(u: int, v: int) -> bool {
    0 <= u <= 3 * CELL_UNITS && 0 <= v <= 3 * CELL_UNITS
}

/// The column (or row) whose closed span `[c * CELL_UNITS, (c + 1) * CELL_UNITS]`
/// holds `u`; on a line shared by two cells, the lower one.
pub open spec fn axis_cell(u: int) -> usize {
    if u <= CELL_UNITS {
        0
    } else if u <= 2 * CELL_UNITS {
        1
    } else {
        2
    }
}

/// Where `u` falls inside the cell `axis_cell(u)`, scaled up by 3 so that the
/// cell's nested board again covers `0 ..= 3 * CELL_UNITS`.
pub open spec fn inner_coord(u: int) -> int {
    3 * (u - axis_cell(u) * CELL_UNITS)
}

impl Board {
    /// The steps from this board down to the innermost terminal cell under
    /// the point `(u, v)`, which lies on the board.
    pub open spec fn path_under(self, u: int, v: int) -> Seq<(usize, usize)>
        decreases self,
    {
        let step = (axis_cell(u), axis_cell(v));
        if self.elements@.len() != 9 {
            Seq::empty()
        } else {
            match self.elements@[step_index(step)] {
                Element::State(_) => seq![step],
                Element::Board(b) => seq![step] + b.path_under(inner_coord(u), inner_coord(v)),
            }
        }
    }
}

/// A click at `(u, v)` marks a cell of `b`: the point lies on the board and
/// the innermost terminal cell under it is empty.
pub open spec fn click_marks(b: Board, u: int, v: int) -> bool {
    on_board(u, v) && b.cell(b.path_under(u, v)) == Some(None::<State>)
}

impl Board {
    /// The steps down to the innermost terminal cell under the point
    /// `(u, v)`, or `None` where the point lies off the board.
    pub fn path_at(&self, u: i64, v: i64) -> (r: Option<Vec<(usize, usize)>>)
        requires
            self.wf(),
        ensures
            r is None <==> !on_board(u as int, v as int),
            r matches Some(p) ==> p@ == self.path_under(u as int, v as int),
    {
        if u < 0 || u > 3 * CELL_UNITS || v < 0 || v > 3 * CELL_UNITS {
            return None;
        }
        let mut path: Vec<(usize, usize)> = Vec::new();
        self.path_into(u, v, &mut path);
        proof {
            assert(path@ =~= self.path_under(u as int, v as int));
        }
        Some(path)
    }

    fn path_into(&self, u: i64, v: i64, path: &mut Vec<(usize, usize)>)
        requires
            self.wf(),
            on_board(u as int, v as int),
        ensures
            final(path)@ == old(path)@ + self.path_under(u as int, v as int),
        decreases self,
    {
        let x = axis_index(u);
        let y = axis_index(v);
        path.push((x, y));
        match &self.elements[3 * x + y] {
            Element::State(_) => {
                assert(path@ =~= old(path)@ + self.path_under(u as int, v as int));
            },
            Element::Board(b) => {
                b.path_into(3 * (u - (x as i64) * CELL_UNITS), 3 * (v - (y as i64) * CELL_UNITS), path);
                assert(path@ =~= old(path)@ + self.path_under(u as int, v as int));
            },
        }
    }

    /// Marks the innermost terminal cell under the point `(u, v)` with
    /// `turn`, where the point lies on the board and that cell is empty;
    /// returns whether it did.
    pub fn click(&mut self, u: i64, v: i64, turn: State) -> (r: bool)
        requires
            old(self).wf(),
        ensures
            r == click_marks(*old(self), u as int, v as int),
            r ==> marked(*old(self), *final(self), old(self).path_under(u as int, v as int), turn),
            !r ==> *final(self) == *old(self),
    {
        match self.path_at(u, v) {
            Some(path) => self.mark(&path, turn),
            None => false,
        }
    }
}

/// The column (or row) under the coordinate `u`, as `axis_cell` states.
fn axis_index(u: i64) -> (r: usize)
    requires
        0 <= u <= 3 * CELL_UNITS,
    ensures
        r == axis_cell(u as int),
{
    if u <= CELL_UNITS {
        0
    } else if u <= 2 * CELL_UNITS {
        1
    } else {
        2
    }
}

/// A point strictly inside the span of column `x` and row `y` is found in
/// that cell: hit-testing takes that step first, and goes on from where the
/// point lies inside the cell.
pub proof fn lemma_point_in_cell(b: Board, x: usize, y: usize, u: int, v: int)
    requires
        b.wf(),
        x < 3,
        y < 3,
        x * CELL_UNITS < u < (x + 1) * CELL_UNITS,
        y * CELL_UNITS < v < (y + 1) * CELL_UNITS,
    ensures
        on_board(u, v),
        b.path_under(u, v).len() > 0,
        b.path_under(u, v)[0] == (x, y),
        inner_coord(u) == 3 * (u - x * CELL_UNITS),
        inner_coord(v) == 3 * (v - y * CELL_UNITS),
{
    assert(axis_cell(u) == x);
    assert(axis_cell(v) == y);
}

/// The path under a point on a board leads through valid steps to a
/// terminal cell: hit-testing always ends at the innermost cell.
pub proof fn lemma_path_under_reaches_cell(b: Board, u: int, v: int)
    requires
        b.wf(),
        on_board(u, v),
    ensures
        valid_path(b.path_under(u, v)),
        b.cell(b.path_under(u, v)) is Some,
    decreases b,
{
    let step = (axis_cell(u), axis_cell(v));
    let p = b.path_under(u, v);
    assert(valid_step(step));
    match b.elements@[step_index(step)] {
        Element::State(_) => {
            assert(valid_path(p));
        },
        Element::Board(c) => {
            assert(b.elements@[step_index(step)] matches Element::Board(_));
            lemma_path_under_reaches_cell(*c, inner_coord(u), inner_coord(v));
            assert(p.drop_first() =~= c.path_under(inner_coord(u), inner_coord(v)));
            assert(valid_path(p)) by {
                assert forall|i: int| 0 <= i < p.len() implies valid_step(#[trigger] p[i]) by {
                    if i > 0 {
                        assert(p[i] == p.drop_first()[i - 1]);
                    }
                }
            }
        },
    }
}

/// Two boards that hold terminal cells at the same paths, but for `p` where
/// both hold one, lead a point to the same innermost cell.
proof fn lemma_path_under_same(a: Board, b: Board, p: Seq<(usize, usize)>, u: int, v: int)
    requires
        a.wf(),
        b.wf(),
        on_board(u, v),
        a.path_under(u, v) == p,
        a.cell(p) is Some,
        b.cell(p) is Some,
        forall|q: Seq<(usize, usize)>| q != p ==> #[trigger] a.cell(q) == b.cell(q),
    ensures
        b.path_under(u, v) == p,
    decreases a,
{
    let step = (axis_cell(u), axis_cell(v));
    let k = step_index(step);
    let one = seq![step];
    assert(one.drop_first() =~= Seq::<(usize, usize)>::empty());
    assert(p[0] == step);
    match a.elements@[k] {
        Element::State(_) => {
            assert(p =~= one);
            match b.elements@[k] {
                Element::State(_) => {
                    assert(b.path_under(u, v) =~= one);
                },
                Element::Board(d) => {
                    assert(p.drop_first() =~= Seq::<(usize, usize)>::empty());
                    assert(d.cell(p.drop_first()) is None);
                },
            }
        },
        Element::Board(c) => {
            let rest = c.path_under(inner_coord(u), inner_coord(v));
            assert(p.drop_first() =~= rest);
            assert(one != p) by {
                assert(one.len() != p.len());
            }
            assert(a.cell(one) == b.cell(one));
            match b.elements@[k] {
                Element::State(_) => {
                    assert(b.cell(one) is Some);
                },
                Element::Board(d) => {
                    assert forall|q: Seq<(usize, usize)>| q != rest implies #[trigger] c.cell(q) == d.cell(q) by {
                        let full = one + q;
                        assert(full[0] == step);
                        assert(full.drop_first() =~= q);
                        if full == p {
                            assert(full.drop_first() == p.drop_first());
                        }
                        assert(a.cell(full) == b.cell(full));
                    }
                    lemma_path_under_same(*c, *d, rest, inner_coord(u), inner_coord(v));
                    assert(b.path_under(u, v) =~= one + rest);
                },
            }
        },
    }
}

/// A cell marks once: after a click at `(u, v)` has marked a cell, a second
/// click at the same point finds that same cell, now holding the mark, and
/// marks nothing.
pub proof fn lemma_click_marks_once(before: Board, after: Board, u: int, v: int, turn: State)
    requires
        before.wf(),
        click_marks(before, u, v),
        marked(before, after, before.path_under(u, v), turn),
    ensures
        after.path_under(u, v) == before.path_under(u, v),
        after.cell(after.path_under(u, v)) == Some(Some(turn)),
        !click_marks(after, u, v),
{
    let p = before.path_under(u, v);
    assert(after.cell(p) == Some(Some(turn)));
    lemma_path_under_same(before, after, p, u, v);
}

/// A mark stays: a click that marks one cell leaves every other cell as it
/// was, so no mark is ever removed or changed.
pub proof fn lemma_click_keeps_marks(before: Board, after: Board, u: int, v: int, turn: State, q: Seq<(usize, usize)>)
    requires
        click_marks(before, u, v),
        marked(before, after, before.path_under(u, v), turn),
        before.cell(q) matches Some(Some(_)),
    ensures
        after.cell(q) == before.cell(q),
{
    assert(after.cell(q) == before.cell(q));
}

/// On a board whose terminal cells all lie `depth + 1` steps down, as on one
/// that `Board::nested(depth)` built and clicks then marked, hit-testing
/// takes exactly `depth + 1` steps.
pub proof fn lemma_path_length(b: Board, depth: nat, u: int, v: int)
    requires
        b.wf(),
        on_board(u, v),
        forall|q: Seq<(usize, usize)>| (#[trigger] b.cell(q) is Some) == (valid_path(q) && q.len() == depth + 1),
    ensures
        b.path_under(u, v).len() == depth + 1,
{
    lemma_path_under_reaches_cell(b, u, v);
    assert(b.cell(b.path_under(u, v)) is Some);
}

} // verus!
