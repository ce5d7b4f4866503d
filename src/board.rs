use vstd::prelude::*;

verus! {

/// A player's mark.
#[derive(Clone, Copy, Debug, PartialEq, Eq, Structural)]
pub enum State {
    Cross,
    Circle,
}

/// One cell of a board: a terminal cell, empty or marked, or a nested board.
#[derive(Debug)]
pub enum Element {
    State(Option<State>),
    Board(Box<Board>),
}

/// A 3x3 grid of elements, stored column by column: the element in column
/// `x` and row `y` sits at index `3 * x + y`.
#[derive(Debug)]
pub struct Board {
    pub elements: Vec<Element>,
}

/// A step of a path through nested boards: a column and a row, each below 3.
pub open spec fn valid_step(step: (usize, usize)) -> bool {
    step.0 < 3 && step.1 < 3
}

/// Index of a column and row in `Board::elements`.
pub open spec fn step_index(step: (usize, usize)) -> int {
    3 * step.0 + step.1
}

/// Every step of `path` stays inside the grid.
pub open spec fn valid_path(path: Seq<(usize, usize)>) -> bool {
    forall|i: int| 0 <= i < path.len() ==> valid_step(#[trigger] path[i])
}

/// The cells of a complete board of the given depth: every valid path of
/// `depth + 1` steps ends at an empty terminal cell, and no other path ends at
/// a terminal cell.
pub open spec fn blank_cell(depth: nat, path: Seq<(usize, usize)>) -> Option<Option<State>> {
    if valid_path(path) && path.len() == depth + 1 {
        Some(None)
    } else {
        None
    }
}

impl State {
    /// The mark's name.
    pub fn name(&self) -> (r: &'static str)
        ensures
            *self == State::Cross ==> r@ == "Cross"@,
            *self == State::Circle ==> r@ == "Circle"@,
    {
        proof {
            reveal_strlit("Cross");
            reveal_strlit("Circle");
        }
        match self {
            State::Cross => "Cross",
            State::Circle => "Circle",
        }
    }
}

impl Element {
    /// Every board below this element has nine elements.
    pub open spec fn wf(self) -> bool {
        match self {
            Element::State(_) => true,
            Element::Board(b) => b.wf(),
        }
    }
}

impl Board {
    /// This board and every board nested in it have nine elements.
    pub open spec fn wf(self) -> bool
        decreases self,
    {
        &&& self.elements@.len() == 9
        &&& forall|k: int|
            0 <= k < 9 ==> match #[trigger] self.elements@[k] {
                Element::State(_) => true,
                Element::Board(b) => b.wf(),
            }
    }

    /// The number of nesting levels below this board, counted over its
    /// elements from index `k` on: 0 where no element from `k` on is a board.
    pub open spec fn depth_from(self, k: nat) -> nat
        decreases self, 9 - k,
    {
        if k >= 9 || k >= self.elements@.len() {
            0
        } else {
            let here: nat = match self.elements@[k as int] {
                Element::State(_) => 0,
                Element::Board(b) => 1 + b.depth_from(0),
            };
            let rest = self.depth_from(k + 1);
            if here >= rest {
                here
            } else {
                rest
            }
        }
    }

    /// The number of nesting levels below this board: 0 for a board of
    /// terminal cells only.
    pub open spec fn depth(self) -> nat {
        self.depth_from(0)
    }

    /// An element's share of the depth of the board holding it.
    pub open spec fn height(e: Element) -> nat {
        match e {
            Element::State(_) => 0,
            Element::Board(b) => 1 + b.depth(),
        }
    }

    /// What lies at the end of `path`, followed from this board: `Some` of
    /// the terminal cell's contents where the path ends exactly at a terminal
    /// cell, `None` where it stops at a board, runs past a terminal cell or
    /// takes a step out of the grid.
    pub open spec fn cell(self, path: Seq<(usize, usize)>) -> Option<Option<State>>
        decreases path.len(),
    {
        if path.len() == 0 || !valid_step(path[0]) || self.elements@.len() != 9 {
            None
        } else {
            match self.elements@[step_index(path[0])] {
                Element::State(s) => if path.len() == 1 {
                    Some(s)
                } else {
                    None
                },
                Element::Board(b) => b.cell(path.drop_first()),
            }
        }
    }
}

impl Board {
    /// A complete board with `depth` levels of boards below it, every
    /// terminal cell empty. `Board::nested(0)` is a plain 3x3 board.
    pub fn nested(depth: u32) -> (r: Board)
        ensures
            r.wf(),
            r.depth() == depth,
            forall|q: Seq<(usize, usize)>| #[trigger] r.cell(q) == blank_cell(depth as nat, q),
        decreases depth,
    {
        let mut elements: Vec<Element> = Vec::new();
        let mut k: usize = 0;
        while k < 9
            invariant
                k <= 9,
                elements@.len() == k,
                forall|j: int| 0 <= j < k ==> #[trigger] blank_element(elements@[j], depth as nat),
            decreases 9 - k,
        {
            if depth == 0 {
                elements.push(Element::State(None));
            } else {
                let child = Board::nested(depth - 1);
                elements.push(Element::Board(Box::new(child)));
            }
            k = k + 1;
        }
        let r = Board { elements };
        proof {
            assert forall|j: int| 0 <= j < 9 implies r.elements@[j].wf() && Board::height(
                #[trigger] r.elements@[j],
            ) == depth by {
                assert(blank_element(r.elements@[j], depth as nat));
            }
            lemma_depth_from_each(r, 0, depth as nat);
            assert forall|q: Seq<(usize, usize)>| #[trigger] r.cell(q) == blank_cell(depth as nat, q) by {
                if q.len() > 0 {
                    lemma_valid_path_first(q);
                    if valid_step(q[0]) {
                        let e = r.elements@[step_index(q[0])];
                        assert(blank_element(e, depth as nat));
                        if depth > 0 {
                            let b = e->Board_0;
                            assert(b.cell(q.drop_first()) == blank_cell((depth - 1) as nat, q.drop_first()));
                        }
                    }
                }
            }
        }
        r
    }

    /// The contents of the terminal cell at the end of `path`, as `cell`
    /// states.
    pub fn cell_at(&self, path: &Vec<(usize, usize)>) -> (r: Option<Option<State>>)
        requires
            self.wf(),
        ensures
            r == self.cell(path@),
    {
        proof {
            assert(path@.skip(0) =~= path@);
        }
        self.cell_from(path, 0)
    }

    fn cell_from(&self, path: &Vec<(usize, usize)>, i: usize) -> (r: Option<Option<State>>)
        requires
            self.wf(),
            i <= path@.len(),
        ensures
            r == self.cell(path@.skip(i as int)),
        decreases path@.len() - i,
    {
        if i >= path.len() {
            return None;
        }
        let (x, y) = path[i];
        if x >= 3 || y >= 3 {
            return None;
        }
        proof {
            lemma_skip_next(path@, i as int);
        }
        match &self.elements[3 * x + y] {
            Element::State(s) => if i + 1 == path.len() {
                Some(*s)
            } else {
                None
            },
            Element::Board(b) => {
                assert(self.elements@[3 * x + y].wf());
                b.cell_from(path, i + 1)
            },
        }
    }
}

impl Board {
    /// Marks the terminal cell at the end of `path` with `turn`, where that
    /// cell is empty; returns whether it did. A marked cell keeps its mark.
    pub fn mark(&mut self, path: &Vec<(usize, usize)>, turn: State) -> (r: bool)
        requires
            old(self).wf(),
        ensures
            r == (old(self).cell(path@) == Some(None::<State>)),
            r ==> marked(*old(self), *final(self), path@, turn),
            !r ==> *final(self) == *old(self),
    {
        if path.len() == 0 {
            return false;
        }
        match self.cell_at(path) {
            Some(None) => {
                proof {
                    assert(path@.skip(0) =~= path@);
                }
                self.set_from(path, 0, turn);
                true
            },
            _ => false,
        }
    }

    /// Sets the terminal cell at the end of `path@.skip(i)` to `turn`.
    fn set_from(&mut self, path: &Vec<(usize, usize)>, i: usize, turn: State)
        requires
            old(self).wf(),
            i < path@.len(),
            old(self).cell(path@.skip(i as int)) is Some,
        ensures
            marked(*old(self), *final(self), path@.skip(i as int), turn),
        decreases path@.len() - i,
    {
        let n = path.len();
        proof {
            lemma_skip_next(path@, i as int);
        }
        let ghost before = *self;
        let (x, y) = path[i];
        assert(valid_step(path@.skip(i as int)[0]));
        let k: usize = 3 * x + y;
        let e = self.elements.remove(k);
        let ne = match e {
            Element::State(_) => Element::State(Some(turn)),
            Element::Board(b) => {
                let mut inner = *b;
                inner.set_from(path, i + 1, turn);
                Element::Board(Box::new(inner))
            },
        };
        self.elements.insert(k, ne);
        proof {
            let after = *self;
            let p = path@.skip(i as int);
            assert(after.elements@ =~= before.elements@.update(k as int, ne));
            assert forall|j: int| 0 <= j < 9 implies Board::height(#[trigger] after.elements@[j])
                == Board::height(before.elements@[j]) by {}
            lemma_depth_from_same(before, after, 0);
            assert forall|q: Seq<(usize, usize)>| #[trigger] after.cell(q) == if q == p {
                Some(Some(turn))
            } else {
                before.cell(q)
            } by {
                if q.len() > 0 && valid_step(q[0]) && step_index(q[0]) == k {
                    assert(q[0].0 == p[0].0 && q[0].1 == p[0].1);
                    assert(q[0] == p[0]);
                    if q.len() == 1 && p.len() == 1 {
                        assert(q =~= p);
                    }
                    if q.drop_first() == p.drop_first() {
                        lemma_same_first_and_rest(q, p);
                    }
                    match before.elements@[k as int] {
                        Element::State(_) => {
                            assert(p.len() == 1);
                        },
                        Element::Board(ob) => {
                            let nb = ne->Board_0;
                            assert(p.drop_first() == path@.skip(i + 1));
                            assert(nb.cell(q.drop_first()) == if q.drop_first() == p.drop_first() {
                                Some(Some(turn))
                            } else {
                                ob.cell(q.drop_first())
                            });
                        },
                    }
                } else {
                    assert(q != p);
                }
            }
        }
    }
}

/// `after` is `before` with the terminal cell at the end of `path` set to
/// `turn`: the same nesting, the same depth, and the same contents at every
/// other path.
pub open spec fn marked(before: Board, after: Board, path: Seq<(usize, usize)>, turn: State) -> bool {
    &&& after.wf()
    &&& after.depth() == before.depth()
    &&& forall|q: Seq<(usize, usize)>| #[trigger]
        after.cell(q) == if q == path {
            Some(Some(turn))
        } else {
            before.cell(q)
        }
}

/// Two non-empty sequences with the same first item and the same rest are
/// equal.
proof fn lemma_same_first_and_rest(q: Seq<(usize, usize)>, p: Seq<(usize, usize)>)
    requires
        q.len() > 0,
        p.len() > 0,
        q[0] == p[0],
        q.drop_first() == p.drop_first(),
    ensures
        q == p,
{
    assert(q.len() == q.drop_first().len() + 1);
    assert(p.len() == p.drop_first().len() + 1);
    assert forall|j: int| 0 <= j < q.len() implies q[j] == p[j] by {
        if j > 0 {
            assert(q[j] == q.drop_first()[j - 1]);
            assert(p[j] == p.drop_first()[j - 1]);
        }
    }
    assert(q =~= p);
}

/// Two boards whose elements have the same heights have the same depth over
/// them.
proof fn lemma_depth_from_same(a: Board, b: Board, k: nat)
    requires
        a.elements@.len() == 9,
        b.elements@.len() == 9,
        forall|j: int| 0 <= j < 9 ==> Board::height(#[trigger] a.elements@[j]) == Board::height(b.elements@[j]),
    ensures
        a.depth_from(k) == b.depth_from(k),
    decreases 9 - k,
{
    if k < 9 {
        assert(Board::height(a.elements@[k as int]) == Board::height(b.elements@[k as int]));
        lemma_depth_from_same(a, b, k + 1);
    }
}

impl Default for Board {
    /// A plain 3x3 board of empty terminal cells.
    fn default() -> (r: Board)
        ensures
            r.wf(),
            r.depth() == 0,
            forall|q: Seq<(usize, usize)>| #[trigger] r.cell(q) == blank_cell(0, q),
    {
        Board::nested(0)
    }
}

impl Board {
    /// Whether this board has at most `max` levels of boards below it.
    pub fn fits_depth(&self, max: u32) -> (r: bool)
        requires
            self.wf(),
        ensures
            r == (self.depth() <= max),
        decreases self,
    {
        let mut k: usize = 0;
        while k < 9
            invariant
                self.wf(),
                k <= 9,
                forall|j: int| 0 <= j < k ==> Board::height(#[trigger] self.elements@[j]) <= max,
            decreases 9 - k,
        {
            match &self.elements[k] {
                Element::State(_) => {},
                Element::Board(b) => {
                    if max == 0 || !b.fits_depth(max - 1) {
                        proof {
                            lemma_depth_from_bound(*self, 0, max as nat);
                        }
                        return false;
                    }
                },
            }
            k = k + 1;
        }
        proof {
            lemma_depth_from_bound(*self, 0, max as nat);
        }
        true
    }
}

/// The depth of a board over its elements from `k` on is at most `m`
/// exactly when each of those elements has height at most `m`.
proof fn lemma_depth_from_bound(b: Board, k: nat, m: nat)
    requires
        b.elements@.len() == 9,
        k <= 9,
    ensures
        (b.depth_from(k) <= m) == (forall|j: int| k <= j < 9 ==> Board::height(#[trigger] b.elements@[j]) <= m),
    decreases 9 - k,
{
    if k < 9 {
        lemma_depth_from_bound(b, k + 1, m);
        assert(Board::height(b.elements@[k as int]) == match b.elements@[k as int] {
            Element::State(_) => 0,
            Element::Board(c) => 1 + c.depth_from(0),
        });
        if b.depth_from(k) <= m {
            assert forall|j: int| k <= j < 9 implies Board::height(#[trigger] b.elements@[j]) <= m by {
                if j > k {
                    assert(Board::height(b.elements@[j]) <= m);
                }
            }
        }
    }
}

/// `e` is what `Board::nested(depth)` puts in each of its nine places.
pub open spec fn blank_element(e: Element, depth: nat) -> bool {
    if depth == 0 {
        e == Element::State(None)
    } else {
        match e {
            Element::State(_) => false,
            Element::Board(b) => {
                &&& b.wf()
                &&& b.depth() == depth - 1
                &&& forall|q: Seq<(usize, usize)>| #[trigger] b.cell(q) == blank_cell((depth - 1) as nat, q)
            },
        }
    }
}

proof fn lemma_valid_path_first(q: Seq<(usize, usize)>)
    requires
        q.len() > 0,
    ensures
        valid_path(q) == (valid_step(q[0]) && valid_path(q.drop_first())),
{
    if valid_step(q[0]) && valid_path(q.drop_first()) {
        assert forall|i: int| 0 <= i < q.len() implies valid_step(#[trigger] q[i]) by {
            if i > 0 {
                assert(q[i] == q.drop_first()[i - 1]);
            }
        }
    }
    if valid_path(q) {
        assert forall|i: int| 0 <= i < q.len() - 1 implies valid_step(#[trigger] q.drop_first()[i]) by {
            assert(q.drop_first()[i] == q[i + 1]);
        }
    }
}

proof fn lemma_skip_next(p: Seq<(usize, usize)>, i: int)
    requires
        0 <= i < p.len(),
    ensures
        p.skip(i).len() > 0,
        p.skip(i)[0] == p[i],
        p.skip(i).drop_first() == p.skip(i + 1),
{
    assert(p.skip(i).drop_first() =~= p.skip(i + 1));
}

/// A board whose elements from `k` on all have height `d` has depth `d`
/// over them.
proof fn lemma_depth_from_each(b: Board, k: nat, d: nat)
    requires
        b.elements@.len() == 9,
        k <= 9,
        forall|j: int| k <= j < 9 ==> Board::height(#[trigger] b.elements@[j]) == d,
    ensures
        b.depth_from(k) == if k < 9 {
            d
        } else {
            0
        },
    decreases 9 - k,
{
    if k < 9 {
        assert(Board::height(b.elements@[k as int]) == d);
        lemma_depth_from_each(b, k + 1, d);
    }
}

} // verus!
