//! Cutting a maze into the grid: a depth-first walk from the origin that
//! opens a passage to a cell not yet visited wherever it can, and steps back
//! where it cannot.

use vstd::prelude::*;
use crate::grid::{
    adjacent, attaches, connects, grows_as_tree, in_grid, is_cycle, lemma_spanning_tree, origin,
    reached, reached_within, Passage, Position,
};
use crate::chance::choose_from;
use crate::maze::Maze;

verus! {

/// A cell of the grid while the maze is being cut.
#[derive(Clone, Copy, Debug)]
pub struct GridCell {
    /// Column and row of the cell.
    pub position: Position,
    /// Whether the walk has been here. It has no meaning once the maze is
    /// complete.
    pub visited: bool,
}

/// Why no maze can be cut into a grid of the size asked for.
#[derive(Clone, Copy, Debug, PartialEq, Eq, Structural)]
pub enum MazeError {
    /// The grid has no cell.
    EmptyGrid,
    /// The grid has more cells than this machine can address.
    TooLarge,
}

/// The place of a cell in the row-by-row list of all cells.
pub open spec fn slot(size: nat, p: Position) -> int {
    p.1 * size + p.0
}

/// How many cells of the list are marked as visited.
pub open spec fn visited_count(cells: Seq<GridCell>) -> nat
    decreases cells.len(),
{
    if cells.len() == 0 {
        0
    } else {
        visited_count(cells.drop_last()) + if cells.last().visited {
            1nat
        } else {
            0nat
        }
    }
}

/// The cell `to` alone if `inside` holds and no passage has reached it,
/// nothing otherwise.
pub open spec fn fresh_if(passages: Seq<Passage>, inside: bool, to: Position) -> Seq<Position> {
    if inside && !reached(passages, to) {
        seq![to]
    } else {
        Seq::empty()
    }
}

/// The cells to which a passage can be opened from `p`: its neighbours
/// above, to the right, below and to the left, in this order, as far as they
/// lie in the grid and no passage has reached them.
pub open spec fn openings(size: nat, passages: Seq<Passage>, p: Position) -> Seq<Position> {
    fresh_if(passages, p.1 >= 1, (p.0, (p.1 - 1) as u32)) + fresh_if(
        passages,
        p.0 + 1 < size,
        ((p.0 + 1) as u32, p.1),
    ) + fresh_if(passages, p.1 + 1 < size, (p.0, (p.1 + 1) as u32)) + fresh_if(
        passages,
        p.0 >= 1,
        ((p.0 - 1) as u32, p.1),
    )
}

/// Every neighbour of `p` in the grid has been reached.
pub open spec fn settled(size: nat, passages: Seq<Passage>, p: Position) -> bool {
    forall|q: Position| in_grid(size, q) && #[trigger] adjacent(p, q) ==> reached(passages, q)
}

/// The openings of a cell are exactly its neighbours in the grid that no
/// passage has reached.
pub proof fn lemma_openings(size: nat, passages: Seq<Passage>, p: Position, q: Position)
    requires
        in_grid(size, p),
        size <= u32::MAX,
    ensures
        openings(size, passages, p).contains(q) <==> in_grid(size, q) && adjacent(p, q) && !reached(
            passages,
            q,
        ),
{
    let up = fresh_if(passages, p.1 >= 1, (p.0, (p.1 - 1) as u32));
    let right = fresh_if(passages, p.0 + 1 < size, ((p.0 + 1) as u32, p.1));
    let down = fresh_if(passages, p.1 + 1 < size, (p.0, (p.1 + 1) as u32));
    let left = fresh_if(passages, p.0 >= 1, ((p.0 - 1) as u32, p.1));
    let all = openings(size, passages, p);
    assert(all =~= up + right + down + left);
    if in_grid(size, q) && adjacent(p, q) && !reached(passages, q) {
        if p.0 == q.0 && q.1 + 1 == p.1 {
            assert(up[0] == q);
            assert(all[0] == q);
        } else if p.1 == q.1 && p.0 + 1 == q.0 {
            assert(right[0] == q);
            assert(all[up.len() as int] == q);
        } else if p.0 == q.0 && p.1 + 1 == q.1 {
            assert(down[0] == q);
            assert(all[(up.len() + right.len()) as int] == q);
        } else {
            assert(left[0] == q);
            assert(all[(up.len() + right.len() + down.len()) as int] == q);
        }
    }
    if all.contains(q) {
        let i = choose|i: int| 0 <= i < all.len() && all[i] == q;
        if i < up.len() {
            assert(up[i] == q);
        } else if i < up.len() + right.len() {
            assert(right[i - up.len()] == q);
        } else if i < up.len() + right.len() + down.len() {
            assert(down[i - up.len() - right.len()] == q);
        } else {
            assert(left[i - up.len() - right.len() - down.len()] == q);
        }
    }
}

/// A cell of the grid has a place in the list of all cells.
pub proof fn lemma_slot_in_range(size: nat, p: Position)
    requires
        in_grid(size, p),
    ensures
        0 <= slot(size, p) < size * size,
{
    assert(p.1 * size + p.0 < size * size) by (nonlinear_arith)
        requires
            p.0 < size,
            p.1 < size,
    ;
    assert(0 <= p.1 * size) by (nonlinear_arith);
}

/// Two cells of the grid with the same place are the same cell.
pub proof fn lemma_slot_distinct(size: nat, p: Position, q: Position)
    requires
        in_grid(size, p),
        in_grid(size, q),
        slot(size, p) == slot(size, q),
    ensures
        p == q,
{
    let (px, py, qx, qy) = (p.0 as int, p.1 as int, q.0 as int, q.1 as int);
    let n = size as int;
    assert(py == qy) by (nonlinear_arith)
        requires
            0 <= px < n,
            0 <= qx < n,
            0 <= py,
            0 <= qy,
            py * n + px == qy * n + qx,
    ;
}

/// Marking one more cell as visited raises the count by one.
pub proof fn lemma_count_after_mark(cells: Seq<GridCell>, i: int, marked: GridCell)
    requires
        0 <= i < cells.len(),
        !cells[i].visited,
        marked.visited,
    ensures
        visited_count(cells.update(i, marked)) == visited_count(cells) + 1,
    decreases cells.len(),
{
    let after = cells.update(i, marked);
    if i == cells.len() - 1 {
        assert(after.drop_last() =~= cells.drop_last());
    } else {
        assert(after.drop_last() =~= cells.drop_last().update(i, marked));
        lemma_count_after_mark(cells.drop_last(), i, marked);
    }
}

/// No more cells are visited than there are; where all are, the count is
/// their number, and where none is, it is zero.
pub proof fn lemma_count_range(cells: Seq<GridCell>)
    ensures
        visited_count(cells) <= cells.len(),
        (forall|i: int| 0 <= i < cells.len() ==> (#[trigger] cells[i]).visited) ==> visited_count(cells)
            == cells.len(),
        (forall|i: int| 0 <= i < cells.len() ==> !(#[trigger] cells[i]).visited) ==> visited_count(
            cells,
        ) == 0,
    decreases cells.len(),
{
    if cells.len() > 0 {
        let front = cells.drop_last();
        lemma_count_range(front);
        if forall|i: int| 0 <= i < cells.len() ==> (#[trigger] cells[i]).visited {
            assert forall|i: int| 0 <= i < front.len() implies (#[trigger] front[i]).visited by {
                assert(cells[i].visited);
            }
        }
        if forall|i: int| 0 <= i < cells.len() ==> !(#[trigger] cells[i]).visited {
            assert forall|i: int| 0 <= i < front.len() implies !(#[trigger] front[i]).visited by {
                assert(!cells[i].visited);
            }
        }
    }
}

/// One more passage reaches what was reached before, and its far end.
pub proof fn lemma_reached_after_push(passages: Seq<Passage>, passage: Passage, p: Position)
    ensures
        reached(passages.push(passage), p) <==> reached(passages, p) || p == passage.1,
{
    let more = passages.push(passage);
    if reached(passages, p) && p != origin() {
        let j = choose|j: int|
            0 <= j < passages.len() && j < passages.len() && (#[trigger] passages[j]).1 == p;
        assert(more[j].1 == p);
    }
    if p == passage.1 {
        assert(more[passages.len() as int].1 == p);
    }
    if reached(more, p) && p != origin() {
        let j = choose|j: int| 0 <= j < more.len() && j < more.len() && (#[trigger] more[j]).1 == p;
        if j < passages.len() {
            assert(passages[j].1 == p);
        }
    }
}

/// One more passage at the end changes nothing in what the first `k`
/// reach.
pub proof fn lemma_reached_within_after_push(
    passages: Seq<Passage>,
    passage: Passage,
    k: int,
    p: Position,
)
    requires
        k <= passages.len(),
    ensures
        reached_within(passages.push(passage), k, p) <==> reached_within(passages, k, p),
{
    let more = passages.push(passage);
    if reached_within(passages, k, p) && p != origin() {
        let j = choose|j: int| 0 <= j < k && j < passages.len() && (#[trigger] passages[j]).1 == p;
        assert(more[j].1 == p);
    }
    if reached_within(more, k, p) && p != origin() {
        let j = choose|j: int| 0 <= j < k && j < more.len() && (#[trigger] more[j]).1 == p;
        assert(passages[j].1 == p);
    }
}

/// Where every reached cell is settled, every cell of the grid is reached.
pub proof fn lemma_settled_reaches_all(size: nat, passages: Seq<Passage>, p: Position)
    requires
        in_grid(size, p),
        forall|q: Position|
            in_grid(size, q) && #[trigger] reached(passages, q) ==> settled(size, passages, q),
    ensures
        reached(passages, p),
    decreases p.0 + p.1,
{
    if p != origin() {
        if p.0 > 0 {
            let q: Position = ((p.0 - 1) as u32, p.1);
            lemma_settled_reaches_all(size, passages, q);
            assert(settled(size, passages, q));
            assert(adjacent(q, p));
        } else {
            let q: Position = (p.0, (p.1 - 1) as u32);
            lemma_settled_reaches_all(size, passages, q);
            assert(settled(size, passages, q));
            assert(adjacent(q, p));
        }
    }
}

/// The state of the walk that cuts a maze.
#[derive(Debug)]
pub struct Carver {
    size: u32,
    cells: Vec<GridCell>,
    trail: Vec<Position>,
    passages: Vec<Passage>,
}

/// What the walk has done so far: the passages it has opened, in order, and
/// the cells from the origin to where it stands, the last of them being the
/// cell it stands on.
pub struct CarverView {
    pub size: nat,
    pub passages: Seq<Passage>,
    pub trail: Seq<Position>,
}

impl View for Carver {
    type V = CarverView;

    closed spec fn view(&self) -> CarverView {
        CarverView { size: self.size as nat, passages: self.passages@, trail: self.trail@ }
    }
}

/// The cell at place `i` of the list lies in the grid, at that place.
pub open spec fn in_place(size: nat, cell: GridCell, i: int) -> bool {
    in_grid(size, cell.position) && slot(size, cell.position) == i
}

impl Carver {
    /// The list of cells holds each cell of the grid at its place, marked
    /// as visited exactly where a passage has reached it.
    pub closed spec fn cells_agree(&self) -> bool {
        &&& self.cells@.len() == self.size * self.size
        &&& forall|i: int|
            0 <= i < self.cells@.len() ==> in_place(self.size as nat, #[trigger] self.cells@[i], i)
        &&& forall|i: int|
            0 <= i < self.cells@.len() ==> ((#[trigger] self.cells@[i]).visited <==> reached(
                self.passages@,
                self.cells@[i].position,
            ))
        &&& visited_count(self.cells@) == self.passages@.len() + 1
    }

    /// The passages opened so far form a tree, the trail runs over reached
    /// cells, and every reached cell that is off the trail is settled.
    pub closed spec fn wf(&self) -> bool {
        &&& self.size >= 1
        &&& self.cells_agree()
        &&& grows_as_tree(self.size as nat, self.passages@)
        &&& forall|i: int|
            0 <= i < self.trail@.len() ==> in_grid(self.size as nat, #[trigger] self.trail@[i])
                && reached(self.passages@, self.trail@[i])
        &&& forall|p: Position|
            in_grid(self.size as nat, p) && #[trigger] reached(self.passages@, p)
                ==> self.trail@.contains(p) || settled(self.size as nat, self.passages@, p)
    }

    /// While the walk goes on, fewer passages are open than the grid has
    /// cells.
    pub proof fn lemma_passages_bounded(&self)
        requires
            self.wf(),
        ensures
            self@.size >= 1,
            self@.passages.len() + 1 <= self@.size * self@.size,
            grows_as_tree(self@.size, self@.passages),
    {
        lemma_count_range(self.cells@);
    }

    /// The walk before its first step: it stands on the origin, and no
    /// passage is open.
    pub fn new(size: u32) -> (made: Result<Carver, MazeError>)
        ensures
            (made matches Err(MazeError::EmptyGrid)) <==> size == 0,
            (made matches Err(MazeError::TooLarge)) <==> size > 0 && size * size > usize::MAX,
            made matches Ok(carver) ==> carver.wf() && carver@ == (CarverView {
                size: size as nat,
                passages: Seq::empty(),
                trail: seq![origin()],
            }),
    {
        if size == 0 {
            return Err(MazeError::EmptyGrid);
        }
        let side: usize = size as usize;
        let total: usize = match side.checked_mul(side) {
            Some(total) => total,
            None => {
                return Err(MazeError::TooLarge);
            },
        };
        let mut cells: Vec<GridCell> = Vec::new();
        let mut y: u32 = 0;
        while y < size
            invariant
                y <= size,
                cells@.len() == y * size,
                forall|i: int|
                    0 <= i < cells@.len() ==> in_place(size as nat, #[trigger] cells@[i], i)
                        && !cells@[i].visited,
            decreases size - y,
        {
            let mut x: u32 = 0;
            while x < size
                invariant
                    y < size,
                    x <= size,
                    cells@.len() == y * size + x,
                    forall|i: int|
                        0 <= i < cells@.len() ==> in_place(size as nat, #[trigger] cells@[i], i)
                            && !cells@[i].visited,
                decreases size - x,
            {
                cells.push(GridCell { position: (x, y), visited: false });
                x += 1;
            }
            proof {
                assert(y * size + size == (y + 1) * size) by (nonlinear_arith);
            }
            y += 1;
        }
        proof {
            assert(size * size >= 1) by (nonlinear_arith)
                requires
                    size >= 1,
            ;
            lemma_count_range(cells@);
            lemma_count_after_mark(cells@, 0, GridCell { position: (0u32, 0u32), visited: true });
        }
        let ghost before = cells@;
        cells.set(0, GridCell { position: (0, 0), visited: true });
        let mut trail: Vec<Position> = Vec::new();
        trail.push((0, 0));
        let carver = Carver { size, cells, trail, passages: Vec::new() };
        proof {
            let none = Seq::<Passage>::empty();
            assert(carver.passages@ =~= none);
            assert(carver.trail@ =~= seq![origin()]);
            assert(forall|p: Position| reached(none, p) <==> p == origin());
            assert forall|i: int| 0 <= i < carver.cells@.len() implies in_place(
                size as nat,
                #[trigger] carver.cells@[i],
                i,
            ) by {
                assert(in_place(size as nat, before[i], i));
            }
            assert forall|i: int| 0 <= i < carver.cells@.len() implies ((
                #[trigger] carver.cells@[i]).visited <==> reached(none, carver.cells@[i].position)) by {
                assert(in_place(size as nat, before[i], i));
            }
            assert(carver.trail@[0] == origin());
            assert(carver.cells_agree());
            assert(carver.wf());
        }
        Ok(carver)
    }

    /// Whether the walk has come to its end: it has stepped back behind
    /// the origin.
    pub fn is_done(&self) -> (done: bool)
        ensures
            done == (self@.trail.len() == 0),
    {
        self.trail.len() == 0
    }

    /// The place in the list of the cell at position `p`.
    fn place(&self, p: Position) -> (i: usize)
        requires
            self.wf(),
            in_grid(self.size as nat, p),
        ensures
            i == slot(self.size as nat, p),
            i < self.cells@.len(),
            self.cells@[i as int].position == p,
            self.cells@[i as int].visited <==> reached(self.passages@, p),
    {
        proof {
            self.lemma_cell_at(p);
            assert(0 <= (p.1 as int) * (self.size as int)) by (nonlinear_arith);
            assert((p.1 as int) * (self.size as int) + (p.0 as int) == slot(self.size as nat, p));
            assert(self.cells@.len() == self.cells.len());
        }
        (p.1 as usize) * (self.size as usize) + (p.0 as usize)
    }

    /// The cell alone if it has not been visited, nothing otherwise.
    fn unvisited(&self, to: Position) -> (found: Vec<Position>)
        requires
            self.wf(),
            in_grid(self.size as nat, to),
        ensures
            found@ == fresh_if(self.passages@, true, to),
    {
        let mut found: Vec<Position> = Vec::new();
        let i = self.place(to);
        if !self.cells[i].visited {
            found.push(to);
        }
        assert(found@ =~= fresh_if(self.passages@, true, to));
        found
    }

    /// The cells to which the walk can go on from where it stands.
    pub fn candidates(&self) -> (options: Vec<Position>)
        requires
            self.wf(),
            self@.trail.len() > 0,
        ensures
            options@ == openings(self@.size, self@.passages, self@.trail.last()),
    {
        let (x, y) = self.trail[self.trail.len() - 1];
        assert(in_grid(self.size as nat, self.trail@[self.trail@.len() - 1]));
        let mut options: Vec<Position> = Vec::new();
        if y >= 1 {
            let mut up = self.unvisited((x, y - 1));
            options.append(&mut up);
        }
        if x + 1 < self.size {
            let mut right = self.unvisited((x + 1, y));
            options.append(&mut right);
        }
        if y + 1 < self.size {
            let mut down = self.unvisited((x, y + 1));
            options.append(&mut down);
        }
        if x >= 1 {
            let mut left = self.unvisited((x - 1, y));
            options.append(&mut left);
        }
        assert(options@ =~= openings(self@.size, self@.passages, self@.trail.last()));
        options
    }

    /// One step of the walk. With a cell chosen among the candidates, a
    /// passage is opened from where the walk stands to that cell, and the
    /// walk stands there. With none, which is the choice to make when there
    /// is no candidate, the walk steps back along its trail.
    pub fn advance(&mut self, choice: Option<Position>)
        requires
            old(self).wf(),
            old(self)@.trail.len() > 0,
            match choice {
                Some(next) => openings(
                    old(self)@.size,
                    old(self)@.passages,
                    old(self)@.trail.last(),
                ).contains(next),
                None => openings(
                    old(self)@.size,
                    old(self)@.passages,
                    old(self)@.trail.last(),
                ).len() == 0,
            },
        ensures
            final(self).wf(),
            final(self)@.size == old(self)@.size,
            match choice {
                Some(next) => {
                    &&& final(self)@.passages == old(self)@.passages.push(
                        (old(self)@.trail.last(), next),
                    )
                    &&& final(self)@.trail == old(self)@.trail.push(next)
                },
                None => {
                    &&& final(self)@.passages == old(self)@.passages
                    &&& final(self)@.trail == old(self)@.trail.drop_last()
                },
            },
    {
        let ghost size = self.size as nat;
        let ghost passages = self.passages@;
        let ghost trail = self.trail@;
        let ghost cells = self.cells@;
        let here: Position = self.trail[self.trail.len() - 1];
        assert(in_grid(size, trail[trail.len() - 1]));
        match choice {
            Some(next) => {
                proof {
                    lemma_openings(size, passages, here, next);
                }
                let i = self.place(next);
                let marked = GridCell { position: next, visited: true };
                self.cells.set(i, marked);
                self.passages.push((here, next));
                self.trail.push(next);
                proof {
                    let more = passages.push((here, next));
                    assert(self.passages@ == more);
                    lemma_count_after_mark(cells, i as int, marked);
                    assert forall|p: Position| reached(more, p) <==> reached(passages, p) || p
                        == next by {
                        lemma_reached_after_push(passages, (here, next), p);
                    }
                    assert forall|n: int| 0 <= n < self.cells@.len() implies in_place(
                        size,
                        #[trigger] self.cells@[n],
                        n,
                    ) by {
                        assert(in_place(size, cells[n], n));
                    }
                    assert forall|n: int| 0 <= n < self.cells@.len() implies ((
                        #[trigger] self.cells@[n]).visited <==> reached(more, self.cells@[n].position)) by {
                        assert(in_place(size, cells[n], n));
                        if n != i {
                            assert(self.cells@[n] == cells[n]);
                        }
                    }
                    assert(self.cells_agree());
                    assert forall|k: int| 0 <= k < more.len() implies #[trigger] attaches(
                        size,
                        more,
                        k,
                    ) by {
                        if k < passages.len() {
                            assert(attaches(size, passages, k));
                            lemma_reached_within_after_push(passages, (here, next), k, passages[k].0);
                            lemma_reached_within_after_push(passages, (here, next), k, passages[k].1);
                        } else {
                            lemma_reached_within_after_push(passages, (here, next), k, here);
                            lemma_reached_within_after_push(passages, (here, next), k, next);
                        }
                    }
                    assert forall|n: int| 0 <= n < self.trail@.len() implies in_grid(
                        size,
                        #[trigger] self.trail@[n],
                    ) && reached(more, self.trail@[n]) by {
                        if n < trail.len() {
                            assert(self.trail@[n] == trail[n]);
                        }
                    }
                    assert forall|p: Position| in_grid(size, p) && #[trigger] reached(
                        more,
                        p,
                    ) implies self.trail@.contains(p) || settled(size, more, p) by {
                        if p == next {
                            assert(self.trail@[trail.len() as int] == p);
                        } else if trail.contains(p) {
                            let n = choose|n: int| 0 <= n < trail.len() && trail[n] == p;
                            assert(self.trail@[n] == p);
                        } else {
                            assert(settled(size, passages, p));
                        }
                    }
                }
            },
            None => {
                self.trail.pop();
                proof {
                    assert forall|p: Position| in_grid(size, p) && #[trigger] reached(
                        passages,
                        p,
                    ) implies self.trail@.contains(p) || settled(size, passages, p) by {
                        if p == here {
                            assert forall|q: Position| in_grid(size, q) && #[trigger] adjacent(
                                p,
                                q,
                            ) implies reached(passages, q) by {
                                lemma_openings(size, passages, here, q);
                                if !reached(passages, q) {
                                    let all = openings(size, passages, here);
                                    let n = choose|n: int| 0 <= n < all.len() && all[n] == q;
                                }
                            }
                        } else if trail.contains(p) {
                            let n = choose|n: int| 0 <= n < trail.len() && trail[n] == p;
                            assert(self.trail@[n] == p);
                        }
                    }
                    assert forall|n: int| 0 <= n < self.trail@.len() implies in_grid(
                        size,
                        #[trigger] self.trail@[n],
                    ) && reached(passages, self.trail@[n]) by {
                        assert(self.trail@[n] == trail[n]);
                    }
                    assert(self.cells_agree());
                }
            },
        }
    }

    /// The maze that the walk has cut, once it has come to its end.
    pub fn finish(self) -> (maze: Maze)
        requires
            self.wf(),
            self@.trail.len() == 0,
        ensures
            maze.wf(),
            maze@.size == self@.size,
            maze@.passages == self@.passages,
    {
        proof {
            let size = self.size as nat;
            let passages = self.passages@;
            assert forall|p: Position| in_grid(size, p) implies #[trigger] reached(passages, p) by {
                lemma_settled_reaches_all(size, passages, p);
            }
            assert forall|i: int| 0 <= i < self.cells@.len() implies (
            #[trigger] self.cells@[i]).visited by {
                assert(in_place(size, self.cells@[i], i));
            }
            lemma_count_range(self.cells@);
        }
        Maze::from_tree(self.size, self.passages)
    }

    /// The cell of the grid at position `p` stands at its place in the
    /// list.
    proof fn lemma_cell_at(&self, p: Position)
        requires
            self.wf(),
            in_grid(self.size as nat, p),
        ensures
            0 <= slot(self.size as nat, p) < self.cells@.len(),
            self.cells@[slot(self.size as nat, p)].position == p,
            self.cells@[slot(self.size as nat, p)].visited <==> reached(self.passages@, p),
    {
        let size = self.size as nat;
        lemma_slot_in_range(size, p);
        let i = slot(size, p);
        assert(in_place(size, self.cells@[i], i));
        lemma_slot_distinct(size, p, self.cells@[i].position);
    }
}

/// Cuts a maze into a grid of `size` columns and `size` rows by a
/// depth-first walk from the origin that chooses at random among the cells
/// it can go on to. No maze is cut into a grid without cells, nor into one
/// with more cells than the machine can address.
pub fn generate(size: u32) -> (made: Result<Maze, MazeError>)
    ensures
        (made matches Err(MazeError::EmptyGrid)) <==> size == 0,
        (made matches Err(MazeError::TooLarge)) <==> size > 0 && size * size > usize::MAX,
        made matches Ok(maze) ==> {
            &&& maze.wf()
            &&& maze@.size == size
            &&& maze@.passages.len() == size * size - 1
            &&& forall|from: Position, to: Position|
                in_grid(size as nat, from) && in_grid(size as nat, to) ==> #[trigger] connects(
                    maze@.passages,
                    from,
                    to,
                )
            &&& forall|walk: Seq<Position>| !#[trigger] is_cycle(maze@.passages, walk)
        },
{
    let mut carver = match Carver::new(size) {
        Ok(carver) => carver,
        Err(error) => {
            return Err(error);
        },
    };
    while !carver.is_done()
        invariant
            carver.wf(),
            carver@.size == size,
        decreases size * size - carver@.passages.len(), carver@.trail.len(),
    {
        proof {
            carver.lemma_passages_bounded();
        }
        let options = carver.candidates();
        let choice = choose_from(&options);
        carver.advance(choice);
        proof {
            carver.lemma_passages_bounded();
        }
    }
    let maze = carver.finish();
    proof {
        lemma_spanning_tree(maze@.size, maze@.passages);
    }
    Ok(maze)
}

} // verus!
