//! A finished maze: a spanning tree of open passages over a square grid,
//! the way through it between two cells, and that way written as
//! directions.

use vstd::prelude::*;
use vstd::set_lib::{lemma_int_range, lemma_len_subset, set_int_range};
use crate::grid::{
    connects, in_grid, is_cycle, is_path, is_path_between, is_walk, joins, lemma_ends_reached,
    lemma_spanning_tree, lemma_tree_connected, lemma_tree_path_shortest, lemma_tree_path_unique,
    lemma_walk_reversed, linked, linked_within, origin, reached, spanning_tree, walk_within,
    Passage, Position,
};
use crate::text::{reversed, text_of};

verus! {

/// A maze over a grid of `size` columns and `size` rows.
#[derive(Debug)]
pub struct Maze {
    size: u32,
    passages: Vec<Passage>,
}

/// What a maze is: the size of its grid and its open passages, in the order
/// in which they were opened.
pub struct MazeView {
    pub size: nat,
    pub passages: Seq<Passage>,
}

impl View for Maze {
    type V = MazeView;

    closed spec fn view(&self) -> MazeView {
        MazeView { size: self.size as nat, passages: self.passages@ }
    }
}

/// The width of a border where no passage is open.
pub const BORDER_WIDTH: u32 = 1;

/// The widths of the four borders of a cell.
#[derive(Clone, Copy, Debug, PartialEq, Eq, Structural)]
pub struct Borders {
    pub top: u32,
    pub right: u32,
    pub bottom: u32,
    pub left: u32,
}

/// The width of the border of `at` towards `to`: nothing where a passage is
/// open between them, the full width elsewhere. `exists` says whether there
/// is a cell `to` at all.
pub open spec fn border_towards(
    passages: Seq<Passage>,
    at: Position,
    exists: bool,
    to: Position,
) -> u32 {
    if exists && linked(passages, at, to) {
        0
    } else {
        BORDER_WIDTH
    }
}

/// The four borders of the cell `at`.
pub open spec fn borders_of(passages: Seq<Passage>, at: Position) -> Borders {
    Borders {
        top: border_towards(passages, at, at.1 >= 1, (at.0, (at.1 - 1) as u32)),
        right: border_towards(passages, at, at.0 < u32::MAX, ((at.0 + 1) as u32, at.1)),
        bottom: border_towards(passages, at, at.1 < u32::MAX, (at.0, (at.1 + 1) as u32)),
        left: border_towards(passages, at, at.0 >= 1, ((at.0 - 1) as u32, at.1)),
    }
}

/// The four ways to step from a cell to a neighbour.
#[derive(Clone, Copy, Debug, PartialEq, Eq, Structural)]
pub enum Direction {
    /// To the row above.
    Up,
    /// To the column on the right.
    Right,
    /// To the row below.
    Down,
    /// To the column on the left.
    Left,
}

/// The direction of the step from `from` to `to`: by column where the
/// columns differ, by row otherwise.
pub open spec fn heading(from: Position, to: Position) -> Direction {
    if from.0 < to.0 {
        Direction::Right
    } else if from.0 > to.0 {
        Direction::Left
    } else if from.1 < to.1 {
        Direction::Down
    } else {
        Direction::Up
    }
}

/// The letter that stands for a direction in a solution. The letters are
/// those of a legend that is shown with the maze: `R` is up, `D` is right,
/// `L` is down, `U` is left.
pub open spec fn symbol(direction: Direction) -> char {
    match direction {
        Direction::Up => 'R',
        Direction::Right => 'D',
        Direction::Down => 'L',
        Direction::Left => 'U',
    }
}

/// A way through the grid written as one letter per step.
pub open spec fn directions(way: Seq<Position>) -> Seq<char> {
    Seq::new(
        if way.len() == 0 {
            0nat
        } else {
            (way.len() - 1) as nat
        },
        |i: int| symbol(heading(way[i], way[i + 1])),
    )
}

/// Whether two positions are the same.
pub fn same(a: Position, b: Position) -> (equal: bool)
    ensures
        equal == (a == b),
{
    a.0 == b.0 && a.1 == b.1
}

/// Where in the list the position stands first, if it stands there.
pub fn place_in(list: &Vec<Position>, p: Position) -> (place: Option<usize>)
    ensures
        match place {
            Some(i) => {
                &&& i < list@.len()
                &&& list@[i as int] == p
                &&& forall|k: int| 0 <= k < i ==> list@[k] != p
            },
            None => !list@.contains(p),
        },
{
    let mut i: usize = 0;
    while i < list.len()
        invariant
            i <= list.len(),
            forall|k: int| 0 <= k < i ==> list@[k] != p,
        decreases list.len() - i,
    {
        if same(list[i], p) {
            return Some(i);
        }
        i += 1;
    }
    None
}

/// The direction of the step from `from` to `to`.
pub fn heading_of(from: Position, to: Position) -> (direction: Direction)
    ensures
        direction == heading(from, to),
{
    if from.0 < to.0 {
        Direction::Right
    } else if from.0 > to.0 {
        Direction::Left
    } else if from.1 < to.1 {
        Direction::Down
    } else {
        Direction::Up
    }
}

/// The letter that stands for a direction.
pub fn symbol_of(direction: Direction) -> (letter: char)
    ensures
        letter == symbol(direction),
{
    match direction {
        Direction::Up => 'R',
        Direction::Right => 'D',
        Direction::Down => 'L',
        Direction::Left => 'U',
    }
}

/// Writes a way through the grid as one letter per step.
pub fn encode(way: &Vec<Position>) -> (text: String)
    ensures
        text@ == directions(way@),
{
    let mut letters: Vec<char> = Vec::new();
    if way.len() >= 2 {
        let mut i: usize = 0;
        while i < way.len() - 1
            invariant
                way.len() >= 2,
                i <= way.len() - 1,
                letters@.len() == i,
                forall|k: int|
                    0 <= k < i ==> #[trigger] letters@[k] == symbol(heading(way@[k], way@[k + 1])),
            decreases way.len() - i,
        {
            letters.push(symbol_of(heading_of(way[i], way[i + 1])));
            i += 1;
        }
    }
    assert(letters@ =~= directions(way@));
    text_of(&letters)
}

/// Each of the first `upto` passages that ends in `p` has its other end
/// among the explored cells.
pub open spec fn expanded_upto(
    passages: Seq<Passage>,
    explored: Seq<Position>,
    p: Position,
    upto: int,
) -> bool {
    forall|e: int|
        0 <= e < upto && e < passages.len() ==> ((#[trigger] passages[e]).0 == p
            ==> explored.contains(passages[e].1)) && (passages[e].1 == p ==> explored.contains(
            passages[e].0,
        ))
}

/// Every cell linked to `p` is among the explored cells.
pub open spec fn expanded(passages: Seq<Passage>, explored: Seq<Position>, p: Position) -> bool {
    expanded_upto(passages, explored, p, passages.len() as int)
}

/// The place of a reached cell in the order in which the passages reach the
/// cells: none for the origin, one more than its passage's for any other.
pub open spec fn rank(passages: Seq<Passage>, p: Position) -> int {
    if p == origin() {
        0
    } else {
        1 + choose|j: int| 0 <= j < passages.len() && (#[trigger] passages[j]).1 == p
    }
}

/// What is expanded stays so when one more cell is explored.
pub proof fn lemma_expanded_after_push(
    passages: Seq<Passage>,
    explored: Seq<Position>,
    p: Position,
    upto: int,
    q: Position,
)
    requires
        expanded_upto(passages, explored, p, upto),
    ensures
        expanded_upto(passages, explored.push(q), p, upto),
{
    let more = explored.push(q);
    assert forall|x: Position| explored.contains(x) implies more.contains(x) by {
        let i = choose|i: int| 0 <= i < explored.len() && explored[i] == x;
        assert(more[i] == x);
    }
}

/// A list of distinct numbers below a bound is no longer than the bound.
pub proof fn lemma_distinct_below(numbers: Seq<int>, bound: int)
    requires
        0 <= bound,
        numbers.no_duplicates(),
        forall|i: int| 0 <= i < numbers.len() ==> 0 <= #[trigger] numbers[i] < bound,
    ensures
        numbers.len() <= bound,
{
    if numbers.len() > 0 {
        numbers.unique_seq_to_set();
        lemma_int_range(0, bound);
        assert(numbers.to_set().subset_of(set_int_range(0, bound))) by {
            assert forall|x: int| numbers.to_set().contains(x) implies set_int_range(
                0,
                bound,
            ).contains(x) by {
                let i = choose|i: int| 0 <= i < numbers.len() && numbers[i] == x;
                assert(0 <= numbers[i] < bound);
            }
        }
        lemma_len_subset(numbers.to_set(), set_int_range(0, bound));
    }
}

/// A list of distinct reached cells has at most one cell more than there
/// are passages.
pub proof fn lemma_explored_bounded(passages: Seq<Passage>, explored: Seq<Position>)
    requires
        explored.no_duplicates(),
        forall|i: int| 0 <= i < explored.len() ==> reached(passages, #[trigger] explored[i]),
    ensures
        explored.len() <= passages.len() + 1,
{
    let ranks = Seq::new(explored.len(), |i: int| rank(passages, explored[i]));
    assert forall|i: int| 0 <= i < ranks.len() implies 0 <= #[trigger] ranks[i] < passages.len()
        + 1 by {
        assert(reached(passages, explored[i]));
    }
    assert forall|i: int, j: int| 0 <= i < ranks.len() && 0 <= j < ranks.len() && i != j implies ranks[i]
        != ranks[j] by {
        assert(reached(passages, explored[i]));
        assert(reached(passages, explored[j]));
        assert(explored[i] != explored[j]);
    }
    lemma_distinct_below(ranks, passages.len() as int + 1);
}

/// A set of cells that holds the first cell of a walk, and with each of its
/// cells every cell linked to it, holds the last cell of the walk.
pub proof fn lemma_closed_holds_walk(
    passages: Seq<Passage>,
    explored: Seq<Position>,
    walk: Seq<Position>,
    upto: int,
)
    requires
        is_walk(passages, walk),
        explored.contains(walk.first()),
        forall|i: int| 0 <= i < explored.len() ==> expanded(passages, explored, #[trigger] explored[i]),
        0 <= upto < walk.len(),
    ensures
        explored.contains(walk[upto]),
    decreases upto,
{
    if upto > 0 {
        lemma_closed_holds_walk(passages, explored, walk, upto - 1);
        let p = walk[upto - 1];
        let q = walk[upto];
        let i = choose|i: int| 0 <= i < explored.len() && explored[i] == p;
        assert(expanded(passages, explored, explored[i]));
        assert(linked_within(passages, passages.len() as int, walk[upto - 1], walk[upto - 1 + 1]));
        let e = choose|e: int|
            0 <= e < passages.len() && e < passages.len() && joins(#[trigger] passages[e], p, q);
        assert(explored.contains(q));
    }
}

/// The explored cells are distinct, and each but the first was explored
/// from an earlier one to which a passage links it.
pub open spec fn traced(passages: Seq<Passage>, explored: Seq<Position>, parent: Seq<usize>) -> bool {
    &&& explored.len() >= 1
    &&& parent.len() == explored.len()
    &&& explored.no_duplicates()
    &&& forall|i: int|
        0 < i < explored.len() ==> (#[trigger] parent[i]) < i && linked(
            passages,
            explored[parent[i] as int],
            explored[i],
        )
}

impl Maze {
    /// The open passages form a spanning tree of the grid.
    pub open spec fn wf(&self) -> bool {
        spanning_tree(self@.size, self@.passages)
    }

    /// The maze with the given passages.
    pub(crate) fn from_tree(size: u32, passages: Vec<Passage>) -> (maze: Maze)
        requires
            spanning_tree(size as nat, passages@),
        ensures
            maze.wf(),
            maze@.size == size,
            maze@.passages == passages@,
    {
        Maze { size, passages }
    }

    /// The number of columns, which is also the number of rows.
    pub fn size(&self) -> (size: u32)
        ensures
            size == self@.size,
    {
        self.size
    }

    /// The open passages, in the order in which they were opened.
    pub fn passages(&self) -> (passages: &Vec<Passage>)
        ensures
            passages@ == self@.passages,
    {
        &self.passages
    }

    /// Whether a passage is open between the two cells.
    pub fn is_open(&self, a: Position, b: Position) -> (open: bool)
        ensures
            open == linked(self@.passages, a, b),
    {
        let mut e: usize = 0;
        while e < self.passages.len()
            invariant
                e <= self.passages.len(),
                forall|k: int| 0 <= k < e ==> !joins(#[trigger] self.passages@[k], a, b),
            decreases self.passages.len() - e,
        {
            let (from, to) = self.passages[e];
            if (same(from, a) && same(to, b)) || (same(from, b) && same(to, a)) {
                return true;
            }
            e += 1;
        }
        false
    }

    /// Explores the cells breadth first from `start`, along the open
    /// passages, and stops as soon as `goal` is among them. Returns the explored cells in
    /// the order of their discovery, for each the place of the cell from
    /// which it was discovered, and the place of `goal`.
    #[verifier::loop_isolation(false)]
    fn search(&self, start: Position, goal: Position) -> (found: (Vec<Position>, Vec<usize>, usize))
        requires
            self.wf(),
            in_grid(self@.size, start),
            in_grid(self@.size, goal),
        ensures
            traced(self@.passages, found.0@, found.1@),
            found.0@[0] == start,
            found.2 < found.0@.len(),
            found.0@[found.2 as int] == goal,
    {
        let ghost passages = self.passages@;
        let ghost size = self.size as nat;
        let mut explored: Vec<Position> = Vec::new();
        explored.push(start);
        let mut parent: Vec<usize> = Vec::new();
        parent.push(0);
        let mut head: usize = 0;
        let mut at_goal: Option<usize> = if same(start, goal) {
            Some(0)
        } else {
            None
        };
        let ghost way: Seq<Position>;
        proof {
            assert(reached(passages, start));
            assert(reached(passages, goal));
            way = lemma_tree_connected(size, passages, start, goal);
            if at_goal is None {
                assert forall|i: int| 0 <= i < explored@.len() implies explored@[i] != goal by {}
            }
        }
        while at_goal.is_none()
            invariant
                traced(passages, explored@, parent@),
                explored@[0] == start,
                forall|i: int| 0 <= i < explored@.len() ==> reached(passages, #[trigger] explored@[i]),
                head <= explored@.len(),
                forall|i: int|
                    0 <= i < head ==> expanded(passages, explored@, #[trigger] explored@[i]),
                match at_goal {
                    Some(g) => g < explored@.len() && explored@[g as int] == goal,
                    None => !explored@.contains(goal),
                },
            decreases
                    (if at_goal is None {
                        1int
                    } else {
                        0int
                    }),
                    passages.len() + 1 - head,
        {
            proof {
                lemma_explored_bounded(passages, explored@);
                if head == explored@.len() {
                    assert(explored@[0] == way.first());
                    lemma_closed_holds_walk(passages, explored@, way, way.len() - 1);
                }
            }
            let cell: Position = explored[head];
            let mut e: usize = 0;
            while e < self.passages.len() && at_goal.is_none()
                invariant
                    e <= passages.len(),
                    traced(passages, explored@, parent@),
                    explored@[0] == start,
                    forall|i: int|
                        0 <= i < explored@.len() ==> reached(passages, #[trigger] explored@[i]),
                    head < explored@.len(),
                    explored@[head as int] == cell,
                    forall|i: int|
                        0 <= i < head ==> expanded(passages, explored@, #[trigger] explored@[i]),
                    expanded_upto(passages, explored@, cell, e as int),
                    match at_goal {
                        Some(g) => g < explored@.len() && explored@[g as int] == goal,
                        None => !explored@.contains(goal),
                    },
                decreases passages.len() - e,
            {
                let (a, b) = self.passages[e];
                let next: Option<Position> = if same(a, cell) {
                    Some(b)
                } else if same(b, cell) {
                    Some(a)
                } else {
                    None
                };
                let ghost before = explored@;
                match next {
                    Some(n) => {
                        match place_in(&explored, n) {
                            Some(_) => {},
                            None => {
                                explored.push(n);
                                parent.push(head);
                                if same(n, goal) {
                                    at_goal = Some(explored.len() - 1);
                                }
                                proof {
                                    lemma_ends_reached(size, passages, e as int, passages.len() as int);
                                    assert(joins(passages[e as int], cell, n));
                                    assert forall|i: int| 0 <= i < head implies expanded(
                                        passages,
                                        explored@,
                                        #[trigger] explored@[i],
                                    ) by {
                                        assert(explored@[i] == before[i]);
                                        lemma_expanded_after_push(
                                            passages,
                                            before,
                                            before[i],
                                            passages.len() as int,
                                            n,
                                        );
                                    }
                                    lemma_expanded_after_push(passages, before, cell, e as int, n);
                                    assert(explored@[before.len() as int] == n);
                                    if at_goal is None {
                                        assert forall|i: int|
                                            0 <= i < explored@.len() implies explored@[i] != goal by {
                                            if i < before.len() {
                                                assert(before[i] == explored@[i]);
                                            }
                                        }
                                    }
                                }
                            },
                        }
                    },
                    None => {},
                }
                e += 1;
            }
            if at_goal.is_none() {
                assert(head < explored.len());
                head += 1;
            }
        }
        (explored, parent, at_goal.unwrap())
    }

    /// The way from the first explored cell to the one at place `last`,
    /// read off the places from which the cells were discovered.
    #[verifier::loop_isolation(false)]
    fn trace(&self, explored: &Vec<Position>, parent: &Vec<usize>, last: usize) -> (way: Vec<Position>)
        requires
            traced(self@.passages, explored@, parent@),
            last < explored@.len(),
        ensures
            is_path_between(self@.passages, way@, explored@[0], explored@[last as int]),
    {
        let ghost passages = self.passages@;
        let ghost k = passages.len() as int;
        let mut back: Vec<Position> = Vec::new();
        back.push(explored[last]);
        let mut at: usize = last;
        let ghost mut places: Seq<int> = seq![last as int];
        while at != 0
            invariant
                at < explored@.len(),
                back@.len() == places.len(),
                back@.len() >= 1,
                places[0] == last,
                places.last() == at,
                forall|i: int|
                    0 <= i < places.len() ==> 0 <= #[trigger] places[i] < explored@.len() && back@[i]
                        == explored@[places[i]],
                forall|i: int, j: int|
                    0 <= i < j < places.len() ==> #[trigger] places[i] > #[trigger] places[j],
                walk_within(passages, k, back@),
            decreases at,
        {
            let from: usize = parent[at];
            let ghost before = back@;
            let ghost places_before = places;
            back.push(explored[from]);
            proof {
                places = places.push(from as int);
                assert forall|i: int, j: int| 0 <= i < j < places.len() implies #[trigger] places[i]
                    > #[trigger] places[j] by {
                    if j == places.len() - 1 {
                        if i < places_before.len() - 1 {
                            assert(places_before[i] > places_before[places_before.len() - 1]);
                        }
                    } else {
                        assert(places_before[i] > places_before[j]);
                    }
                }
                assert forall|i: int| 0 <= i < back@.len() - 1 implies linked_within(
                    passages,
                    k,
                    #[trigger] back@[i],
                    back@[i + 1],
                ) by {
                    if i < before.len() - 1 {
                        assert(linked_within(passages, k, before[i], before[i + 1]));
                    } else {
                        let e = choose|e: int|
                            0 <= e < k && e < passages.len() && joins(
                                #[trigger] passages[e],
                                explored@[from as int],
                                explored@[at as int],
                            );
                        assert(joins(passages[e], back@[i], back@[i + 1]));
                    }
                }
            }
            at = from;
        }
        proof {
            assert forall|i: int, j: int| 0 <= i < back@.len() && 0 <= j < back@.len() && i != j implies back@[i]
                != back@[j] by {
                if i < j {
                    assert(places[i] > places[j]);
                } else {
                    assert(places[j] > places[i]);
                }
            }
            lemma_walk_reversed(passages, k, back@);
        }
        reversed(&back)
    }

    /// The way from `start` to `goal`: the cells to pass, both ends
    /// included, found by a breadth-first search along the open passages. It
    /// passes no cell twice, it is the only way between the two that passes
    /// none twice, and no walk between them has fewer steps.
    pub fn solve(&self, start: Position, goal: Position) -> (way: Vec<Position>)
        requires
            self.wf(),
            in_grid(self@.size, start),
            in_grid(self@.size, goal),
        ensures
            is_path_between(self@.passages, way@, start, goal),
            forall|other: Seq<Position>| #[trigger]
                is_path_between(self@.passages, other, start, goal) ==> other == way@,
            forall|walk: Seq<Position>|
                #[trigger] is_walk(self@.passages, walk) && walk.first() == start && walk.last()
                    == goal ==> way@.len() <= walk.len(),
    {
        let (explored, parent, last) = self.search(start, goal);
        let way = self.trace(&explored, &parent, last);
        proof {
            assert forall|other: Seq<Position>| #[trigger]
                is_path_between(self@.passages, other, start, goal) implies other == way@ by {
                self.lemma_way_unique(other, way@);
            }
            assert forall|walk: Seq<Position>|
                #[trigger] is_walk(self@.passages, walk) && walk.first() == start && walk.last()
                    == goal implies way@.len() <= walk.len() by {
                self.lemma_way_shortest(way@, walk);
            }
        }
        way
    }

    /// The way from `start` to `goal` as one letter per step.
    pub fn solution(&self, start: Position, goal: Position) -> (text: String)
        requires
            self.wf(),
            in_grid(self@.size, start),
            in_grid(self@.size, goal),
        ensures
            exists|way: Seq<Position>| #[trigger] is_path_between(self@.passages, way, start, goal),
            forall|way: Seq<Position>| #[trigger]
                is_path_between(self@.passages, way, start, goal) ==> text@ == directions(way),
    {
        let way = self.solve(start, goal);
        encode(&way)
    }

    /// A maze has one passage fewer than cells, there is a walk between any
    /// two of its cells, and it has no cycle.
    pub proof fn lemma_is_tree(&self)
        requires
            self.wf(),
        ensures
            self@.passages.len() == self@.size * self@.size - 1,
            forall|from: Position, to: Position|
                in_grid(self@.size, from) && in_grid(self@.size, to) ==> #[trigger] connects(
                    self@.passages,
                    from,
                    to,
                ),
            forall|walk: Seq<Position>| !#[trigger] is_cycle(self@.passages, walk),
    {
        lemma_spanning_tree(self@.size, self@.passages);
    }

    /// Between two cells of a maze there is only one way that passes no
    /// cell twice: any such way is the one that `solve` returns.
    pub proof fn lemma_way_unique(&self, way: Seq<Position>, other: Seq<Position>)
        requires
            self.wf(),
            is_path(self@.passages, way),
            is_path(self@.passages, other),
            way.first() == other.first(),
            way.last() == other.last(),
        ensures
            way == other,
    {
        lemma_tree_path_unique(self@.size, self@.passages, way, other);
    }

    /// The way that passes no cell twice is a shortest one: no walk between
    /// the same two cells has fewer steps.
    pub proof fn lemma_way_shortest(&self, way: Seq<Position>, walk: Seq<Position>)
        requires
            self.wf(),
            is_path(self@.passages, way),
            is_walk(self@.passages, walk),
            way.first() == walk.first(),
            way.last() == walk.last(),
        ensures
            way.len() <= walk.len(),
    {
        lemma_tree_path_shortest(self@.size, self@.passages, way, walk);
    }

    /// The borders of every cell: one list per row, from the top, and in it
    /// one entry per column, from the left.
    pub fn border_rows(&self) -> (rows: Vec<Vec<Borders>>)
        ensures
            rows@.len() == self@.size,
            forall|y: int| 0 <= y < rows@.len() ==> (#[trigger] rows@[y])@.len() == self@.size,
            forall|x: int, y: int|
                0 <= y < self@.size && 0 <= x < self@.size ==> (#[trigger] rows@[y]@[x]) == borders_of(
                    self@.passages,
                    (x as u32, y as u32),
                ),
    {
        let mut rows: Vec<Vec<Borders>> = Vec::new();
        let mut y: u32 = 0;
        while y < self.size
            invariant
                y <= self.size,
                rows@.len() == y,
                forall|j: int| 0 <= j < rows@.len() ==> (#[trigger] rows@[j])@.len() == self.size,
                forall|i: int, j: int|
                    0 <= j < y && 0 <= i < self.size ==> (#[trigger] rows@[j]@[i]) == borders_of(
                        self.passages@,
                        (i as u32, j as u32),
                    ),
            decreases self.size - y,
        {
            let mut row: Vec<Borders> = Vec::new();
            let mut x: u32 = 0;
            while x < self.size
                invariant
                    x <= self.size,
                    row@.len() == x,
                    forall|i: int|
                        0 <= i < x ==> (#[trigger] row@[i]) == borders_of(
                            self.passages@,
                            (i as u32, y),
                        ),
                decreases self.size - x,
            {
                row.push(self.borders((x, y)));
                x += 1;
            }
            rows.push(row);
            y += 1;
        }
        rows
    }

    /// The width of the border of `at` towards `to`.
    fn border(&self, at: Position, to: Position) -> (width: u32)
        ensures
            width == border_towards(self@.passages, at, true, to),
    {
        if self.is_open(at, to) {
            0
        } else {
            BORDER_WIDTH
        }
    }

    /// The four borders of the cell `at`: none where a passage leads to the
    /// neighbour, the full width elsewhere.
    pub fn borders(&self, at: Position) -> (widths: Borders)
        ensures
            widths == borders_of(self@.passages, at),
    {
        let (x, y) = at;
        Borders {
            top: if y >= 1 {
                self.border(at, (x, y - 1))
            } else {
                BORDER_WIDTH
            },
            right: if x < u32::MAX {
                self.border(at, (x + 1, y))
            } else {
                BORDER_WIDTH
            },
            bottom: if y < u32::MAX {
                self.border(at, (x, y + 1))
            } else {
                BORDER_WIDTH
            },
            left: if x >= 1 {
                self.border(at, (x - 1, y))
            } else {
                BORDER_WIDTH
            },
        }
    }
}

} // verus!
