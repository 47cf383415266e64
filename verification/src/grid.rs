//! The square grid that a maze is cut into, the passages between its cells,
//! and what it means for a list of passages to form a spanning tree.

use vstd::prelude::*;

verus! {

/// A cell of the grid by column and row, both counted from zero.
pub type Position = (u32, u32);

/// An open passage between two cells. In a maze its first cell is the one
/// from which the passage was opened, its second the cell that it reached.
pub type Passage = (Position, Position);

/// The cell at which every maze starts to grow.
pub open spec fn origin() -> Position {
    (0u32, 0u32)
}

/// The position lies inside a grid of `size` columns and `size` rows.
pub open spec fn in_grid(size: nat, p: Position) -> bool {
    p.0 < size && p.1 < size
}

/// The two cells share a side.
pub open spec fn adjacent(a: Position, b: Position) -> bool {
    ||| a.0 == b.0 && a.1 + 1 == b.1
    ||| a.0 == b.0 && b.1 + 1 == a.1
    ||| a.1 == b.1 && a.0 + 1 == b.0
    ||| a.1 == b.1 && b.0 + 1 == a.0
}

/// The passage connects `a` and `b`, in either direction.
pub open spec fn joins(passage: Passage, a: Position, b: Position) -> bool {
    (passage.0 == a && passage.1 == b) || (passage.0 == b && passage.1 == a)
}

/// One of the first `k` passages connects `a` and `b`.
pub open spec fn linked_within(passages: Seq<Passage>, k: int, a: Position, b: Position) -> bool {
    exists|i: int| 0 <= i < k && i < passages.len() && joins(#[trigger] passages[i], a, b)
}

/// Some passage connects `a` and `b`.
pub open spec fn linked(passages: Seq<Passage>, a: Position, b: Position) -> bool {
    linked_within(passages, passages.len() as int, a, b)
}

/// `walk` is a non-empty sequence of cells in which each step goes through
/// one of the first `k` passages.
pub open spec fn walk_within(passages: Seq<Passage>, k: int, walk: Seq<Position>) -> bool {
    &&& walk.len() >= 1
    &&& forall|i: int|
        0 <= i < walk.len() - 1 ==> linked_within(passages, k, #[trigger] walk[i], walk[i + 1])
}

/// `walk` is a non-empty sequence of cells in which each step goes through
/// an open passage.
pub open spec fn is_walk(passages: Seq<Passage>, walk: Seq<Position>) -> bool {
    walk_within(passages, passages.len() as int, walk)
}

/// `path` is a walk that visits no cell twice.
pub open spec fn is_path(passages: Seq<Passage>, path: Seq<Position>) -> bool {
    is_walk(passages, path) && path.no_duplicates()
}

/// `path` is a walk without repetition from `from` to `to`.
pub open spec fn is_path_between(
    passages: Seq<Passage>,
    path: Seq<Position>,
    from: Position,
    to: Position,
) -> bool {
    is_path(passages, path) && path.first() == from && path.last() == to
}

/// The cell is the origin or the far end of one of the first `k` passages.
pub open spec fn reached_within(passages: Seq<Passage>, k: int, p: Position) -> bool {
    p == origin() || exists|j: int|
        0 <= j < k && j < passages.len() && (#[trigger] passages[j]).1 == p
}

/// The cell is the origin or the far end of a passage.
pub open spec fn reached(passages: Seq<Passage>, p: Position) -> bool {
    reached_within(passages, passages.len() as int, p)
}

/// Passage `k` leads from a cell that the passages before it have reached to
/// an adjacent cell of the grid that they have not.
pub open spec fn attaches(size: nat, passages: Seq<Passage>, k: int) -> bool {
    &&& in_grid(size, passages[k].0)
    &&& in_grid(size, passages[k].1)
    &&& adjacent(passages[k].0, passages[k].1)
    &&& reached_within(passages, k, passages[k].0)
    &&& !reached_within(passages, k, passages[k].1)
}

/// Every passage attaches one new cell to those reached before it: the
/// passages form a tree that contains the origin.
pub open spec fn grows_as_tree(size: nat, passages: Seq<Passage>) -> bool {
    forall|k: int| 0 <= k < passages.len() ==> #[trigger] attaches(size, passages, k)
}

/// The passages form a spanning tree of the grid: a tree grown from the
/// origin that reaches every cell, with one passage fewer than cells.
pub open spec fn spanning_tree(size: nat, passages: Seq<Passage>) -> bool {
    &&& size >= 1
    &&& passages.len() + 1 == size * size
    &&& grows_as_tree(size, passages)
    &&& forall|p: Position| in_grid(size, p) ==> #[trigger] reached(passages, p)
}

/// There is a walk from `from` to `to`.
pub open spec fn connects(passages: Seq<Passage>, from: Position, to: Position) -> bool {
    exists|walk: Seq<Position>|
        #[trigger] is_walk(passages, walk) && walk.first() == from && walk.last() == to
}

/// A closed walk of at least three steps that repeats no cell but its first,
/// which is also its last.
pub open spec fn is_cycle(passages: Seq<Passage>, walk: Seq<Position>) -> bool {
    &&& is_walk(passages, walk)
    &&& walk.len() >= 4
    &&& walk.first() == walk.last()
    &&& walk.drop_last().no_duplicates()
}

/// What the first `i` passages reach, the first `k >= i` reach too.
pub proof fn lemma_reached_grows(passages: Seq<Passage>, i: int, k: int, p: Position)
    requires
        i <= k,
        reached_within(passages, i, p),
    ensures
        reached_within(passages, k, p),
{
    if p != origin() {
        let j = choose|j: int| 0 <= j < i && j < passages.len() && (#[trigger] passages[j]).1 == p;
        assert(0 <= j < k && j < passages.len() && passages[j].1 == p);
    }
}

/// Both ends of passage `i` are reached by the first `k > i` passages.
pub proof fn lemma_ends_reached(size: nat, passages: Seq<Passage>, i: int, k: int)
    requires
        grows_as_tree(size, passages),
        0 <= i < k,
        i < passages.len(),
    ensures
        reached_within(passages, k, passages[i].0),
        reached_within(passages, k, passages[i].1),
{
    assert(attaches(size, passages, i));
    lemma_reached_grows(passages, i, k, passages[i].0);
}

/// Among the first `k + 1` passages, the only cell linked to the far end of
/// passage `k` is its near end.
pub proof fn lemma_leaf_has_one_link(size: nat, passages: Seq<Passage>, k: int, other: Position)
    requires
        grows_as_tree(size, passages),
        0 <= k < passages.len(),
        linked_within(passages, k + 1, passages[k].1, other) || linked_within(
            passages,
            k + 1,
            other,
            passages[k].1,
        ),
    ensures
        other == passages[k].0,
        other != passages[k].1,
{
    let leaf = passages[k].1;
    assert(attaches(size, passages, k));
    let i = choose|i: int|
        0 <= i < k + 1 && i < passages.len() && (joins(#[trigger] passages[i], leaf, other)
            || joins(passages[i], other, leaf));
    if i < k {
        lemma_ends_reached(size, passages, i, k);
    }
}

/// A walk through the first `k + 1` passages that avoids the far end of
/// passage `k` goes through the first `k` passages alone.
pub proof fn lemma_walk_avoiding_leaf(
    size: nat,
    passages: Seq<Passage>,
    k: int,
    walk: Seq<Position>,
)
    requires
        grows_as_tree(size, passages),
        0 <= k < passages.len(),
        walk_within(passages, k + 1, walk),
        forall|i: int| 0 <= i < walk.len() ==> walk[i] != passages[k].1,
    ensures
        walk_within(passages, k, walk),
{
    assert(attaches(size, passages, k));
    assert forall|i: int| 0 <= i < walk.len() - 1 implies linked_within(
        passages,
        k,
        #[trigger] walk[i],
        walk[i + 1],
    ) by {
        let e = choose|e: int|
            0 <= e < k + 1 && e < passages.len() && joins(#[trigger] passages[e], walk[i], walk[i + 1]);
        assert(walk[i] != passages[k].1);
        assert(walk[i + 1] != passages[k].1);
        assert(e != k);
        assert(0 <= e < k && e < passages.len() && joins(passages[e], walk[i], walk[i + 1]));
    }
}

/// In a walk without repetition through the first `k + 1` passages, the far
/// end of passage `k` can stand only at the first or the last place.
pub proof fn lemma_leaf_only_at_ends(
    size: nat,
    passages: Seq<Passage>,
    k: int,
    walk: Seq<Position>,
    at: int,
)
    requires
        grows_as_tree(size, passages),
        0 <= k < passages.len(),
        walk_within(passages, k + 1, walk),
        walk.no_duplicates(),
        0 <= at < walk.len(),
        walk[at] == passages[k].1,
    ensures
        at == 0 || at == walk.len() - 1,
{
    if 0 < at && at < walk.len() - 1 {
        assert(linked_within(passages, k + 1, walk[at - 1], walk[at - 1 + 1]));
        assert(linked_within(passages, k + 1, walk[at], walk[at + 1]));
        lemma_leaf_has_one_link(size, passages, k, walk[at - 1]);
        lemma_leaf_has_one_link(size, passages, k, walk[at + 1]);
        assert(walk[at - 1] == walk[at + 1]);
    }
}

/// A non-empty stretch of a walk is a walk, and repeats no cell if the walk
/// repeats none.
pub proof fn lemma_stretch_of_walk(
    passages: Seq<Passage>,
    k: int,
    walk: Seq<Position>,
    low: int,
    high: int,
)
    requires
        walk_within(passages, k, walk),
        0 <= low < high <= walk.len(),
    ensures
        walk_within(passages, k, walk.subrange(low, high)),
        walk.no_duplicates() ==> walk.subrange(low, high).no_duplicates(),
{
    let part = walk.subrange(low, high);
    assert forall|i: int| 0 <= i < part.len() - 1 implies linked_within(
        passages,
        k,
        #[trigger] part[i],
        part[i + 1],
    ) by {
        assert(linked_within(passages, k, walk[low + i], walk[low + i + 1]));
    }
    if walk.no_duplicates() {
        assert forall|i: int, j: int| 0 <= i < part.len() && 0 <= j < part.len() && i != j implies part[i]
            != part[j] by {
            assert(walk[low + i] != walk[low + j]);
        }
    }
}

/// Through the first `k` passages of a tree, two walks without repetition
/// that share both ends are the same walk.
pub proof fn lemma_paths_agree_within(
    size: nat,
    passages: Seq<Passage>,
    k: int,
    p: Seq<Position>,
    q: Seq<Position>,
)
    requires
        grows_as_tree(size, passages),
        0 <= k <= passages.len(),
        walk_within(passages, k, p),
        walk_within(passages, k, q),
        p.no_duplicates(),
        q.no_duplicates(),
        p.first() == q.first(),
        p.last() == q.last(),
    ensures
        p == q,
    decreases k,
{
    if k == 0 {
        if p.len() > 1 {
            assert(linked_within(passages, 0, p[0], p[1]));
        }
        if q.len() > 1 {
            assert(linked_within(passages, 0, q[0], q[1]));
        }
        assert(p =~= q);
    } else {
        let leaf = passages[k - 1].1;
        if p.first() == leaf && p.last() == leaf {
            assert(p[0] == p[p.len() - 1]);
            assert(q[0] == q[q.len() - 1]);
            assert(p =~= q);
        } else if p.first() == leaf {
            assert(linked_within(passages, k, p[0], p[1]));
            assert(linked_within(passages, k, q[0], q[1]));
            lemma_leaf_has_one_link(size, passages, k - 1, p[1]);
            lemma_leaf_has_one_link(size, passages, k - 1, q[1]);
            let pt = p.subrange(1, p.len() as int);
            let qt = q.subrange(1, q.len() as int);
            lemma_stretch_of_walk(passages, k, p, 1, p.len() as int);
            lemma_stretch_of_walk(passages, k, q, 1, q.len() as int);
            assert forall|i: int| 0 <= i < pt.len() implies pt[i] != leaf by {
                assert(p[i + 1] != p[0]);
            }
            assert forall|i: int| 0 <= i < qt.len() implies qt[i] != leaf by {
                assert(q[i + 1] != q[0]);
            }
            lemma_walk_avoiding_leaf(size, passages, k - 1, pt);
            lemma_walk_avoiding_leaf(size, passages, k - 1, qt);
            lemma_paths_agree_within(size, passages, k - 1, pt, qt);
            assert forall|i: int| 0 <= i < p.len() implies p[i] == q[i] by {
                if i > 0 {
                    assert(p[i] == pt[i - 1]);
                    assert(q[i] == qt[i - 1]);
                }
            }
            assert(p.len() == pt.len() + 1);
            assert(q.len() == qt.len() + 1);
            assert(p =~= q);
        } else if p.last() == leaf {
            let pn = p.len() as int;
            let qn = q.len() as int;
            assert(linked_within(passages, k, p[pn - 2], p[pn - 2 + 1]));
            assert(linked_within(passages, k, q[qn - 2], q[qn - 2 + 1]));
            lemma_leaf_has_one_link(size, passages, k - 1, p[pn - 2]);
            lemma_leaf_has_one_link(size, passages, k - 1, q[qn - 2]);
            let pt = p.subrange(0, pn - 1);
            let qt = q.subrange(0, qn - 1);
            lemma_stretch_of_walk(passages, k, p, 0, pn - 1);
            lemma_stretch_of_walk(passages, k, q, 0, qn - 1);
            assert forall|i: int| 0 <= i < pt.len() implies pt[i] != leaf by {
                assert(p[i] != p[pn - 1]);
            }
            assert forall|i: int| 0 <= i < qt.len() implies qt[i] != leaf by {
                assert(q[i] != q[qn - 1]);
            }
            lemma_walk_avoiding_leaf(size, passages, k - 1, pt);
            lemma_walk_avoiding_leaf(size, passages, k - 1, qt);
            lemma_paths_agree_within(size, passages, k - 1, pt, qt);
            assert(pn == qn);
            assert forall|i: int| 0 <= i < pn implies p[i] == q[i] by {
                if i < pn - 1 {
                    assert(p[i] == pt[i]);
                    assert(q[i] == qt[i]);
                }
            }
            assert(p =~= q);
        } else {
            assert forall|i: int| 0 <= i < p.len() implies p[i] != leaf by {
                if p[i] == leaf {
                    lemma_leaf_only_at_ends(size, passages, k - 1, p, i);
                }
            }
            assert forall|i: int| 0 <= i < q.len() implies q[i] != leaf by {
                if q[i] == leaf {
                    lemma_leaf_only_at_ends(size, passages, k - 1, q, i);
                }
            }
            lemma_walk_avoiding_leaf(size, passages, k - 1, p);
            lemma_walk_avoiding_leaf(size, passages, k - 1, q);
            lemma_paths_agree_within(size, passages, k - 1, p, q);
        }
    }
}

/// A walk through the first `i` passages is a walk through the first
/// `k >= i`.
pub proof fn lemma_walk_within_more(passages: Seq<Passage>, i: int, k: int, walk: Seq<Position>)
    requires
        i <= k,
        walk_within(passages, i, walk),
    ensures
        walk_within(passages, k, walk),
{
    assert forall|n: int| 0 <= n < walk.len() - 1 implies linked_within(
        passages,
        k,
        #[trigger] walk[n],
        walk[n + 1],
    ) by {
        let e = choose|e: int|
            0 <= e < i && e < passages.len() && joins(#[trigger] passages[e], walk[n], walk[n + 1]);
        assert(0 <= e < k && e < passages.len() && joins(passages[e], walk[n], walk[n + 1]));
    }
}

/// A walk read backwards is a walk, and repeats no cell if the walk repeats
/// none.
pub proof fn lemma_walk_reversed(passages: Seq<Passage>, k: int, walk: Seq<Position>)
    requires
        walk_within(passages, k, walk),
    ensures
        walk_within(passages, k, walk.reverse()),
        walk.no_duplicates() ==> walk.reverse().no_duplicates(),
        walk.reverse().first() == walk.last(),
        walk.reverse().last() == walk.first(),
{
    let back = walk.reverse();
    let n = walk.len() as int;
    assert forall|i: int| 0 <= i < back.len() - 1 implies linked_within(
        passages,
        k,
        #[trigger] back[i],
        back[i + 1],
    ) by {
        let m = n - 2 - i;
        assert(linked_within(passages, k, walk[m], walk[m + 1]));
        let e = choose|e: int|
            0 <= e < k && e < passages.len() && joins(#[trigger] passages[e], walk[m], walk[m + 1]);
        assert(joins(passages[e], back[i], back[i + 1]));
    }
    if walk.no_duplicates() {
        assert forall|i: int, j: int| 0 <= i < back.len() && 0 <= j < back.len() && i != j implies back[i]
            != back[j] by {
            assert(walk[n - 1 - i] != walk[n - 1 - j]);
        }
    }
}

/// Two walks of which the second starts where the first ends make one walk.
pub proof fn lemma_walks_joined(
    passages: Seq<Passage>,
    k: int,
    head: Seq<Position>,
    tail: Seq<Position>,
)
    requires
        walk_within(passages, k, head),
        walk_within(passages, k, tail),
        head.last() == tail.first(),
    ensures
        walk_within(passages, k, head + tail.subrange(1, tail.len() as int)),
        (head + tail.subrange(1, tail.len() as int)).first() == head.first(),
        (head + tail.subrange(1, tail.len() as int)).last() == tail.last(),
{
    let whole = head + tail.subrange(1, tail.len() as int);
    let h = head.len() as int;
    assert forall|i: int| 0 <= i < whole.len() - 1 implies linked_within(
        passages,
        k,
        #[trigger] whole[i],
        whole[i + 1],
    ) by {
        if i + 1 < h {
            assert(linked_within(passages, k, head[i], head[i + 1]));
        } else {
            let m = i - h + 1;
            assert(linked_within(passages, k, tail[m], tail[m + 1]));
            assert(whole[i + 1] == tail[m + 1]);
            assert(whole[i] == tail[m]);
        }
    }
}

/// From every cell that the first `k` passages of a tree reach, a walk
/// through them leads to the origin.
pub proof fn lemma_walk_to_origin(size: nat, passages: Seq<Passage>, k: int, p: Position) -> (walk:
    Seq<Position>)
    requires
        grows_as_tree(size, passages),
        0 <= k <= passages.len(),
        reached_within(passages, k, p),
    ensures
        walk_within(passages, k, walk),
        walk.first() == p,
        walk.last() == origin(),
    decreases k,
{
    if p == origin() {
        seq![p]
    } else {
        let j = choose|j: int| 0 <= j < k && j < passages.len() && (#[trigger] passages[j]).1 == p;
        assert(attaches(size, passages, j));
        let rest = lemma_walk_to_origin(size, passages, j, passages[j].0);
        lemma_walk_within_more(passages, j, k, rest);
        let walk = seq![p] + rest;
        assert forall|i: int| 0 <= i < walk.len() - 1 implies linked_within(
            passages,
            k,
            #[trigger] walk[i],
            walk[i + 1],
        ) by {
            if i == 0 {
                assert(walk[1] == rest[0]);
                assert(joins(passages[j], walk[0], walk[1]));
            } else {
                assert(linked_within(passages, k, rest[i - 1], rest[i - 1 + 1]));
                assert(walk[i] == rest[i - 1]);
                assert(walk[i + 1] == rest[i]);
            }
        }
        walk
    }
}

/// A tree is connected: between any two cells that it reaches there is a
/// walk.
pub proof fn lemma_tree_connected(size: nat, passages: Seq<Passage>, from: Position, to: Position) -> (walk:
    Seq<Position>)
    requires
        grows_as_tree(size, passages),
        reached(passages, from),
        reached(passages, to),
    ensures
        is_walk(passages, walk),
        walk.first() == from,
        walk.last() == to,
{
    let k = passages.len() as int;
    let down = lemma_walk_to_origin(size, passages, k, from);
    let up = lemma_walk_to_origin(size, passages, k, to);
    lemma_walk_reversed(passages, k, up);
    lemma_walks_joined(passages, k, down, up.reverse());
    down + up.reverse().subrange(1, up.len() as int)
}

/// A spanning tree of the grid has one passage fewer than the grid has
/// cells, connects every two cells, and has no cycle.
pub proof fn lemma_spanning_tree(size: nat, passages: Seq<Passage>)
    requires
        spanning_tree(size, passages),
    ensures
        passages.len() == size * size - 1,
        forall|from: Position, to: Position|
            in_grid(size, from) && in_grid(size, to) ==> #[trigger] connects(passages, from, to),
        forall|walk: Seq<Position>| !#[trigger] is_cycle(passages, walk),
{
    assert forall|from: Position, to: Position|
        in_grid(size, from) && in_grid(size, to) implies #[trigger] connects(
        passages,
        from,
        to,
    ) by {
        assert(reached(passages, from));
        assert(reached(passages, to));
        let walk = lemma_tree_connected(size, passages, from, to);
    }
    assert forall|walk: Seq<Position>| !#[trigger] is_cycle(passages, walk) by {
        lemma_tree_acyclic(size, passages, walk);
    }
}

/// Every walk holds a walk without repetition between the same two cells
/// that is no longer than it.
pub proof fn lemma_walk_holds_path(passages: Seq<Passage>, walk: Seq<Position>) -> (path: Seq<
    Position,
>)
    requires
        is_walk(passages, walk),
    ensures
        is_path_between(passages, path, walk.first(), walk.last()),
        path.len() <= walk.len(),
    decreases walk.len(),
{
    if walk.no_duplicates() {
        walk
    } else {
        let k = passages.len() as int;
        let n = walk.len() as int;
        let (i, j) = choose|i: int, j: int|
            0 <= i < walk.len() && 0 <= j < walk.len() && i < j && walk[i] == walk[j];
        let head = walk.subrange(0, i + 1);
        let tail = walk.subrange(j, n);
        lemma_stretch_of_walk(passages, k, walk, 0, i + 1);
        lemma_stretch_of_walk(passages, k, walk, j, n);
        lemma_walks_joined(passages, k, head, tail);
        let shorter = head + tail.subrange(1, tail.len() as int);
        lemma_walk_holds_path(passages, shorter)
    }
}

/// In a tree, two walks without repetition between the same two cells are
/// the same walk.
pub proof fn lemma_tree_path_unique(
    size: nat,
    passages: Seq<Passage>,
    p: Seq<Position>,
    q: Seq<Position>,
)
    requires
        grows_as_tree(size, passages),
        is_path(passages, p),
        is_path(passages, q),
        p.first() == q.first(),
        p.last() == q.last(),
    ensures
        p == q,
{
    lemma_paths_agree_within(size, passages, passages.len() as int, p, q);
}

/// In a tree, the walk without repetition between two cells is a shortest
/// walk between them.
pub proof fn lemma_tree_path_shortest(
    size: nat,
    passages: Seq<Passage>,
    path: Seq<Position>,
    walk: Seq<Position>,
)
    requires
        grows_as_tree(size, passages),
        is_path(passages, path),
        is_walk(passages, walk),
        path.first() == walk.first(),
        path.last() == walk.last(),
    ensures
        path.len() <= walk.len(),
{
    let inner = lemma_walk_holds_path(passages, walk);
    lemma_tree_path_unique(size, passages, path, inner);
}

/// A tree has no cycle.
pub proof fn lemma_tree_acyclic(size: nat, passages: Seq<Passage>, walk: Seq<Position>)
    requires
        grows_as_tree(size, passages),
    ensures
        !is_cycle(passages, walk),
{
    if is_cycle(passages, walk) {
        let k = passages.len() as int;
        let n = walk.len() as int;
        let around = walk.drop_last();
        assert(around[0] != around[1]);
        let short = walk.subrange(0, 2);
        lemma_stretch_of_walk(passages, k, walk, 0, 2);
        assert(short.no_duplicates());
        let rest = walk.subrange(1, n);
        lemma_stretch_of_walk(passages, k, walk, 1, n);
        assert forall|i: int, j: int| 0 <= i < rest.len() && 0 <= j < rest.len() && i != j implies rest[i]
            != rest[j] by {
            if i == n - 2 {
                assert(rest[i] == around[0]);
                assert(rest[j] == around[j + 1]);
            } else if j == n - 2 {
                assert(rest[j] == around[0]);
                assert(rest[i] == around[i + 1]);
            } else {
                assert(rest[i] == around[i + 1]);
                assert(rest[j] == around[j + 1]);
            }
        }
        lemma_walk_reversed(passages, k, rest);
        lemma_tree_path_unique(size, passages, short, rest.reverse());
        assert(short.len() == 2);
        assert(rest.reverse().len() == n - 1);
    }
}

} // verus!
