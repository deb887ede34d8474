//! Walks over a grid, as mathematics: where a sequence of moves leads, when
//! it is legal, what it collects and what it scores.

use vstd::prelude::*;
use crate::grid::{lemma_index_in_bounds, prefix_sum, GridView};

verus! {

/// Whether `d` is one of the four move codes.
pub open spec fn is_move(d: char) -> bool {
    d == 'U' || d == 'D' || d == 'L' || d == 'R'
}

/// The cell one step from `p` in the direction coded by `d`. Rows grow
/// downwards and columns to the right.
pub open spec fn step(p: (int, int), d: char) -> (int, int) {
    if d == 'U' {
        (p.0 - 1, p.1)
    } else if d == 'D' {
        (p.0 + 1, p.1)
    } else if d == 'L' {
        (p.0, p.1 - 1)
    } else if d == 'R' {
        (p.0, p.1 + 1)
    } else {
        p
    }
}

/// The cell reached from `start` by the moves of `log`.
pub open spec fn walk_end(start: (int, int), log: Seq<char>) -> (int, int)
    decreases log.len(),
{
    if log.len() == 0 {
        start
    } else {
        step(walk_end(start, log.drop_last()), log.last())
    }
}

/// The tile labels of the cells that the walk occupies.
pub open spec fn walk_tiles(g: GridView, start: (int, int), log: Seq<char>) -> Set<u32>
    decreases log.len(),
{
    if log.len() == 0 {
        set![g.tile(start)]
    } else {
        walk_tiles(g, start, log.drop_last()).insert(g.tile(walk_end(start, log)))
    }
}

/// The row-major indices of the cells that the walk occupies.
pub open spec fn walk_cells(g: GridView, start: (int, int), log: Seq<char>) -> Set<int>
    decreases log.len(),
{
    if log.len() == 0 {
        set![g.index(start)]
    } else {
        walk_cells(g, start, log.drop_last()).insert(g.index(walk_end(start, log)))
    }
}

/// The values of the cells that the walk occupies, added up step by step.
pub open spec fn walk_score(g: GridView, start: (int, int), log: Seq<char>) -> int
    decreases log.len(),
{
    if log.len() == 0 {
        g.value(start)
    } else {
        walk_score(g, start, log.drop_last()) + g.value(walk_end(start, log))
    }
}

/// Whether the walk is legal: it starts inside the grid, every entry of the
/// log is a move code, no step leaves the grid, and no step enters a cell
/// whose tile label was collected before.
pub open spec fn walk_ok(g: GridView, start: (int, int), log: Seq<char>) -> bool
    decreases log.len(),
{
    if log.len() == 0 {
        g.inside(start)
    } else {
        &&& walk_ok(g, start, log.drop_last())
        &&& is_move(log.last())
        &&& g.inside(walk_end(start, log))
        &&& !walk_tiles(g, start, log.drop_last()).contains(g.tile(walk_end(start, log)))
    }
}

/// Sum of the entries of `weights` below index `n` whose index is in `picked`.
pub open spec fn picked_sum(weights: Seq<u32>, picked: Set<int>, n: nat) -> int
    decreases n,
{
    if n == 0 {
        0
    } else if picked.contains(n - 1) {
        picked_sum(weights, picked, (n - 1) as nat) + weights[n - 1] as int
    } else {
        picked_sum(weights, picked, (n - 1) as nat)
    }
}

/// Picking one more index adds its weight.
pub proof fn lemma_picked_sum_insert(weights: Seq<u32>, picked: Set<int>, c: int, n: nat)
    requires
        !picked.contains(c),
    ensures
        picked_sum(weights, picked.insert(c), n) == picked_sum(weights, picked, n) + (if 0 <= c
            < n {
            weights[c] as int
        } else {
            0
        }),
    decreases n,
{
    if n > 0 {
        lemma_picked_sum_insert(weights, picked, c, (n - 1) as nat);
    }
}

/// A sum over picked indices is at most the sum over all of them.
pub proof fn lemma_picked_sum_bound(weights: Seq<u32>, picked: Set<int>, n: nat)
    ensures
        picked_sum(weights, picked, n) <= prefix_sum(weights, n),
    decreases n,
{
    if n > 0 {
        lemma_picked_sum_bound(weights, picked, (n - 1) as nat);
    }
}

/// A table of `n` ones, used to count cells.
pub open spec fn ones(n: nat) -> Seq<u32> {
    Seq::new(n, |i: int| 1u32)
}

/// The first `m` ones add up to `m`.
pub proof fn lemma_ones_sum(n: nat, m: nat)
    requires
        m <= n,
    ensures
        prefix_sum(ones(n), m) == m,
    decreases m,
{
    if m > 0 {
        lemma_ones_sum(n, (m - 1) as nat);
    }
}

/// On a legal walk every occupied cell lies in the grid and has its tile
/// label among those collected; the score is the sum of the values of the
/// occupied cells, each counted once; and the walk occupies one cell more
/// than it has moves.
pub proof fn lemma_walk_cells(g: GridView, start: (int, int), log: Seq<char>)
    requires
        g.wf(),
        walk_ok(g, start, log),
    ensures
        g.inside(walk_end(start, log)),
        walk_cells(g, start, log).contains(g.index(walk_end(start, log))),
        walk_tiles(g, start, log).contains(g.tile(walk_end(start, log))),
        forall|c: int| #[trigger]
            walk_cells(g, start, log).contains(c) ==> 0 <= c < g.cells() && walk_tiles(
                g,
                start,
                log,
            ).contains(g.tiles[c]),
        walk_score(g, start, log) == picked_sum(g.values, walk_cells(g, start, log), g.cells()),
        log.len() + 1 == picked_sum(ones(g.cells()), walk_cells(g, start, log), g.cells()),
    decreases log.len(),
{
    let end = walk_end(start, log);
    lemma_index_in_bounds(g.side, end);
    if log.len() == 0 {
        let none = Set::<int>::empty();
        assert(walk_cells(g, start, log) =~= none.insert(g.index(start)));
        lemma_picked_sum_insert(g.values, none, g.index(start), g.cells());
        lemma_picked_sum_insert(ones(g.cells()), none, g.index(start), g.cells());
        lemma_picked_sum_empty(g.values, g.cells());
        lemma_picked_sum_empty(ones(g.cells()), g.cells());
    } else {
        let before = log.drop_last();
        lemma_walk_cells(g, start, before);
        let cells = walk_cells(g, start, before);
        assert(!cells.contains(g.index(end)));
        lemma_picked_sum_insert(g.values, cells, g.index(end), g.cells());
        lemma_picked_sum_insert(ones(g.cells()), cells, g.index(end), g.cells());
    }
}

/// Nothing picked, nothing summed.
pub proof fn lemma_picked_sum_empty(weights: Seq<u32>, n: nat)
    ensures
        picked_sum(weights, Set::<int>::empty(), n) == 0,
    decreases n,
{
    if n > 0 {
        lemma_picked_sum_empty(weights, (n - 1) as nat);
    }
}

/// A legal walk scores at least the value of its first cell and at most the
/// sum of all values of the grid, and has fewer moves than the grid has
/// cells.
pub proof fn lemma_walk_bounds(g: GridView, start: (int, int), log: Seq<char>)
    requires
        g.wf(),
        walk_ok(g, start, log),
    ensures
        g.value(start) <= walk_score(g, start, log) <= prefix_sum(g.values, g.cells()),
        walk_score(g, start, log) <= u32::MAX,
        log.len() < g.cells(),
{
    lemma_walk_cells(g, start, log);
    lemma_picked_sum_bound(g.values, walk_cells(g, start, log), g.cells());
    lemma_picked_sum_bound(ones(g.cells()), walk_cells(g, start, log), g.cells());
    lemma_ones_sum(g.cells(), g.cells());
    lemma_walk_score_grows(g, start, log);
}

/// A walk scores at least the value of its first cell.
pub proof fn lemma_walk_score_grows(g: GridView, start: (int, int), log: Seq<char>)
    ensures
        g.value(start) <= walk_score(g, start, log),
    decreases log.len(),
{
    if log.len() > 0 {
        lemma_walk_score_grows(g, start, log.drop_last());
    }
}

/// Every prefix of a legal walk is a legal walk.
pub proof fn lemma_walk_prefix_ok(g: GridView, start: (int, int), log: Seq<char>, n: int)
    requires
        walk_ok(g, start, log),
        0 <= n <= log.len(),
    ensures
        walk_ok(g, start, log.take(n)),
    decreases log.len(),
{
    if n == log.len() {
        assert(log.take(n) =~= log);
    } else {
        lemma_walk_prefix_ok(g, start, log.drop_last(), n);
        assert(log.drop_last().take(n) =~= log.take(n));
    }
}

/// Appending one legal move to a legal walk gives a legal walk, and says
/// where it ends, what it has collected and what it scores.
pub proof fn lemma_walk_push(g: GridView, start: (int, int), log: Seq<char>, d: char)
    requires
        walk_ok(g, start, log),
        is_move(d),
        g.inside(step(walk_end(start, log), d)),
        !walk_tiles(g, start, log).contains(g.tile(step(walk_end(start, log), d))),
    ensures
        walk_ok(g, start, log.push(d)),
        walk_end(start, log.push(d)) == step(walk_end(start, log), d),
        walk_tiles(g, start, log.push(d)) == walk_tiles(g, start, log).insert(
            g.tile(step(walk_end(start, log), d)),
        ),
        walk_score(g, start, log.push(d)) == walk_score(g, start, log) + g.value(
            step(walk_end(start, log), d),
        ),
{
    assert(log.push(d).drop_last() =~= log);
    assert(log.push(d).last() == d);
}

} // verus!
