//! Partition of the grid into regions, and the orders in which a search
//! may pass through them.

use std::ops::Range;
use vstd::arithmetic::div_mod::lemma_fundamental_div_mod_converse;
use vstd::prelude::*;
use crate::boundary::Axis;
use crate::state::{in_region, Region};
use crate::walk::{lemma_ones_sum, lemma_picked_sum_bound, lemma_picked_sum_empty,
    lemma_picked_sum_insert, ones, picked_sum};

verus! {

/// Number of parts into which a list of cut points divides an axis.
pub open spec fn parts(cuts: Seq<usize>) -> nat {
    if cuts.len() == 0 {
        0
    } else {
        (cuts.len() - 1) as nat
    }
}

/// The region between the cut points `i` and `i + 1` along the rows and
/// between `j` and `j + 1` along the columns.
pub open spec fn region_at(cuts: Seq<usize>, i: int, j: int) -> Region {
    (Range { start: cuts[i], end: cuts[i + 1] }, Range { start: cuts[j], end: cuts[j + 1] })
}

/// The regions that a list of cut points makes of the grid, row of regions
/// by row of regions.
pub open spec fn regions_of(cuts: Seq<usize>) -> Seq<Region> {
    Seq::new(
        parts(cuts) * parts(cuts),
        |at: int| region_at(cuts, at / (parts(cuts) as int), at % (parts(cuts) as int)),
    )
}

/// Divides the grid into regions at the cut points `rr`, used for rows and
/// columns alike. With `n + 1` cut points there are `n * n` regions; the
/// region in row part `i` and column part `j` has the index `i * n + j`.
pub fn make_ranges(rr: &[usize]) -> (ranges: Vec<Region>)
    ensures
        ranges@ == regions_of(rr@),
{
    let mut ranges: Vec<Region> = Vec::new();
    if rr.len() == 0 {
        let ghost n = parts(rr@);
        assert(n * n == 0) by (nonlinear_arith)
            requires
                n == 0,
        ;
        assert(ranges@ =~= regions_of(rr@));
        return ranges;
    }
    let n = rr.len() - 1;
    let mut i: usize = 0;
    while i < n
        invariant
            i <= n,
            n + 1 == rr.len(),
            ranges@.len() == i * n,
            forall|at: int|
                0 <= at < i * n ==> #[trigger] ranges@[at] == region_at(
                    rr@,
                    at / (n as int),
                    at % (n as int),
                ),
        decreases n - i,
    {
        let mut j: usize = 0;
        while j < n
            invariant
                j <= n,
                i < n,
                n + 1 == rr.len(),
                ranges@.len() == i * n + j,
                forall|at: int|
                    0 <= at < i * n + j ==> #[trigger] ranges@[at] == region_at(
                        rr@,
                        at / (n as int),
                        at % (n as int),
                    ),
            decreases n - j,
        {
            proof {
                lemma_fundamental_div_mod_converse(i * n + j, n as int, i as int, j as int);
            }
            ranges.push((rr[i]..rr[i + 1], rr[j]..rr[j + 1]));
            j = j + 1;
        }
        assert((i + 1) * n == i * n + n) by (nonlinear_arith);
        i = i + 1;
    }
    assert(ranges@ =~= regions_of(rr@));
    ranges
}

/// The index of the first region that contains the cell `p`, if any does.
pub open spec fn first_holding(regions: Seq<Region>, p: (int, int)) -> Option<int>
    decreases regions.len(),
{
    if regions.len() == 0 {
        None
    } else {
        match first_holding(regions.drop_last(), p) {
            Some(at) => Some(at),
            None => if in_region(regions.last(), p) {
                Some(regions.len() - 1)
            } else {
                None
            },
        }
    }
}

/// The first region that holds a cell is a region that holds it, and none
/// before it does; there is none only if no region holds the cell.
pub proof fn lemma_first_holding(regions: Seq<Region>, p: (int, int))
    ensures
        match first_holding(regions, p) {
            Some(at) => {
                &&& 0 <= at < regions.len()
                &&& in_region(regions[at], p)
                &&& forall|j: int| 0 <= j < at ==> !in_region(#[trigger] regions[j], p)
            },
            None => forall|j: int| 0 <= j < regions.len() ==> !in_region(#[trigger] regions[j], p),
        },
    decreases regions.len(),
{
    if regions.len() > 0 {
        let front = regions.drop_last();
        lemma_first_holding(front, p);
        match first_holding(front, p) {
            Some(at) => {
                assert(front[at] == regions[at]);
                assert forall|j: int| 0 <= j < at implies !in_region(#[trigger] regions[j], p) by {
                    assert(front[j] == regions[j]);
                }
            },
            None => {
                assert forall|j: int| 0 <= j < regions.len() - 1 implies !in_region(
                    #[trigger] regions[j],
                    p,
                ) by {
                    assert(front[j] == regions[j]);
                }
            },
        }
    }
}

/// Finds the first region that contains the cell `pos`.
pub fn find_region(ranges: &Vec<Region>, pos: (usize, usize)) -> (found: Option<usize>)
    ensures
        match found {
            Some(at) => first_holding(ranges@, (pos.0 as int, pos.1 as int)) == Some(at as int),
            None => first_holding(ranges@, (pos.0 as int, pos.1 as int)) is None,
        },
        match found {
            Some(at) => {
                &&& at < ranges.len()
                &&& in_region(ranges[at as int], (pos.0 as int, pos.1 as int))
                &&& forall|j: int|
                    0 <= j < at ==> !in_region(#[trigger] ranges[j], (pos.0 as int, pos.1 as int))
            },
            None => forall|j: int|
                0 <= j < ranges.len() ==> !in_region(
                    #[trigger] ranges[j],
                    (pos.0 as int, pos.1 as int),
                ),
        },
{
    let mut at: usize = 0;
    while at < ranges.len()
        invariant
            at <= ranges.len(),
            forall|j: int|
                0 <= j < at ==> !in_region(#[trigger] ranges[j], (pos.0 as int, pos.1 as int)),
        decreases ranges.len() - at,
    {
        let region = &ranges[at];
        if region.0.start <= pos.0 && pos.0 < region.0.end && region.1.start <= pos.1 && pos.1
            < region.1.end {
            proof {
                lemma_first_holding(ranges@, (pos.0 as int, pos.1 as int));
            }
            return Some(at);
        }
        at = at + 1;
    }
    proof {
        lemma_first_holding(ranges@, (pos.0 as int, pos.1 as int));
    }
    None
}

/// Whether the region holds at least one cell.
pub open spec fn nonempty(region: Region) -> bool {
    region.0.start < region.0.end && region.1.start < region.1.end
}

/// The boundary through which a search leaves the region `cur` for the
/// region `next`: the axis whose coordinate the line fixes, and the line.
///
/// Regions with the same rows are left through a column, the last of `cur`
/// if `next` begins where `cur` ends and the first of `cur` otherwise.
/// Other regions are left through a row, chosen in the same way. The line
/// always lies in `cur`.
pub open spec fn crossing(cur: Region, next: Region) -> (Axis, int) {
    if cur.0 == next.0 {
        if cur.1.end == next.1.start {
            (Axis::Column, cur.1.end - 1)
        } else {
            (Axis::Column, cur.1.start as int)
        }
    } else {
        if cur.0.end == next.0.start {
            (Axis::Row, cur.0.end - 1)
        } else {
            (Axis::Row, cur.0.start as int)
        }
    }
}

/// Determines the boundary through which a search leaves `cur` for `next`.
pub fn boundary_between(cur: &Region, next: &Region) -> (edge: (Axis, usize))
    requires
        nonempty(*cur),
    ensures
        (edge.0, edge.1 as int) == crossing(*cur, *next),
{
    if cur.0.start == next.0.start && cur.0.end == next.0.end {
        if cur.1.end == next.1.start {
            (Axis::Column, cur.1.end - 1)
        } else {
            (Axis::Column, cur.1.start)
        }
    } else {
        if cur.0.end == next.0.start {
            (Axis::Row, cur.0.end - 1)
        } else {
            (Axis::Row, cur.0.start)
        }
    }
}

/// The neighbour of a cell in a square of side `n` whose cells are numbered
/// row by row. The turns 0 to 3 look one column on, one column back, one row
/// on and one row back.
pub open spec fn neighbour(n: usize, cell: usize, turn: int) -> Option<usize> {
    let x = cell % n;
    let y = cell / n;
    if turn == 0 {
        if x + 1 < n {
            Some((y * n + x + 1) as usize)
        } else {
            None
        }
    } else if turn == 1 {
        if x > 0 {
            Some((y * n + x - 1) as usize)
        } else {
            None
        }
    } else if turn == 2 {
        if y + 1 < n {
            Some(((y + 1) * n + x) as usize)
        } else {
            None
        }
    } else {
        if y > 0 {
            Some(((y - 1) * n + x) as usize)
        } else {
            None
        }
    }
}

/// The path that one turn adds to `path`, if the neighbour exists and the
/// path has not been there.
pub open spec fn turn_to(n: usize, path: Seq<usize>, turn: int) -> Seq<Seq<usize>> {
    match neighbour(n, path.last(), turn) {
        Some(cell) => if path.contains(cell) {
            Seq::empty()
        } else {
            seq![path.push(cell)]
        },
        None => Seq::empty(),
    }
}

/// The paths that the first `turns` turns add to `path`, in order.
pub open spec fn longer_paths(n: usize, path: Seq<usize>, turns: nat) -> Seq<Seq<usize>>
    decreases turns,
{
    if turns == 0 {
        Seq::empty()
    } else {
        longer_paths(n, path, (turns - 1) as nat) + turn_to(n, path, turns - 1)
    }
}

/// All paths one cell longer than a path of `paths`: those of the first
/// path by its four turns, then those of the second, and so on.
pub open spec fn extend_paths(n: usize, paths: Seq<Seq<usize>>) -> Seq<Seq<usize>>
    decreases paths.len(),
{
    if paths.len() == 0 {
        Seq::empty()
    } else {
        extend_paths(n, paths.drop_last()) + longer_paths(n, paths.last(), 4)
    }
}

/// All paths from `start` that take `steps` steps between neighbours and
/// enter no cell twice.
pub open spec fn paths_at(n: usize, start: usize, steps: nat) -> Seq<Seq<usize>>
    decreases steps,
{
    if steps == 0 {
        seq![seq![start]]
    } else {
        extend_paths(n, paths_at(n, start, (steps - 1) as nat))
    }
}

/// Whether the longest paths from `start` take `steps` steps: there is a
/// path of that many steps and none of one more.
pub open spec fn is_longest(n: usize, start: usize, steps: nat) -> bool {
    paths_at(n, start, steps).len() > 0 && paths_at(n, start, steps + 1).len() == 0
}

/// The number of steps of the longest paths from `start`.
pub open spec fn longest_steps(n: usize, start: usize) -> nat {
    choose|steps: nat| is_longest(n, start, steps)
}

/// The longest paths from `start`, in the order in which the search finds
/// them.
pub open spec fn longest_paths(n: usize, start: usize) -> Seq<Seq<usize>> {
    paths_at(n, start, longest_steps(n, start))
}

/// Once no path of some number of steps exists, none exists of more steps.
pub proof fn lemma_paths_run_out(n: usize, start: usize, steps: nat, later: nat)
    requires
        paths_at(n, start, steps).len() == 0,
        steps <= later,
    ensures
        paths_at(n, start, later).len() == 0,
    decreases later,
{
    if steps < later {
        lemma_paths_run_out(n, start, steps, (later - 1) as nat);
        assert(paths_at(n, start, (later - 1) as nat) =~= Seq::<Seq<usize>>::empty());
    }
}

/// Only one number of steps is that of the longest paths.
pub proof fn lemma_longest_steps(n: usize, start: usize, steps: nat)
    requires
        is_longest(n, start, steps),
    ensures
        longest_steps(n, start) == steps,
{
    let other = longest_steps(n, start);
    if other < steps {
        lemma_paths_run_out(n, start, other + 1, steps);
    } else if steps < other {
        lemma_paths_run_out(n, start, steps + 1, other);
    }
}

/// Whether `b` is a neighbour of `a`.
pub open spec fn linked(n: usize, a: usize, b: usize) -> bool {
    exists|turn: int| 0 <= turn < 4 && neighbour(n, a, turn) == Some(b)
}

/// Whether `path` is a path of `steps` steps from `start` through the
/// square of side `n`: it stays in the square, goes from neighbour to
/// neighbour and enters no cell twice.
pub open spec fn is_path(n: usize, start: usize, steps: nat, path: Seq<usize>) -> bool {
    &&& path.len() == steps + 1
    &&& path[0] == start
    &&& path.no_duplicates()
    &&& forall|i: int| 0 <= i < path.len() ==> #[trigger] path[i] < n * n
    &&& forall|i: int| 0 <= i < path.len() - 1 ==> linked(n, #[trigger] path[i], path[i + 1])
}

/// A neighbour lies in the square.
pub proof fn lemma_neighbour(n: usize, cell: usize, turn: int)
    requires
        0 < n,
        n * n <= usize::MAX,
        cell < n * n,
    ensures
        neighbour(n, cell, turn) matches Some(next) ==> next < n * n,
        cell / n < n,
        cell % n < n,
        0 <= (cell / n) * n + cell % n + 1 <= n * n,
        0 <= (cell / n + 1) * n + cell % n,
        cell / n + 1 < n ==> (cell / n + 1) * n + cell % n < n * n,
        cell / n > 0 ==> 0 <= (cell / n - 1) * n + cell % n < n * n,
{
    let x = (cell % n) as int;
    let y = (cell / n) as int;
    let side = n as int;
    assert(cell == side * y + x && 0 <= x < side) by {
        vstd::arithmetic::div_mod::lemma_fundamental_div_mod(cell as int, side);
    }
    assert(0 <= y < side) by (nonlinear_arith)
        requires
            cell == side * y + x,
            0 <= x < side,
            0 <= cell < side * side,
    ;
    assert(y * side + x + 1 <= side * side && 0 <= y * side) by (nonlinear_arith)
        requires
            0 <= y < side,
            0 <= x < side,
    ;
    assert((y + 1) * side + x == y * side + x + side) by (nonlinear_arith);
    assert((y - 1) * side + x == y * side + x - side) by (nonlinear_arith);
    assert(y + 1 < side ==> (y + 1) * side + x < side * side) by (nonlinear_arith)
        requires
            0 <= y,
            0 <= x < side,
    ;
    assert(y > 0 ==> 0 <= (y - 1) * side) by (nonlinear_arith)
        requires
            0 < side,
    ;
}

/// The cells of a path, as a set of indices.
pub open spec fn path_cells(path: Seq<usize>) -> Set<int> {
    Set::new(|cell: int| exists|i: int| 0 <= i < path.len() && path[i] == cell)
}

/// A path that enters no cell twice and stays below `bound` has at most
/// `bound` cells.
pub proof fn lemma_path_length(path: Seq<usize>, bound: nat)
    requires
        path.no_duplicates(),
        forall|i: int| 0 <= i < path.len() ==> #[trigger] path[i] < bound,
    ensures
        path.len() == picked_sum(ones(bound), path_cells(path), bound),
        path.len() <= bound,
    decreases path.len(),
{
    if path.len() == 0 {
        assert(path_cells(path) =~= Set::<int>::empty());
        lemma_picked_sum_empty(ones(bound), bound);
    } else {
        let front = path.drop_last();
        lemma_path_length(front, bound);
        assert(path_cells(path) =~= path_cells(front).insert(path.last() as int)) by {
            assert forall|cell: int| path_cells(path).contains(cell) implies path_cells(
                front,
            ).insert(path.last() as int).contains(cell) by {
                let i = choose|i: int| 0 <= i < path.len() && path[i] == cell;
                if i < front.len() {
                    assert(front[i] == cell);
                }
            }
            assert forall|cell: int|
                path_cells(front).insert(path.last() as int).contains(cell) implies path_cells(
                path,
            ).contains(cell) by {
                if cell == path.last() {
                    assert(path[path.len() - 1] == cell);
                } else {
                    let i = choose|i: int| 0 <= i < front.len() && front[i] == cell;
                    assert(path[i] == cell);
                }
            }
        }
        assert(!path_cells(front).contains(path.last() as int)) by {
            if path_cells(front).contains(path.last() as int) {
                let i = choose|i: int| 0 <= i < front.len() && front[i] == path.last();
                assert(path[i] == path[path.len() - 1]);
            }
        }
        lemma_picked_sum_insert(ones(bound), path_cells(front), path.last() as int, bound);
    }
    lemma_picked_sum_bound(ones(bound), path_cells(path), bound);
    lemma_ones_sum(bound, bound);
}

/// A turn from a path gives nothing or a path one step longer.
pub proof fn lemma_turn_to(n: usize, start: usize, steps: nat, path: Seq<usize>, turn: int)
    requires
        0 < n,
        n * n <= usize::MAX,
        is_path(n, start, steps, path),
        0 <= turn < 4,
    ensures
        forall|j: int|
            0 <= j < turn_to(n, path, turn).len() ==> is_path(
                n,
                start,
                steps + 1,
                #[trigger] turn_to(n, path, turn)[j],
            ),
{
    lemma_neighbour(n, path.last(), turn);
    match neighbour(n, path.last(), turn) {
        Some(cell) => {
            if !path.contains(cell) {
                let longer = path.push(cell);
                assert(longer.no_duplicates()) by {
                    assert forall|i: int, j: int|
                        0 <= i < longer.len() && 0 <= j < longer.len() && i != j implies longer[i]
                        != longer[j] by {
                        if i == path.len() {
                            assert(path[j] == longer[j]);
                        } else if j == path.len() {
                            assert(path[i] == longer[i]);
                        }
                    }
                }
                assert forall|i: int| 0 <= i < longer.len() - 1 implies linked(
                    n,
                    #[trigger] longer[i],
                    longer[i + 1],
                ) by {
                    if i == path.len() - 1 {
                        assert(neighbour(n, longer[i], turn) == Some(longer[i + 1]));
                    } else {
                        assert(linked(n, path[i], path[i + 1]));
                    }
                }
            }
        },
        None => {},
    }
}

/// The turns from a path give paths one step longer.
pub proof fn lemma_longer_paths(n: usize, start: usize, steps: nat, path: Seq<usize>, turns: nat)
    requires
        0 < n,
        n * n <= usize::MAX,
        is_path(n, start, steps, path),
        turns <= 4,
    ensures
        forall|j: int|
            0 <= j < longer_paths(n, path, turns).len() ==> is_path(
                n,
                start,
                steps + 1,
                #[trigger] longer_paths(n, path, turns)[j],
            ),
    decreases turns,
{
    if turns > 0 {
        lemma_longer_paths(n, start, steps, path, (turns - 1) as nat);
        lemma_turn_to(n, start, steps, path, turns - 1);
        let front = longer_paths(n, path, (turns - 1) as nat);
        let all = longer_paths(n, path, turns);
        assert forall|j: int| 0 <= j < all.len() implies is_path(
            n,
            start,
            steps + 1,
            #[trigger] all[j],
        ) by {
            if j < front.len() {
                assert(all[j] == front[j]);
            } else {
                assert(all[j] == turn_to(n, path, turns - 1)[j - front.len()]);
            }
        }
    }
}

/// Extending paths gives paths one step longer.
pub proof fn lemma_extend_paths(n: usize, start: usize, steps: nat, paths: Seq<Seq<usize>>)
    requires
        0 < n,
        n * n <= usize::MAX,
        forall|j: int| 0 <= j < paths.len() ==> is_path(n, start, steps, #[trigger] paths[j]),
    ensures
        forall|j: int|
            0 <= j < extend_paths(n, paths).len() ==> is_path(
                n,
                start,
                steps + 1,
                #[trigger] extend_paths(n, paths)[j],
            ),
    decreases paths.len(),
{
    if paths.len() > 0 {
        let front = paths.drop_last();
        assert forall|j: int| 0 <= j < front.len() implies is_path(
            n,
            start,
            steps,
            #[trigger] front[j],
        ) by {
            assert(front[j] == paths[j]);
        }
        lemma_extend_paths(n, start, steps, front);
        assert(is_path(n, start, steps, paths[paths.len() - 1]));
        lemma_longer_paths(n, start, steps, paths.last(), 4);
        let grown = extend_paths(n, front);
        let all = extend_paths(n, paths);
        assert forall|j: int| 0 <= j < all.len() implies is_path(
            n,
            start,
            steps + 1,
            #[trigger] all[j],
        ) by {
            if j < grown.len() {
                assert(all[j] == grown[j]);
            } else {
                assert(all[j] == longer_paths(n, paths.last(), 4)[j - grown.len()]);
            }
        }
    }
}

/// Every path found after `steps` steps is a path of that many steps from
/// `start`, and no path takes as many steps as the square has cells.
pub proof fn lemma_paths_at(n: usize, start: usize, steps: nat)
    requires
        0 < n,
        n * n <= usize::MAX,
        start < n * n,
    ensures
        forall|j: int|
            0 <= j < paths_at(n, start, steps).len() ==> is_path(
                n,
                start,
                steps,
                #[trigger] paths_at(n, start, steps)[j],
            ),
        paths_at(n, start, steps).len() > 0 ==> steps < n * n,
    decreases steps,
{
    if steps > 0 {
        lemma_paths_at(n, start, (steps - 1) as nat);
        lemma_extend_paths(n, start, (steps - 1) as nat, paths_at(n, start, (steps - 1) as nat));
    }
    if paths_at(n, start, steps).len() > 0 {
        let path = paths_at(n, start, steps)[0];
        assert(is_path(n, start, steps, path));
        lemma_path_length(path, (n * n) as nat);
    }
}

/// The cell sequences of a list of paths.
pub open spec fn path_views(paths: Seq<Vec<usize>>) -> Seq<Seq<usize>> {
    paths.map_values(|path: Vec<usize>| path@)
}

/// Whether `cell` occurs in `path`.
fn visits(path: &Vec<usize>, cell: usize) -> (found: bool)
    ensures
        found == path@.contains(cell),
{
    let mut i: usize = 0;
    while i < path.len()
        invariant
            i <= path.len(),
            forall|j: int| 0 <= j < i ==> path@[j] != cell,
        decreases path.len() - i,
    {
        if path[i] == cell {
            return true;
        }
        i = i + 1;
    }
    false
}

/// The path with one more cell at its end.
fn lengthened(path: &Vec<usize>, cell: usize) -> (longer: Vec<usize>)
    ensures
        longer@ == path@.push(cell),
{
    let mut longer: Vec<usize> = Vec::new();
    let mut i: usize = 0;
    while i < path.len()
        invariant
            i <= path.len(),
            longer@ == path@.take(i as int),
        decreases path.len() - i,
    {
        longer.push(path[i]);
        assert(path@.take(i + 1) =~= path@.take(i as int).push(path@[i as int]));
        i = i + 1;
    }
    assert(path@.take(i as int) =~= path@);
    longer.push(cell);
    longer
}

/// The neighbour of a cell that a turn looks at, if it lies in the square.
fn neighbour_of(n: usize, cell: usize, turn: usize) -> (next: Option<usize>)
    requires
        0 < n,
        n * n <= usize::MAX,
        cell < n * n,
        turn < 4,
    ensures
        next == neighbour(n, cell, turn as int),
{
    proof {
        lemma_neighbour(n, cell, turn as int);
    }
    let x = cell % n;
    let y = cell / n;
    if turn == 0 {
        if x + 1 < n {
            Some(y * n + x + 1)
        } else {
            None
        }
    } else if turn == 1 {
        if x > 0 {
            Some(y * n + x - 1)
        } else {
            None
        }
    } else if turn == 2 {
        if y + 1 < n {
            Some((y + 1) * n + x)
        } else {
            None
        }
    } else {
        if y > 0 {
            Some((y - 1) * n + x)
        } else {
            None
        }
    }
}

/// Lists the longest paths from the cell `start` through a square of side
/// `n` whose cells are numbered row by row: paths that go from neighbour to
/// neighbour and enter no cell twice.
///
/// The paths are found step by step: all paths of one step, then all of two
/// steps, and so on, until no path can be made longer. The result is the
/// last list that holds a path; it is never empty, and all its paths have
/// the same number of cells.
pub fn make_paths(n: usize, start: usize) -> (paths: Vec<Vec<usize>>)
    requires
        0 < n,
        n * n <= usize::MAX,
        start < n * n,
    ensures
        path_views(paths@) == longest_paths(n, start),
        paths.len() > 0,
        is_longest(n, start, (paths[0].len() - 1) as nat),
        forall|j: int|
            0 <= j < paths.len() ==> is_path(
                n,
                start,
                (paths[0].len() - 1) as nat,
                #[trigger] paths[j]@,
            ),
{
    let mut first: Vec<usize> = Vec::new();
    first.push(start);
    let mut states: Vec<Vec<usize>> = Vec::new();
    states.push(first);
    let ghost mut steps: nat = 0;
    assert(path_views(states@) =~= paths_at(n, start, 0));
    loop
        invariant_except_break
            path_views(states@) == paths_at(n, start, steps),
            states.len() > 0,
        invariant
            0 < n,
            n * n <= usize::MAX,
            start < n * n,
            steps <= n * n,
        ensures
            path_views(states@) == paths_at(n, start, steps),
            states.len() > 0,
            paths_at(n, start, steps + 1).len() == 0,
        decreases n * n - steps,
    {
        let ghost now = path_views(states@);
        proof {
            lemma_paths_at(n, start, steps);
        }
        let mut next_states: Vec<Vec<usize>> = Vec::new();
        let mut i: usize = 0;
        assert(path_views(next_states@) =~= extend_paths(n, now.take(0)));
        while i < states.len()
            invariant
                i <= states.len(),
                0 < n,
                n * n <= usize::MAX,
                now == path_views(states@),
                forall|j: int| 0 <= j < now.len() ==> is_path(n, start, steps, #[trigger] now[j]),
                path_views(next_states@) == extend_paths(n, now.take(i as int)),
            decreases states.len() - i,
        {
            let path = &states[i];
            assert(now[i as int] == path@);
            assert(is_path(n, start, steps, path@));
            let cell = path[path.len() - 1];
            let ghost before = path_views(next_states@);
            let mut turn: usize = 0;
            while turn < 4
                invariant
                    turn <= 4,
                    0 < n,
                    n * n <= usize::MAX,
                    cell < n * n,
                    path@.len() > 0,
                    cell == path@.last(),
                    path_views(next_states@) == before + longer_paths(n, path@, turn as nat),
                decreases 4 - turn,
            {
                let ghost so_far = path_views(next_states@);
                if let Some(to) = neighbour_of(n, cell, turn) {
                    if !visits(path, to) {
                        next_states.push(lengthened(path, to));
                        assert(path_views(next_states@) =~= so_far.push(path@.push(to)));
                    }
                }
                assert(path_views(next_states@) =~= so_far + turn_to(n, path@, turn as int));
                assert(path_views(next_states@) =~= before + longer_paths(
                    n,
                    path@,
                    (turn + 1) as nat,
                ));
                turn = turn + 1;
            }
            assert(now.take(i + 1).drop_last() =~= now.take(i as int));
            i = i + 1;
        }
        assert(now.take(i as int) =~= now);
        if next_states.len() == 0 {
            break;
        }
        proof {
            steps = steps + 1;
            lemma_paths_at(n, start, steps);
        }
        states = next_states;
    }
    proof {
        lemma_paths_at(n, start, steps);
        assert(path_views(states@)[0] == states[0]@);
        lemma_longest_steps(n, start, steps);
        assert forall|j: int| 0 <= j < states.len() implies is_path(
            n,
            start,
            steps,
            #[trigger] states[j]@,
        ) by {
            assert(path_views(states@)[j] == states[j]@);
        }
    }
    states
}

} // verus!
