//! The search as a whole: through the regions of one route, and over all
//! routes that the partition offers from the start cell.

use vstd::arithmetic::div_mod::lemma_fundamental_div_mod_converse;
use vstd::prelude::*;
use crate::boundary::{boundary_states, calc_edge0, calc_edge1, Axis};
use crate::expand::{
    better, calc_bulk, lemma_best_grows, lemma_nothing_is_walk, nothing, record_of, region_best,
    scored_walk, search_best, sound_best,
};
use crate::grid::{lemma_index_in_bounds, Grid, GridView};
use crate::schedule::{
    boundary_between, crossing, find_region, first_holding, is_path, lemma_first_holding,
    lemma_neighbour, lemma_paths_at, linked, longest_paths, longest_steps, make_paths,
    make_ranges, neighbour, nonempty, parts, region_at, regions_of,
};
use crate::state::{
    all_follow, all_walks, in_region, lemma_walk_state, views, Region, State, StateView,
};
use crate::walk::{lemma_walk_score_grows, walk_ok, walk_score};

verus! {

/// What the search has on record when it has passed through the regions of
/// `route` from the one at index `at` on, starting there from `states` with
/// `best` on record.
///
/// Each region but the last is searched up to the boundary towards the next
/// one, and the states that reached the boundary start the search of the
/// next region. When no state reached the boundary, or when the last region
/// is reached, the unrestricted search from the states at hand finishes.
/// Every state of every generation of every search is held against the
/// record.
pub open spec fn hop(
    g: GridView,
    k: nat,
    route: Seq<Region>,
    at: nat,
    states: Seq<StateView>,
    best: (int, Seq<char>),
) -> (int, Seq<char>)
    decreases route.len() - at,
{
    if at + 1 >= route.len() {
        better(best, search_best(g, k, states))
    } else {
        let edge = crossing(route[at as int], route[at as int + 1]);
        let seen = region_best(best, g, route[at as int], k, states);
        let reached = boundary_states(g, route[at as int], k, states, edge.0, edge.1);
        if reached.len() == 0 {
            better(seen, search_best(g, k, states))
        } else {
            hop(g, k, route, at + 1, reached, seen)
        }
    }
}

/// The record never falls below what it held before the search.
pub proof fn lemma_hop_grows(
    g: GridView,
    k: nat,
    route: Seq<Region>,
    at: nat,
    states: Seq<StateView>,
    best: (int, Seq<char>),
)
    ensures
        best.0 <= hop(g, k, route, at, states, best).0,
    decreases route.len() - at,
{
    if at + 1 < route.len() {
        let edge = crossing(route[at as int], route[at as int + 1]);
        let seen = region_best(best, g, route[at as int], k, states);
        let reached = boundary_states(g, route[at as int], k, states, edge.0, edge.1);
        lemma_best_grows(best, g, route[at as int], k, states, 0, g.cells());
        if reached.len() > 0 {
            lemma_hop_grows(g, k, route, at + 1, reached, seen);
        }
    }
}

/// Independent copies of the states, in order.
fn copy_states(states: &Vec<State>) -> (copies: Vec<State>)
    ensures
        views(copies@) == views(states@),
{
    let mut copies: Vec<State> = Vec::new();
    let mut i: usize = 0;
    while i < states.len()
        invariant
            i <= states.len(),
            views(copies@) == views(states@).take(i as int),
        decreases states.len() - i,
    {
        let ghost before = views(copies@);
        copies.push(states[i].duplicate());
        assert(views(copies@) =~= before.push(states@[i as int]@));
        assert(views(states@).take(i + 1) =~= views(states@).take(i as int).push(
            states@[i as int]@,
        ));
        i = i + 1;
    }
    assert(views(states@).take(i as int) =~= views(states@));
    copies
}

/// Searches from `state` through the regions of `ranges` in order and
/// reports the best score seen with its move log.
///
/// Each region but the last is searched up to the boundary that leads to
/// the next region, and the best states on that boundary carry the search
/// on. If no state reaches a boundary, the regions that remain are given up
/// and the unrestricted search goes on from the states that entered the
/// region; it also finishes the search after the last crossing. The report
/// is the best of all states seen in any round of any of these searches,
/// the one seen first among equals.
pub fn calc(state: State, grid: &Grid, ranges: &[Region], width: usize) -> (best: (u32, String))
    requires
        grid@.wf(),
        state@.is_walk(grid@),
        forall|i: int| 0 <= i < ranges@.len() ==> nonempty(#[trigger] ranges@[i]),
    ensures
        record_of(best) == hop(grid@, width as nat, ranges@, 0, seq![state@], nothing()),
        forall|start: (int, int)| state@.follows(grid@, start) ==> scored_walk(grid@, start, record_of(best)),
{
    let ghost g = grid@;
    let ghost k = width as nat;
    let ghost seed = state@;
    let mut states: Vec<State> = Vec::new();
    states.push(state);
    assert(views(states@) =~= seq![seed]);
    let mut best: (u32, String) = (0, String::new());
    let mut at: usize = 0;
    while ranges.len() - at > 1
        invariant
            at <= ranges.len(),
            g == grid@,
            g.wf(),
            k == width,
            seed == state@,
            states.len() > 0,
            all_walks(g, views(states@)),
            forall|i: int| 0 <= i < ranges@.len() ==> nonempty(#[trigger] ranges@[i]),
            hop(g, k, ranges@, at as nat, views(states@), record_of(best)) == hop(
                g,
                k,
                ranges@,
                0,
                seq![seed],
                nothing(),
            ),
            forall|start: (int, int)|
                seed.follows(g, start) ==> all_follow(g, start, views(states@)) && sound_best(
                    g,
                    start,
                    record_of(best),
                ),
        decreases ranges.len() - at,
    {
        assert(nonempty(ranges@[at as int]));
        let (axis, line) = boundary_between(&ranges[at], &ranges[at + 1]);
        let reached = match axis {
            Axis::Row => calc_edge0(
                copy_states(&states),
                grid,
                &ranges[at],
                line,
                width,
                &mut best,
            ),
            Axis::Column => calc_edge1(
                copy_states(&states),
                grid,
                &ranges[at],
                line,
                width,
                &mut best,
            ),
        };
        if reached.len() == 0 {
            return finish(states, grid, width, best);
        }
        states = reached;
        at = at + 1;
    }
    finish(states, grid, width, best)
}

/// Finishes a search with the unrestricted search from `states` and reports
/// the better of its result and the record `best`, the record among equals.
fn finish(states: Vec<State>, grid: &Grid, width: usize, best: (u32, String)) -> (report: (
    u32,
    String,
))
    requires
        grid@.wf(),
        states.len() > 0,
        all_walks(grid@, views(states@)),
    ensures
        record_of(report) == better(
            record_of(best),
            search_best(grid@, width as nat, views(states@)),
        ),
        forall|start: (int, int)|
            all_follow(grid@, start, views(states@)) && sound_best(grid@, start, record_of(best))
                ==> scored_walk(grid@, start, record_of(report)),
{
    let found = calc_bulk(states, grid, width);
    proof {
        assert forall|start: (int, int)|
            all_follow(grid@, start, views(states@)) && sound_best(
                grid@,
                start,
                record_of(best),
            ) && found.0 <= best.0 implies scored_walk(grid@, start, record_of(best)) by {
            if record_of(best) == nothing() {
                lemma_nothing_is_walk(grid@, start, record_of(found));
            }
        }
    }
    if found.0 > best.0 {
        found
    } else {
        best
    }
}

/// Whether the cut points divide an axis of the given length without gaps:
/// they begin at zero, end at the length and grow strictly.
pub open spec fn covers(cuts: Seq<usize>, side: nat) -> bool {
    &&& cuts.len() >= 2
    &&& cuts[0] == 0
    &&& cuts.last() == side
    &&& growing(cuts)
}

/// Whether each cut point is greater than the one before.
pub open spec fn growing(cuts: Seq<usize>) -> bool {
    forall|i: int| 0 <= i < cuts.len() - 1 ==> #[trigger] cuts[i] < cuts[i + 1]
}

/// The routes through the regions from the region `home`: each longest path
/// through the square of regions, with the regions in place of their
/// indices.
pub open spec fn routes(cuts: Seq<usize>, home: usize) -> Seq<Seq<Region>> {
    longest_paths(parts(cuts) as usize, home).map_values(
        |path: Seq<usize>| path.map_values(|cell: usize| regions_of(cuts)[cell as int]),
    )
}

/// The region sequences of a list of routes.
pub open spec fn route_views(orders: Seq<Vec<Region>>) -> Seq<Seq<Region>> {
    orders.map_values(|order: Vec<Region>| order@)
}

/// A coordinate between the first and the last cut point lies between two
/// cut points that follow each other.
pub proof fn lemma_cut_holds(cuts: Seq<usize>, c: int) -> (i: int)
    requires
        cuts.len() >= 2,
        cuts[0] <= c < cuts.last(),
    ensures
        0 <= i < cuts.len() - 1,
        cuts[i] <= c < cuts[i + 1],
    decreases cuts.len(),
{
    let before = cuts.len() - 2;
    if cuts[before] <= c {
        before
    } else {
        lemma_cut_holds(cuts.drop_last(), c)
    }
}

/// A cell between the first and the last cut point on both axes lies in a
/// region.
pub proof fn lemma_start_is_held(cuts: Seq<usize>, p: (int, int))
    requires
        cuts.len() >= 2,
        cuts[0] <= p.0 < cuts.last(),
        cuts[0] <= p.1 < cuts.last(),
    ensures
        first_holding(regions_of(cuts), p) is Some,
{
    let n = parts(cuts);
    let i = lemma_cut_holds(cuts, p.0);
    let j = lemma_cut_holds(cuts, p.1);
    let at = i * n + j;
    lemma_index_in_bounds(n, (i, j));
    lemma_fundamental_div_mod_converse(at, n as int, i, j);
    assert(regions_of(cuts)[at] == region_at(cuts, i, j));
    assert(in_region(regions_of(cuts)[at], p));
    lemma_first_holding(regions_of(cuts), p);
}

/// With growing cut points every region holds a cell.
pub proof fn lemma_regions_nonempty(cuts: Seq<usize>, at: int)
    requires
        growing(cuts),
        0 <= at < parts(cuts) * parts(cuts),
        parts(cuts) * parts(cuts) <= usize::MAX,
    ensures
        nonempty(regions_of(cuts)[at]),
{
    let n = parts(cuts);
    assert(0 < n <= n * n) by (nonlinear_arith)
        requires
            0 <= at < n * n,
    ;
    lemma_neighbour(n as usize, at as usize, 0);
}

/// Whether the boundary through which `cur` is left for `next` lies in
/// `cur` along the edge that the two regions share: the regions agree on
/// the other axis, and one step across the line leads from `cur` into
/// `next`.
pub open spec fn leads_on(cur: Region, next: Region) -> bool {
    let edge = crossing(cur, next);
    match edge.0 {
        Axis::Column => {
            &&& cur.0 == next.0
            &&& cur.1.start <= edge.1 < cur.1.end
            &&& (edge.1 + 1 == cur.1.end && next.1.start == cur.1.end) || (edge.1 == cur.1.start
                && next.1.end == cur.1.start)
        },
        Axis::Row => {
            &&& cur.1 == next.1
            &&& cur.0.start <= edge.1 < cur.0.end
            &&& (edge.1 + 1 == cur.0.end && next.0.start == cur.0.end) || (edge.1 == cur.0.start
                && next.0.end == cur.0.start)
        },
    }
}

/// Cut points that grow keep their order over any distance.
pub proof fn lemma_growing(cuts: Seq<usize>, i: int, j: int)
    requires
        growing(cuts),
        0 <= i < j < cuts.len(),
    ensures
        cuts[i] < cuts[j],
    decreases j - i,
{
    if i + 1 < j {
        lemma_growing(cuts, i, j - 1);
    }
}

/// Between the regions of two neighbouring cells of the square of regions
/// the boundary lies along their shared edge.
pub proof fn lemma_neighbours_lead_on(cuts: Seq<usize>, a: usize, b: usize)
    requires
        growing(cuts),
        0 < parts(cuts) <= usize::MAX,
        parts(cuts) * parts(cuts) <= usize::MAX,
        a < parts(cuts) * parts(cuts),
        linked(parts(cuts) as usize, a, b),
    ensures
        b < parts(cuts) * parts(cuts),
        leads_on(regions_of(cuts)[a as int], regions_of(cuts)[b as int]),
{
    let n = parts(cuts) as int;
    let side = n as usize;
    let turn = choose|turn: int| 0 <= turn < 4 && neighbour(side, a, turn) == Some(b);
    lemma_neighbour(side, a, turn);
    let x = (a % side) as int;
    let y = (a / side) as int;
    if turn == 0 {
        lemma_fundamental_div_mod_converse(b as int, n, y, x + 1);
        lemma_growing(cuts, x, x + 1);
        lemma_growing(cuts, x + 1, x + 2);
    } else if turn == 1 {
        lemma_fundamental_div_mod_converse(b as int, n, y, x - 1);
        lemma_growing(cuts, x - 1, x);
        lemma_growing(cuts, x, x + 1);
        lemma_growing(cuts, x - 1, x + 1);
    } else if turn == 2 {
        lemma_fundamental_div_mod_converse(b as int, n, y + 1, x);
        lemma_growing(cuts, y, y + 1);
        lemma_growing(cuts, y + 1, y + 2);
    } else {
        lemma_fundamental_div_mod_converse(b as int, n, y - 1, x);
        lemma_growing(cuts, y - 1, y);
        lemma_growing(cuts, y, y + 1);
        lemma_growing(cuts, y - 1, y + 1);
    }
}

/// Along every route each region is left through the edge that it shares
/// with the region that follows.
pub proof fn lemma_routes_lead_on(cuts: Seq<usize>, home: usize, which: int, at: int)
    requires
        growing(cuts),
        0 < parts(cuts),
        parts(cuts) * parts(cuts) <= usize::MAX,
        home < parts(cuts) * parts(cuts),
        0 <= which < routes(cuts, home).len(),
        0 <= at < routes(cuts, home)[which].len() - 1,
    ensures
        leads_on(routes(cuts, home)[which][at], routes(cuts, home)[which][at + 1]),
{
    let n = parts(cuts);
    assert(n <= n * n) by (nonlinear_arith)
        requires
            0 < n,
    ;
    let side = n as usize;
    let steps = longest_steps(side, home);
    lemma_paths_at(side, home, steps);
    let path = longest_paths(side, home)[which];
    assert(is_path(side, home, steps, path));
    assert(linked(side, path[at], path[at + 1]));
    lemma_neighbours_lead_on(cuts, path[at], path[at + 1]);
}

/// A copy of the region.
fn copy_region(region: &Region) -> (copy: Region)
    ensures
        copy == *region,
{
    (region.0.start..region.0.end, region.1.start..region.1.end)
}

/// Lists the routes through the regions that a search from `start` may
/// take: the regions are those that the cut points make of the grid, and a
/// route is a longest path from the region of `start` that goes from region
/// to neighbouring region and enters none twice.
pub fn schedule_for(start: (usize, usize), cuts: &[usize]) -> (orders: Vec<Vec<Region>>)
    requires
        cuts@.len() >= 2,
        growing(cuts@),
        cuts@[0] <= start.0 < cuts@.last(),
        cuts@[0] <= start.1 < cuts@.last(),
    ensures
        first_holding(regions_of(cuts@), (start.0 as int, start.1 as int)) matches Some(home)
            && route_views(orders@) == routes(cuts@, home as usize),
        orders.len() > 0,
        forall|i: int, j: int|
            0 <= i < orders.len() && 0 <= j < orders[i].len() ==> nonempty(#[trigger] orders[i][j]),
{
    let ranges = make_ranges(cuts);
    let n = cuts.len() - 1;
    let count = ranges.len();
    proof {
        lemma_start_is_held(cuts@, (start.0 as int, start.1 as int));
    }
    let home = find_region(&ranges, start).unwrap();
    let paths = make_paths(n, home);
    let ghost steps = (paths[0].len() - 1) as nat;
    let mut orders: Vec<Vec<Region>> = Vec::new();
    let mut i: usize = 0;
    while i < paths.len()
        invariant
            i <= paths.len(),
            n == parts(cuts@),
            growing(cuts@),
            n * n <= usize::MAX,
            ranges@ == regions_of(cuts@),
            ranges@.len() == n * n,
            forall|j: int| 0 <= j < paths.len() ==> is_path(n, home, steps, #[trigger] paths[j]@),
            orders.len() == i,
            forall|a: int|
                0 <= a < i ==> (#[trigger] orders[a])@ == paths[a]@.map_values(
                    |cell: usize| regions_of(cuts@)[cell as int],
                ),
            forall|a: int, b: int|
                0 <= a < orders.len() && 0 <= b < orders[a].len() ==> nonempty(
                    #[trigger] orders[a][b],
                ),
        decreases paths.len() - i,
    {
        let path = &paths[i];
        assert(is_path(n, home, steps, path@));
        let mut order: Vec<Region> = Vec::new();
        let mut j: usize = 0;
        while j < path.len()
            invariant
                j <= path.len(),
                n == parts(cuts@),
                growing(cuts@),
                n * n <= usize::MAX,
                ranges@ == regions_of(cuts@),
                ranges@.len() == n * n,
                forall|b: int| 0 <= b < path.len() ==> #[trigger] path[b] < n * n,
                order.len() == j,
                forall|b: int| 0 <= b < j ==> #[trigger] order[b] == regions_of(cuts@)[path[b] as int],
                forall|b: int| 0 <= b < j ==> nonempty(#[trigger] order[b]),
            decreases path.len() - j,
        {
            let cell = path[j];
            proof {
                lemma_regions_nonempty(cuts@, cell as int);
            }
            order.push(copy_region(&ranges[cell]));
            j = j + 1;
        }
        assert(order@ =~= path@.map_values(|cell: usize| regions_of(cuts@)[cell as int]));
        orders.push(order);
        i = i + 1;
    }
    assert(route_views(orders@) =~= routes(cuts@, home));
    orders
}

/// The results of the searches along each of the routes, in order.
pub open spec fn route_results(
    g: GridView,
    k: nat,
    all: Seq<Seq<Region>>,
    seed: StateView,
) -> Seq<(int, Seq<char>)> {
    all.map_values(|route: Seq<Region>| hop(g, k, route, 0, seq![seed], nothing()))
}

/// The best of the results in order: a result replaces the best so far
/// only if it scores strictly more.
pub open spec fn pick_best(best: (int, Seq<char>), found: Seq<(int, Seq<char>)>) -> (int, Seq<char>)
    decreases found.len(),
{
    if found.len() == 0 {
        best
    } else {
        let before = pick_best(best, found.drop_last());
        if found.last().0 > before.0 {
            found.last()
        } else {
            before
        }
    }
}

/// What the whole search from `start` reports: the best of the results
/// along the routes from the region of `start`, in the order of the routes;
/// score zero with an empty log stands until a result scores more.
pub open spec fn run_best(g: GridView, k: nat, cuts: Seq<usize>, start: (int, int)) -> (
    int,
    Seq<char>,
) {
    match first_holding(regions_of(cuts), start) {
        Some(home) => pick_best(
            (0, Seq::empty()),
            route_results(g, k, routes(cuts, home as usize), StateView::seed(g, start)),
        ),
        None => (0, Seq::empty()),
    }
}

/// Searches the grid from `start` for a walk of high value and reports the
/// best score found with the moves that reach it.
///
/// The grid is divided into regions at the cut points `cuts`. Along every
/// route through the regions from the region of `start` a beam search of
/// width `width` is run, and the best result of all routes is reported,
/// the earlier one among equals. The moves reported form a legal walk from
/// `start` whose values add up to the score reported.
pub fn run(start: (usize, usize), grid: &Grid, cuts: &[usize], width: usize) -> (best: (
    u32,
    String,
))
    requires
        grid@.wf(),
        grid@.inside((start.0 as int, start.1 as int)),
        covers(cuts@, grid@.side),
    ensures
        (best.0 as int, best.1@) == run_best(
            grid@,
            width as nat,
            cuts@,
            (start.0 as int, start.1 as int),
        ),
        walk_ok(grid@, (start.0 as int, start.1 as int), best.1@),
        walk_score(grid@, (start.0 as int, start.1 as int), best.1@) == best.0,
{
    let ghost g = grid@;
    let ghost k = width as nat;
    let ghost origin = (start.0 as int, start.1 as int);
    let orders = schedule_for(start, cuts);
    let state = State::seed(grid, start);
    let ghost seed = state@;
    let ghost found = route_results(g, k, route_views(orders@), seed);
    let mut best_score: u32 = 0;
    let mut best = String::new();
    let mut i: usize = 0;
    while i < orders.len()
        invariant
            i <= orders.len(),
            g == grid@,
            g.wf(),
            k == width,
            g.inside(origin),
            seed == state@,
            seed.follows(g, origin),
            found == route_results(g, k, route_views(orders@), seed),
            forall|a: int, b: int|
                0 <= a < orders.len() && 0 <= b < orders[a].len() ==> nonempty(
                    #[trigger] orders[a][b],
                ),
            (best_score as int, best@) == pick_best(nothing(), found.take(i as int)),
            i == 0 ==> best_score == 0 && best@ == Seq::<char>::empty(),
            i > 0 ==> walk_ok(g, origin, best@) && walk_score(g, origin, best@) == best_score,
        decreases orders.len() - i,
    {
        let order = &orders[i];
        assert forall|b: int| 0 <= b < order@.len() implies nonempty(#[trigger] order@[b]) by {
            assert(nonempty(orders[i as int][b]));
        }
        let result = calc(state.duplicate(), grid, order.as_slice(), width);
        proof {
            assert(found.take(i + 1).drop_last() =~= found.take(i as int));
            assert(found[i as int] == (result.0 as int, result.1@));
            lemma_walk_score_grows(g, origin, result.1@);
            lemma_walk_state(g, seed);
        }
        if result.0 > best_score {
            best_score = result.0;
            best = result.1;
        }
        i = i + 1;
    }
    assert(found.take(i as int) =~= found);
    (best_score, best)
}

} // verus!
