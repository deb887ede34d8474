//! Expansion within a region, capturing the states that reach a boundary.
//!
//! While a region is searched, every state that stands on the boundary line
//! is recorded under its coordinate along that line. Of the states recorded
//! under one coordinate only the best is kept: a later state replaces the
//! one held only if it scores strictly more. The states kept are handed on
//! in ascending order of their coordinate.

use std::collections::HashMap;
use vstd::prelude::*;
use vstd::std_specs::hash::*;
use crate::expand::{
    best_before, best_of, expand, generation, lemma_best_sound, lemma_generation,
    lemma_search_settles, record_of, region_best, sound_best,
};
use crate::frontier::{beam_fill, children, lemma_beam_fill_concat, move_4, Frontier};
use crate::grid::{Grid, GridView};
use crate::state::{
    all_follow, all_walks, lemma_walk_state, views, Region, State, StateView,
};

verus! {

broadcast use group_hash_axioms;

/// The direction in which a coordinate is fixed by a boundary line.
#[derive(Clone, Copy, Debug, PartialEq, Eq, Structural)]
pub enum Axis {
    /// The boundary is a row; states on it differ by their column.
    Row,
    /// The boundary is a column; states on it differ by their row.
    Column,
}

/// The coordinate of `p` that a boundary line along `axis` fixes.
pub open spec fn along(axis: Axis, p: (int, int)) -> int {
    match axis {
        Axis::Row => p.0,
        Axis::Column => p.1,
    }
}

/// The coordinate of `p` that tells states on one boundary line apart.
pub open spec fn across(axis: Axis, p: (int, int)) -> int {
    match axis {
        Axis::Row => p.1,
        Axis::Column => p.0,
    }
}

/// The boundary record after `s` has been looked at: if `s` stands on the
/// line and either nothing is held under its coordinate or what is held
/// scores strictly less, `s` is held there from now on.
pub open spec fn record(
    edge: Map<int, StateView>,
    s: StateView,
    axis: Axis,
    line: int,
) -> Map<int, StateView> {
    let key = across(axis, s.pos);
    if along(axis, s.pos) == line && (!edge.contains_key(key) || edge[key].score < s.score) {
        edge.insert(key, s)
    } else {
        edge
    }
}

/// The boundary record after the states of `states` have been looked at in
/// order.
pub open spec fn record_all(
    edge: Map<int, StateView>,
    states: Seq<StateView>,
    axis: Axis,
    line: int,
) -> Map<int, StateView>
    decreases states.len(),
{
    if states.len() == 0 {
        edge
    } else {
        record(record_all(edge, states.drop_last(), axis, line), states.last(), axis, line)
    }
}

/// The boundary record before the given round: empty before the first.
pub open spec fn edge_before(
    g: GridView,
    region: Region,
    k: nat,
    init: Seq<StateView>,
    axis: Axis,
    line: int,
    round: nat,
) -> Map<int, StateView>
    decreases round, 0nat,
{
    if round == 0 {
        Map::empty()
    } else {
        edge_through(g, region, k, init, axis, line, (round - 1) as nat)
    }
}

/// The boundary record after the generations up to and including the given
/// round have been looked at.
pub open spec fn edge_through(
    g: GridView,
    region: Region,
    k: nat,
    init: Seq<StateView>,
    axis: Axis,
    line: int,
    round: nat,
) -> Map<int, StateView>
    decreases round, 1nat,
{
    record_all(
        edge_before(g, region, k, init, axis, line, round),
        generation(g, region, k, init, round),
        axis,
        line,
    )
}

/// The states held under the coordinates below `n`, in ascending order of
/// coordinate.
pub open spec fn in_key_order(edge: Map<int, StateView>, n: nat) -> Seq<StateView>
    decreases n,
{
    if n == 0 {
        Seq::empty()
    } else if edge.contains_key(n - 1) {
        in_key_order(edge, (n - 1) as nat).push(edge[n - 1])
    } else {
        in_key_order(edge, (n - 1) as nat)
    }
}

/// What the search of `region` from `init` with beam width `k` hands on:
/// for each coordinate along the boundary line, in ascending order, the best
/// state that stood on the line there in any generation.
pub open spec fn boundary_states(
    g: GridView,
    region: Region,
    k: nat,
    init: Seq<StateView>,
    axis: Axis,
    line: int,
) -> Seq<StateView> {
    in_key_order(edge_through(g, region, k, init, axis, line, g.cells()), g.side)
}

/// Whether every state held is held under its own coordinate and stands on
/// the line, inside the grid, on a walk.
pub open spec fn edge_sound(g: GridView, edge: Map<int, StateView>, axis: Axis, line: int) -> bool {
    forall|key: int| #[trigger]
        edge.contains_key(key) ==> {
            &&& edge[key].is_walk(g)
            &&& along(axis, edge[key].pos) == line
            &&& across(axis, edge[key].pos) == key
            &&& 0 <= key < g.side
        }
}

/// Whether every state held stands on a walk from `start`.
pub open spec fn edge_follows(g: GridView, edge: Map<int, StateView>, start: (int, int)) -> bool {
    forall|key: int| #[trigger] edge.contains_key(key) ==> edge[key].follows(g, start)
}

/// Recording keeps what the record promises, never loses a coordinate and
/// never lowers the score held under one; and after it every state looked at
/// on the line finds under its coordinate a state scoring at least as much.
pub proof fn lemma_record_all(
    g: GridView,
    edge: Map<int, StateView>,
    states: Seq<StateView>,
    axis: Axis,
    line: int,
)
    requires
        g.wf(),
        all_walks(g, states),
        edge_sound(g, edge, axis, line),
    ensures
        edge_sound(g, record_all(edge, states, axis, line), axis, line),
        forall|start: (int, int)|
            edge_follows(g, edge, start) && all_follow(g, start, states) ==> edge_follows(
                g,
                record_all(edge, states, axis, line),
                start,
            ),
        forall|key: int| #[trigger]
            edge.contains_key(key) ==> record_all(edge, states, axis, line).contains_key(key)
                && record_all(edge, states, axis, line)[key].score >= edge[key].score,
        forall|i: int|
            0 <= i < states.len() && along(axis, (#[trigger] states[i]).pos) == line
                ==> record_all(edge, states, axis, line).contains_key(across(axis, states[i].pos))
                && record_all(edge, states, axis, line)[across(axis, states[i].pos)].score
                >= states[i].score,
    decreases states.len(),
{
    if states.len() > 0 {
        let front = states.drop_last();
        let last = states.last();
        assert(all_walks(g, front)) by {
            assert forall|i: int| 0 <= i < front.len() implies (#[trigger] front[i]).is_walk(
                g,
            ) by {
                assert(front[i] == states[i]);
            }
        }
        lemma_record_all(g, edge, front, axis, line);
        let before = record_all(edge, front, axis, line);
        let after = record_all(edge, states, axis, line);
        assert(last.is_walk(g)) by {
            assert(states[states.len() - 1].is_walk(g));
        }
        lemma_walk_state(g, last);
        assert(edge_sound(g, after, axis, line));
        assert forall|start: (int, int)|
            edge_follows(g, edge, start) && all_follow(g, start, states) implies edge_follows(
            g,
            after,
            start,
        ) by {
            assert(all_follow(g, start, front)) by {
                assert forall|i: int| 0 <= i < front.len() implies (#[trigger] front[i]).follows(
                    g,
                    start,
                ) by {
                    assert(front[i] == states[i]);
                }
            }
            assert(states[states.len() - 1].follows(g, start));
        }
        assert forall|key: int| #[trigger] edge.contains_key(key) implies after.contains_key(key)
            && after[key].score >= edge[key].score by {
            assert(before.contains_key(key));
        }
        assert forall|i: int|
            0 <= i < states.len() && along(axis, (#[trigger] states[i]).pos) == line implies {
            &&& after.contains_key(across(axis, states[i].pos))
            &&& after[across(axis, states[i].pos)].score >= states[i].score
        } by {
            if i < front.len() {
                assert(front[i] == states[i]);
                assert(before.contains_key(across(axis, states[i].pos)));
            }
        }
    }
}

/// The boundary record of every round keeps what the record promises; and
/// if all walks searched from started on one cell, so do the walks held.
pub proof fn lemma_edge_through(
    g: GridView,
    region: Region,
    k: nat,
    init: Seq<StateView>,
    axis: Axis,
    line: int,
    round: nat,
)
    requires
        g.wf(),
        all_walks(g, init),
    ensures
        edge_sound(g, edge_through(g, region, k, init, axis, line, round), axis, line),
        edge_sound(g, edge_before(g, region, k, init, axis, line, round), axis, line),
        forall|start: (int, int)|
            all_follow(g, start, init) ==> edge_follows(
                g,
                edge_through(g, region, k, init, axis, line, round),
                start,
            ),
    decreases round,
{
    lemma_generation(g, region, k, init, round);
    let before = edge_before(g, region, k, init, axis, line, round);
    if round > 0 {
        lemma_edge_through(g, region, k, init, axis, line, (round - 1) as nat);
    }
    lemma_record_all(g, before, generation(g, region, k, init, round), axis, line);
    assert forall|start: (int, int)| all_follow(g, start, init) implies edge_follows(
        g,
        edge_through(g, region, k, init, axis, line, round),
        start,
    ) by {
        assert(edge_follows(g, before, start));
    }
}

/// Once a generation holds no state the boundary record does not change any
/// more.
pub proof fn lemma_edge_settles(
    g: GridView,
    region: Region,
    k: nat,
    init: Seq<StateView>,
    axis: Axis,
    line: int,
    round: nat,
    later: nat,
)
    requires
        generation(g, region, k, init, round + 1).len() == 0,
        round <= later,
    ensures
        generation(g, region, k, init, later + 1).len() == 0,
        edge_through(g, region, k, init, axis, line, later) == edge_through(
            g,
            region,
            k,
            init,
            axis,
            line,
            round,
        ),
    decreases later,
{
    if round < later {
        lemma_edge_settles(g, region, k, init, axis, line, round, (later - 1) as nat);
        assert(generation(g, region, k, init, later) =~= Seq::<StateView>::empty());
        assert(expand(g, region, generation(g, region, k, init, later)) =~= Seq::<
            StateView,
        >::empty());
    }
}

/// The states handed on are exactly the states held under the coordinates
/// below `n`.
pub proof fn lemma_in_key_order(edge: Map<int, StateView>, n: nat)
    ensures
        in_key_order(edge, n).len() <= n,
        forall|j: int|
            0 <= j < in_key_order(edge, n).len() ==> exists|key: int|
                0 <= key < n && edge.contains_key(key) && edge[key] == #[trigger] in_key_order(
                    edge,
                    n,
                )[j],
        forall|key: int|
            0 <= key < n && #[trigger] edge.contains_key(key) ==> in_key_order(edge, n).contains(
                edge[key],
            ),
    decreases n,
{
    if n > 0 {
        let front = in_key_order(edge, (n - 1) as nat);
        let all = in_key_order(edge, n);
        lemma_in_key_order(edge, (n - 1) as nat);
        assert forall|j: int| 0 <= j < all.len() implies exists|key: int|
            0 <= key < n && edge.contains_key(key) && edge[key] == #[trigger] all[j] by {
            if j < front.len() {
                let key = choose|key: int|
                    0 <= key < n - 1 && edge.contains_key(key) && edge[key] == front[j];
                assert(edge[key] == all[j]);
            } else {
                assert(edge[n - 1] == all[j]);
            }
        }
        assert forall|key: int| 0 <= key < n && #[trigger] edge.contains_key(key) implies all.contains(
            edge[key],
        ) by {
            if key < n - 1 {
                let j = choose|j: int| 0 <= j < front.len() && front[j] == edge[key];
                assert(all[j] == edge[key]);
            } else {
                assert(all[all.len() - 1] == edge[key]);
            }
        }
    }
}

/// The states handed on stand at different places along the line, in
/// ascending order: no place hands on more than one state.
pub proof fn lemma_one_per_place(
    g: GridView,
    edge: Map<int, StateView>,
    axis: Axis,
    line: int,
    n: nat,
)
    requires
        edge_sound(g, edge, axis, line),
    ensures
        forall|a: int|
            0 <= a < in_key_order(edge, n).len() ==> {
                &&& 0 <= across(axis, (#[trigger] in_key_order(edge, n)[a]).pos) < n
                &&& along(axis, in_key_order(edge, n)[a].pos) == line
            },
        forall|a: int, b: int|
            0 <= a < b < in_key_order(edge, n).len() ==> across(axis, in_key_order(edge, n)[a].pos)
                < across(axis, in_key_order(edge, n)[b].pos),
    decreases n,
{
    if n > 0 {
        lemma_one_per_place(g, edge, axis, line, (n - 1) as nat);
        let front = in_key_order(edge, (n - 1) as nat);
        let all = in_key_order(edge, n);
        assert forall|a: int| 0 <= a < all.len() implies {
            &&& 0 <= across(axis, (#[trigger] all[a]).pos) < n
            &&& along(axis, all[a].pos) == line
        } by {
            if a < front.len() {
                assert(all[a] == front[a]);
            } else {
                assert(edge.contains_key(n - 1));
            }
        }
        assert forall|a: int, b: int| 0 <= a < b < all.len() implies across(axis, all[a].pos)
            < across(axis, all[b].pos) by {
            assert(all[a] == front[a]);
            if b < front.len() {
                assert(all[b] == front[b]);
            } else {
                assert(edge.contains_key(n - 1));
            }
        }
    }
}

/// The score held under a coordinate never falls from one round to a later
/// one, and no coordinate is lost.
pub proof fn lemma_edge_grows(
    g: GridView,
    region: Region,
    k: nat,
    init: Seq<StateView>,
    axis: Axis,
    line: int,
    earlier: nat,
    later: nat,
    key: int,
)
    requires
        g.wf(),
        all_walks(g, init),
        earlier <= later,
        edge_through(g, region, k, init, axis, line, earlier).contains_key(key),
    ensures
        edge_through(g, region, k, init, axis, line, later).contains_key(key),
        edge_through(g, region, k, init, axis, line, later)[key].score >= edge_through(
            g,
            region,
            k,
            init,
            axis,
            line,
            earlier,
        )[key].score,
    decreases later,
{
    if earlier < later {
        lemma_edge_grows(g, region, k, init, axis, line, earlier, (later - 1) as nat, key);
        lemma_edge_through(g, region, k, init, axis, line, later);
        lemma_generation(g, region, k, init, later);
        lemma_record_all(
            g,
            edge_before(g, region, k, init, axis, line, later),
            generation(g, region, k, init, later),
            axis,
            line,
        );
    }
}

/// Of the states that stood at one place on the boundary line, in whatever
/// generation, only the best is handed on: for every state seen on the line
/// the result holds a state at the same place that scores at least as much,
/// and every state that the result holds at that place does so. A state
/// that another at its place outscores is therefore not handed on.
pub proof fn lemma_boundary_keeps_best(
    g: GridView,
    region: Region,
    k: nat,
    init: Seq<StateView>,
    axis: Axis,
    line: int,
    round: nat,
    i: int,
)
    requires
        g.wf(),
        all_walks(g, init),
        0 <= i < generation(g, region, k, init, round).len(),
        along(axis, generation(g, region, k, init, round)[i].pos) == line,
    ensures
        exists|j: int|
            0 <= j < boundary_states(g, region, k, init, axis, line).len() && across(
                axis,
                (#[trigger] boundary_states(g, region, k, init, axis, line)[j]).pos,
            ) == across(axis, generation(g, region, k, init, round)[i].pos),
        forall|j: int|
            0 <= j < boundary_states(g, region, k, init, axis, line).len() && across(
                axis,
                (#[trigger] boundary_states(g, region, k, init, axis, line)[j]).pos,
            ) == across(axis, generation(g, region, k, init, round)[i].pos) ==> boundary_states(
                g,
                region,
                k,
                init,
                axis,
                line,
            )[j].score >= generation(g, region, k, init, round)[i].score,
{
    let now = generation(g, region, k, init, round);
    let seen = now[i];
    let key = across(axis, seen.pos);
    lemma_generation(g, region, k, init, round);
    lemma_walk_state(g, seen);
    assert(round <= g.cells());
    lemma_edge_through(g, region, k, init, axis, line, round);
    lemma_record_all(g, edge_before(g, region, k, init, axis, line, round), now, axis, line);
    lemma_edge_grows(g, region, k, init, axis, line, round, g.cells(), key);
    let edge = edge_through(g, region, k, init, axis, line, g.cells());
    let out = boundary_states(g, region, k, init, axis, line);
    lemma_edge_through(g, region, k, init, axis, line, g.cells());
    lemma_in_key_order(edge, g.side);
    assert(edge.contains_key(key));
    assert(out.contains(edge[key]));
    let at = choose|at: int| 0 <= at < out.len() && out[at] == edge[key];
    assert(across(axis, out[at].pos) == key);
    assert forall|j: int|
        0 <= j < out.len() && across(axis, (#[trigger] out[j]).pos) == key implies out[j].score
        >= seen.score by {
        let other = choose|other: int|
            0 <= other < g.side && edge.contains_key(other) && edge[other] == out[j];
        assert(edge.contains_key(other));
        assert(other == key);
    }
}

/// The states handed on all stand on the boundary line, at different places
/// in ascending order: no place on the line hands on more than one state.
pub proof fn lemma_boundary_places(
    g: GridView,
    region: Region,
    k: nat,
    init: Seq<StateView>,
    axis: Axis,
    line: int,
)
    requires
        g.wf(),
        all_walks(g, init),
    ensures
        forall|a: int|
            0 <= a < boundary_states(g, region, k, init, axis, line).len() ==> along(
                axis,
                (#[trigger] boundary_states(g, region, k, init, axis, line)[a]).pos,
            ) == line,
        forall|a: int, b: int|
            0 <= a < b < boundary_states(g, region, k, init, axis, line).len() ==> across(
                axis,
                boundary_states(g, region, k, init, axis, line)[a].pos,
            ) < across(axis, boundary_states(g, region, k, init, axis, line)[b].pos),
{
    lemma_edge_through(g, region, k, init, axis, line, g.cells());
    lemma_one_per_place(
        g,
        edge_through(g, region, k, init, axis, line, g.cells()),
        axis,
        line,
        g.side,
    );
}

/// The boundary record that a table of held states stands for.
pub open spec fn edge_view(held: Map<usize, State>) -> Map<int, StateView> {
    Map::new(
        |key: int| 0 <= key <= usize::MAX && held.contains_key(key as usize),
        |key: int| held[key as usize]@,
    )
}

/// Searches `region` from `states` with beam width `width` until no state
/// can move within it, and returns the states that reached the boundary
/// line: those whose coordinate along `axis` equals `next_edge`.
///
/// Of the states that stood on the line at the same place only the best is
/// returned, the one seen first among equals. The result is in ascending
/// order of the place along the line. It is empty when no state of any
/// generation stood on the line.
///
/// Every state of every generation is also held against the record `best`,
/// which it replaces if it scores strictly more.
pub fn expand_region(
    states: Vec<State>,
    grid: &Grid,
    region: &Region,
    axis: Axis,
    next_edge: usize,
    width: usize,
    best: &mut (u32, String),
) -> (reached: Vec<State>)
    requires
        grid@.wf(),
        all_walks(grid@, views(states@)),
    ensures
        views(reached@) == boundary_states(
            grid@,
            *region,
            width as nat,
            views(states@),
            axis,
            next_edge as int,
        ),
        record_of(*final(best)) == region_best(
            record_of(*old(best)),
            grid@,
            *region,
            width as nat,
            views(states@),
        ),
        all_walks(grid@, views(reached@)),
        forall|start: (int, int)|
            all_follow(grid@, start, views(states@)) ==> all_follow(grid@, start, views(reached@)),
        forall|start: (int, int)|
            all_follow(grid@, start, views(states@)) && sound_best(
                grid@,
                start,
                record_of(*old(best)),
            ) ==> sound_best(grid@, start, record_of(*final(best))),
{
    let ghost floor = record_of(*best);
    let ghost g = grid@;
    let ghost k = width as nat;
    let ghost init = views(states@);
    let ghost line = next_edge as int;
    let ghost mut round: nat = 0;
    let mut states = states;
    let mut edge: HashMap<usize, State> = HashMap::new();
    assert(edge_view(edge@) =~= Map::<int, StateView>::empty());
    loop
        invariant_except_break
            views(states@) == generation(g, *region, k, init, round),
            edge_view(edge@) == edge_before(g, *region, k, init, axis, line, round),
            record_of(*best) == best_before(floor, g, *region, k, init, round),
        invariant
            g == grid@,
            g.wf(),
            k == width,
            line == next_edge,
            all_walks(g, init),
            round <= g.cells(),
        ensures
            edge_view(edge@) == edge_through(g, *region, k, init, axis, line, g.cells()),
            record_of(*best) == region_best(floor, g, *region, k, init),
        decreases g.cells() - round,
    {
        let ghost now = views(states@);
        proof {
            lemma_generation(g, *region, k, init, round);
        }
        let mut queue = Frontier::new(width);
        let mut i: usize = 0;
        while i < states.len()
            invariant
                i <= states.len(),
                g == grid@,
                g.wf(),
                line == next_edge,
                now == views(states@),
                all_walks(g, now),
                queue.wf(),
                queue.width() == k,
                queue@ == beam_fill(Seq::empty(), expand(g, *region, now.take(i as int)), k),
                edge_view(edge@) == record_all(
                    edge_before(g, *region, k, init, axis, line, round),
                    now.take(i as int),
                    axis,
                    line,
                ),
                record_of(*best) == best_of(
                    best_before(floor, g, *region, k, init, round),
                    now.take(i as int),
                ),
            decreases states.len() - i,
        {
            let state = &states[i];
            assert(now[i as int] == state@);
            if state.score > best.0 {
                *best = (state.score, state.log.clone());
            }
            let ghost held = edge_view(edge@);
            let (on_line, key) = match axis {
                Axis::Row => (state.pos.0 == next_edge, state.pos.1),
                Axis::Column => (state.pos.1 == next_edge, state.pos.0),
            };
            if on_line {
                let replace = match edge.get(&key) {
                    Some(other) => other.score < state.score,
                    None => true,
                };
                if replace {
                    edge.insert(key, state.duplicate());
                    assert(edge_view(edge@) =~= held.insert(key as int, state@));
                }
            }
            assert(edge_view(edge@) == record(held, state@, axis, line));
            move_4(&mut queue, state, grid, region);
            proof {
                assert(now.take(i + 1).drop_last() =~= now.take(i as int));
                lemma_beam_fill_concat(
                    Seq::empty(),
                    expand(g, *region, now.take(i as int)),
                    children(g, *region, now[i as int]),
                    k,
                );
            }
            i = i + 1;
        }
        assert(now.take(i as int) =~= now);
        if queue.is_empty() {
            proof {
                lemma_edge_settles(g, *region, k, init, axis, line, round, g.cells());
                lemma_search_settles(floor, g, *region, k, init, round, g.cells());
            }
            break;
        }
        proof {
            lemma_generation(g, *region, k, init, round + 1);
            lemma_walk_state(g, queue@[0]);
            round = round + 1;
        }
        states = queue.into_vec();
    }
    let ghost last = edge_view(edge@);
    proof {
        lemma_edge_through(g, *region, k, init, axis, line, g.cells());
    }
    let side = grid.side();
    let mut reached: Vec<State> = Vec::new();
    let mut key: usize = 0;
    assert(views(reached@) =~= in_key_order(last, 0));
    while key < side
        invariant
            key <= side,
            views(reached@) == in_key_order(last, key as nat),
            forall|j: usize|
                key <= j ==> (last.contains_key(j as int) <==> #[trigger] edge@.contains_key(j)),
            forall|j: usize|
                key <= j && last.contains_key(j as int) ==> last[j as int] == (
                #[trigger] edge@[j])@,
        decreases side - key,
    {
        let ghost before = views(reached@);
        assert(last.contains_key(key as int) <==> edge@.contains_key(key));
        assert(last.contains_key(key as int) ==> last[key as int] == edge@[key]@);
        if let Some(state) = edge.remove(&key) {
            reached.push(state);
            assert(views(reached@) =~= before.push(state@));
        }
        key = key + 1;
    }
    proof {
        lemma_in_key_order(last, side as nat);
        let out = views(reached@);
        assert forall|j: int| 0 <= j < out.len() implies (#[trigger] out[j]).is_walk(g) by {
            let key = choose|key: int|
                0 <= key < side && last.contains_key(key) && last[key] == out[j];
            assert(last.contains_key(key));
        }
        assert forall|start: (int, int)|
            all_follow(g, start, init) && sound_best(g, start, floor) implies sound_best(
            g,
            start,
            record_of(*best),
        ) by {
            lemma_best_sound(floor, g, *region, k, init, g.cells(), start);
        }
        assert forall|start: (int, int)| all_follow(g, start, init) implies all_follow(
            g,
            start,
            out,
        ) by {
            assert(edge_follows(g, last, start));
            assert forall|j: int| 0 <= j < out.len() implies (#[trigger] out[j]).follows(
                g,
                start,
            ) by {
                let key = choose|key: int|
                    0 <= key < side && last.contains_key(key) && last[key] == out[j];
                assert(last.contains_key(key));
            }
        }
    }
    reached
}

/// Searches `region` and returns the states that reached the boundary row
/// `next_edge`, the best for each column, in ascending order of column.
/// Every state seen on the way is held against the record `best`.
pub fn calc_edge0(
    states: Vec<State>,
    grid: &Grid,
    region: &Region,
    next_edge: usize,
    width: usize,
    best: &mut (u32, String),
) -> (reached: Vec<State>)
    requires
        grid@.wf(),
        all_walks(grid@, views(states@)),
    ensures
        views(reached@) == boundary_states(
            grid@,
            *region,
            width as nat,
            views(states@),
            Axis::Row,
            next_edge as int,
        ),
        record_of(*final(best)) == region_best(
            record_of(*old(best)),
            grid@,
            *region,
            width as nat,
            views(states@),
        ),
        all_walks(grid@, views(reached@)),
        forall|start: (int, int)|
            all_follow(grid@, start, views(states@)) ==> all_follow(grid@, start, views(reached@)),
        forall|start: (int, int)|
            all_follow(grid@, start, views(states@)) && sound_best(
                grid@,
                start,
                record_of(*old(best)),
            ) ==> sound_best(grid@, start, record_of(*final(best))),
{
    expand_region(states, grid, region, Axis::Row, next_edge, width, best)
}

/// Searches `region` and returns the states that reached the boundary
/// column `next_edge`, the best for each row, in ascending order of row.
/// Every state seen on the way is held against the record `best`.
pub fn calc_edge1(
    states: Vec<State>,
    grid: &Grid,
    region: &Region,
    next_edge: usize,
    width: usize,
    best: &mut (u32, String),
) -> (reached: Vec<State>)
    requires
        grid@.wf(),
        all_walks(grid@, views(states@)),
    ensures
        views(reached@) == boundary_states(
            grid@,
            *region,
            width as nat,
            views(states@),
            Axis::Column,
            next_edge as int,
        ),
        record_of(*final(best)) == region_best(
            record_of(*old(best)),
            grid@,
            *region,
            width as nat,
            views(states@),
        ),
        all_walks(grid@, views(reached@)),
        forall|start: (int, int)|
            all_follow(grid@, start, views(states@)) ==> all_follow(grid@, start, views(reached@)),
        forall|start: (int, int)|
            all_follow(grid@, start, views(states@)) && sound_best(
                grid@,
                start,
                record_of(*old(best)),
            ) ==> sound_best(grid@, start, record_of(*final(best))),
{
    expand_region(states, grid, region, Axis::Column, next_edge, width, best)
}

} // verus!
