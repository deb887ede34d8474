//! Expansion rounds: from one generation of states to the next, and the
//! unrestricted search that runs them until no state can move.

use std::ops::Range;
use vstd::prelude::*;
use crate::frontier::{
    beam_fill, children, lemma_beam_fill, lemma_beam_fill_concat, lemma_beam_fill_roomy, move_4,
    Frontier,
};
use crate::grid::{lemma_index_in_bounds, Grid, GridView};
use crate::state::{
    all_follow, all_walks, lemma_move_follows, lemma_walk_state, views, Region, State, StateView,
};
use crate::walk::{lemma_walk_prefix_ok, lemma_walk_score_grows, walk_ok, walk_score};

verus! {

/// All children of the states of one generation within `region`: those of
/// the first state, then those of the second, and so on.
pub open spec fn expand(g: GridView, region: Region, states: Seq<StateView>) -> Seq<StateView>
    decreases states.len(),
{
    if states.len() == 0 {
        Seq::empty()
    } else {
        expand(g, region, states.drop_last()) + children(g, region, states.last())
    }
}

/// The generation that follows `states`: the frontier of width `k` that all
/// their children have entered in order.
pub open spec fn next_generation(
    g: GridView,
    region: Region,
    k: nat,
    states: Seq<StateView>,
) -> Seq<StateView> {
    beam_fill(Seq::empty(), expand(g, region, states), k)
}

/// The generation reached from `init` after the given number of rounds.
pub open spec fn generation(
    g: GridView,
    region: Region,
    k: nat,
    init: Seq<StateView>,
    round: nat,
) -> Seq<StateView>
    decreases round,
{
    if round == 0 {
        init
    } else {
        next_generation(g, region, k, generation(g, region, k, init, (round - 1) as nat))
    }
}

/// The best score and move log after the states of `states` have been
/// looked at in order: a state replaces the best so far only if it scores
/// strictly more.
pub open spec fn best_of(best: (int, Seq<char>), states: Seq<StateView>) -> (int, Seq<char>)
    decreases states.len(),
{
    if states.len() == 0 {
        best
    } else {
        let before = best_of(best, states.drop_last());
        if states.last().score > before.0 {
            (states.last().score, states.last().log)
        } else {
            before
        }
    }
}

/// The best score and move log on record before the given round, when the
/// record stood at `floor` before the first round.
pub open spec fn best_before(
    floor: (int, Seq<char>),
    g: GridView,
    region: Region,
    k: nat,
    init: Seq<StateView>,
    round: nat,
) -> (int, Seq<char>)
    decreases round, 0nat,
{
    if round == 0 {
        floor
    } else {
        best_through(floor, g, region, k, init, (round - 1) as nat)
    }
}

/// The best score and move log on record after the generations up to and
/// including the given round have been looked at, when the record stood at
/// `floor` before the first round.
pub open spec fn best_through(
    floor: (int, Seq<char>),
    g: GridView,
    region: Region,
    k: nat,
    init: Seq<StateView>,
    round: nat,
) -> (int, Seq<char>)
    decreases round, 1nat,
{
    best_of(
        best_before(floor, g, region, k, init, round),
        generation(g, region, k, init, round),
    )
}

/// The record before anything has been seen: score zero and no moves.
pub open spec fn nothing() -> (int, Seq<char>) {
    (0, Seq::empty())
}

/// What a search of `region` from `init` with beam width `k` leaves on
/// record when the record stood at `floor` before: the best score and move
/// log over the record and all generations. No generation beyond the number
/// of cells holds a state, so that many rounds cover them all.
pub open spec fn region_best(
    floor: (int, Seq<char>),
    g: GridView,
    region: Region,
    k: nat,
    init: Seq<StateView>,
) -> (int, Seq<char>) {
    best_through(floor, g, region, k, init, g.cells())
}

/// The record as mathematics.
pub open spec fn record_of(best: (u32, String)) -> (int, Seq<char>) {
    (best.0 as int, best.1@)
}

/// The better of two records: the second only if it scores strictly more.
pub open spec fn better(first: (int, Seq<char>), second: (int, Seq<char>)) -> (int, Seq<char>) {
    if second.0 > first.0 {
        second
    } else {
        first
    }
}

/// Whether the record names a legal walk from `start` and that walk's score.
pub open spec fn scored_walk(g: GridView, start: (int, int), best: (int, Seq<char>)) -> bool {
    walk_ok(g, start, best.1) && walk_score(g, start, best.1) == best.0
}

/// Whether the record is still untouched or names a legal walk from `start`
/// and that walk's score.
pub open spec fn sound_best(g: GridView, start: (int, int), best: (int, Seq<char>)) -> bool {
    best == nothing() || scored_walk(g, start, best)
}

/// The region that is the whole grid.
pub open spec fn whole(g: GridView) -> Region {
    (Range { start: 0usize, end: g.side as usize }, Range { start: 0usize, end: g.side as usize })
}

/// What the unrestricted search from `init` reports with beam width `k`:
/// the best score and move log over all generations, or score zero and no
/// moves if no state scores more than zero.
pub open spec fn search_best(g: GridView, k: nat, init: Seq<StateView>) -> (int, Seq<char>) {
    region_best(nothing(), g, whole(g), k, init)
}

/// The children of a state on a walk are on walks, one move longer, from
/// wherever the parent's walk started.
pub proof fn lemma_children(g: GridView, region: Region, s: StateView)
    requires
        g.wf(),
        s.is_walk(g),
    ensures
        forall|j: int|
            0 <= j < children(g, region, s).len() ==> {
                &&& (#[trigger] children(g, region, s)[j]).is_walk(g)
                &&& children(g, region, s)[j].log.len() == s.log.len() + 1
                &&& forall|start: (int, int)|
                    s.follows(g, start) ==> children(g, region, s)[j].follows(g, start)
            },
{
    let origin = choose|start: (int, int)| s.follows(g, start);
    assert forall|d: char| s.can_move(g, region, d) implies {
        &&& (#[trigger] s.moved(g, d)).is_walk(g)
        &&& s.moved(g, d).log.len() == s.log.len() + 1
        &&& forall|start: (int, int)| s.follows(g, start) ==> s.moved(g, d).follows(g, start)
    } by {
        lemma_move_follows(g, region, s, d, origin);
        assert forall|start: (int, int)| s.follows(g, start) implies s.moved(g, d).follows(
            g,
            start,
        ) by {
            lemma_move_follows(g, region, s, d, start);
        }
    }
}

/// Every state of an expansion is a child of one of the expanded states.
pub proof fn lemma_expand_parent(g: GridView, region: Region, states: Seq<StateView>, j: int)
        -> (i: int)
    requires
        0 <= j < expand(g, region, states).len(),
    ensures
        0 <= i < states.len(),
        children(g, region, states[i]).contains(expand(g, region, states)[j]),
    decreases states.len(),
{
    let front = expand(g, region, states.drop_last());
    if j < front.len() {
        lemma_expand_parent(g, region, states.drop_last(), j)
    } else {
        let last = children(g, region, states.last());
        assert(last[j - front.len()] == expand(g, region, states)[j]);
        states.len() - 1
    }
}

/// From states on walks, every generation holds states on walks, each with
/// at least as many moves as rounds have passed; and if all walks started on
/// one cell, they still do.
pub proof fn lemma_generation(
    g: GridView,
    region: Region,
    k: nat,
    init: Seq<StateView>,
    round: nat,
)
    requires
        g.wf(),
        all_walks(g, init),
    ensures
        all_walks(g, generation(g, region, k, init, round)),
        forall|j: int|
            0 <= j < generation(g, region, k, init, round).len() ==> (#[trigger] generation(
                g,
                region,
                k,
                init,
                round,
            )[j]).log.len() >= round,
        forall|start: (int, int)|
            all_follow(g, start, init) ==> all_follow(
                g,
                start,
                generation(g, region, k, init, round),
            ),
    decreases round,
{
    if round > 0 {
        let before = generation(g, region, k, init, (round - 1) as nat);
        let now = generation(g, region, k, init, round);
        let grown = expand(g, region, before);
        lemma_generation(g, region, k, init, (round - 1) as nat);
        lemma_beam_fill(Seq::empty(), grown, k);
        assert forall|j: int| 0 <= j < now.len() implies {
            &&& (#[trigger] now[j]).is_walk(g)
            &&& now[j].log.len() >= round
            &&& forall|start: (int, int)| all_follow(g, start, init) ==> now[j].follows(g, start)
        } by {
            assert(grown.contains(now[j]));
            let h = choose|h: int| 0 <= h < grown.len() && grown[h] == now[j];
            let i = lemma_expand_parent(g, region, before, h);
            let kids = children(g, region, before[i]);
            let c = choose|c: int| 0 <= c < kids.len() && kids[c] == now[j];
            lemma_children(g, region, before[i]);
            assert(kids[c].is_walk(g));
            assert forall|start: (int, int)| all_follow(g, start, init) implies now[j].follows(
                g,
                start,
            ) by {
                assert(before[i].follows(g, start));
            }
        }
    }
}

/// A generation without states is followed by generations without states,
/// and the best seen does not change any more.
pub proof fn lemma_search_settles(
    floor: (int, Seq<char>),
    g: GridView,
    region: Region,
    k: nat,
    init: Seq<StateView>,
    round: nat,
    later: nat,
)
    requires
        generation(g, region, k, init, round + 1).len() == 0,
        round <= later,
    ensures
        generation(g, region, k, init, later + 1).len() == 0,
        best_through(floor, g, region, k, init, later) == best_through(
            floor,
            g,
            region,
            k,
            init,
            round,
        ),
    decreases later,
{
    if round < later {
        lemma_search_settles(floor, g, region, k, init, round, (later - 1) as nat);
        assert(generation(g, region, k, init, later) =~= Seq::<StateView>::empty());
        assert(expand(g, region, generation(g, region, k, init, later)) =~= Seq::<
            StateView,
        >::empty());
    }
}

/// Looking at more states never lowers the best score; the best is either
/// what it was or one of the states looked at, and no state looked at
/// scores more.
pub proof fn lemma_best_of(best: (int, Seq<char>), states: Seq<StateView>)
    ensures
        best_of(best, states).0 >= best.0,
        forall|i: int| 0 <= i < states.len() ==> best_of(best, states).0 >= states[i].score,
        best_of(best, states) == best || exists|i: int|
            0 <= i < states.len() && best_of(best, states) == (states[i].score, states[i].log),
    decreases states.len(),
{
    if states.len() > 0 {
        let front = states.drop_last();
        lemma_best_of(best, front);
        let before = best_of(best, front);
        assert forall|i: int| 0 <= i < states.len() implies best_of(best, states).0
            >= states[i].score by {
            if i < front.len() {
                assert(front[i] == states[i]);
            }
        }
        if states.last().score > before.0 {
            assert(best_of(best, states) == (
                states[states.len() - 1].score,
                states[states.len() - 1].log,
            ));
        } else if before != best {
            let i = choose|i: int|
                0 <= i < front.len() && before == (front[i].score, front[i].log);
            assert(front[i] == states[i]);
        }
    }
}

/// The best score on record never falls: not below what the record held
/// before the search, and not from one round to a later one.
pub proof fn lemma_best_grows(
    floor: (int, Seq<char>),
    g: GridView,
    region: Region,
    k: nat,
    init: Seq<StateView>,
    earlier: nat,
    later: nat,
)
    requires
        earlier <= later,
    ensures
        floor.0 <= best_through(floor, g, region, k, init, earlier).0,
        best_through(floor, g, region, k, init, earlier).0 <= best_through(
            floor,
            g,
            region,
            k,
            init,
            later,
        ).0,
    decreases later,
{
    lemma_best_of(
        best_before(floor, g, region, k, init, later),
        generation(g, region, k, init, later),
    );
    if earlier < later {
        lemma_best_grows(floor, g, region, k, init, earlier, (later - 1) as nat);
    } else if later > 0 {
        lemma_best_grows(floor, g, region, k, init, (later - 1) as nat, (later - 1) as nat);
    }
}

/// Every generation is looked at: no state of any generation up to the
/// given round scores more than the record holds after that round.
pub proof fn lemma_best_covers(
    floor: (int, Seq<char>),
    g: GridView,
    region: Region,
    k: nat,
    init: Seq<StateView>,
    round: nat,
    later: nat,
    i: int,
)
    requires
        round <= later,
        0 <= i < generation(g, region, k, init, round).len(),
    ensures
        generation(g, region, k, init, round)[i].score <= best_through(
            floor,
            g,
            region,
            k,
            init,
            later,
        ).0,
{
    lemma_best_of(
        best_before(floor, g, region, k, init, round),
        generation(g, region, k, init, round),
    );
    lemma_best_grows(floor, g, region, k, init, round, later);
}

/// Whether a beam of width `k` has room for all children in each of the
/// first `rounds` rounds, so that no state is evicted in them.
pub open spec fn roomy(
    g: GridView,
    region: Region,
    k: nat,
    init: Seq<StateView>,
    rounds: nat,
) -> bool {
    forall|r: nat|
        r < rounds ==> (#[trigger] expand(g, region, generation(g, region, k, init, r))).len() <= k
}

/// While a beam has room for all children, a wider beam finds the same
/// generations and leaves the same record.
pub proof fn lemma_wider_beam_changes_nothing(
    floor: (int, Seq<char>),
    g: GridView,
    region: Region,
    k: nat,
    wider: nat,
    init: Seq<StateView>,
    round: nat,
)
    requires
        k <= wider,
        roomy(g, region, k, init, round),
    ensures
        generation(g, region, wider, init, round) == generation(g, region, k, init, round),
        best_through(floor, g, region, wider, init, round) == best_through(
            floor,
            g,
            region,
            k,
            init,
            round,
        ),
    decreases round,
{
    if round > 0 {
        let before = (round - 1) as nat;
        assert(roomy(g, region, k, init, before)) by {
            assert forall|r: nat| r < before implies (#[trigger] expand(
                g,
                region,
                generation(g, region, k, init, r),
            )).len() <= k by {
                assert(r < round);
            }
        }
        lemma_wider_beam_changes_nothing(floor, g, region, k, wider, init, before);
        let grown = expand(g, region, generation(g, region, k, init, before));
        assert(grown.len() <= k);
        lemma_beam_fill_roomy(Seq::empty(), grown, k, wider);
    }
}

/// A beam of any width scores at least as much as a beam that holds
/// nothing.
pub proof fn lemma_any_beam_beats_none(
    floor: (int, Seq<char>),
    g: GridView,
    region: Region,
    k: nat,
    init: Seq<StateView>,
    round: nat,
)
    ensures
        best_through(floor, g, region, 0, init, round).0 <= best_through(
            floor,
            g,
            region,
            k,
            init,
            round,
        ).0,
    decreases round,
{
    if round > 0 {
        lemma_any_beam_beats_none(floor, g, region, k, init, (round - 1) as nat);
        lemma_beam_fill(
            Seq::empty(),
            expand(g, region, generation(g, region, 0, init, (round - 1) as nat)),
            0,
        );
        assert(generation(g, region, 0, init, round) =~= Seq::<StateView>::empty());
        lemma_best_grows(floor, g, region, k, init, (round - 1) as nat, round);
    }
}

/// The search runs out: after as many rounds as the grid has cells no state
/// is left, because every round makes each walk one move longer and no walk
/// has as many moves as the grid has cells.
pub proof fn lemma_search_ends(g: GridView, region: Region, k: nat, init: Seq<StateView>)
    requires
        g.wf(),
        all_walks(g, init),
    ensures
        generation(g, region, k, init, g.cells()).len() == 0,
{
    let last = generation(g, region, k, init, g.cells());
    lemma_generation(g, region, k, init, g.cells());
    if last.len() > 0 {
        lemma_walk_state(g, last[0]);
    }
}

/// When every state searched from stands on a walk from `start`, a record
/// that was untouched or named a legal walk from `start` with its score
/// still is or does so after every round.
pub proof fn lemma_best_sound(
    floor: (int, Seq<char>),
    g: GridView,
    region: Region,
    k: nat,
    init: Seq<StateView>,
    round: nat,
    start: (int, int),
)
    requires
        g.wf(),
        all_follow(g, start, init),
        sound_best(g, start, floor),
    ensures
        sound_best(g, start, best_through(floor, g, region, k, init, round)),
    decreases round,
{
    assert(all_walks(g, init)) by {
        assert forall|i: int| 0 <= i < init.len() implies (#[trigger] init[i]).is_walk(g) by {
            assert(init[i].follows(g, start));
        }
    }
    lemma_generation(g, region, k, init, round);
    let now = generation(g, region, k, init, round);
    let before = best_before(floor, g, region, k, init, round);
    lemma_best_of(before, now);
    let best = best_of(before, now);
    if best == before {
        if round > 0 {
            lemma_best_sound(floor, g, region, k, init, (round - 1) as nat, start);
        }
    } else {
        let i = choose|i: int| 0 <= i < now.len() && best == (now[i].score, now[i].log);
        assert(now[i].follows(g, start));
    }
}

/// When every state searched from stands on a walk from `start` and there
/// is such a state, the best score and move log of every round are those of
/// a legal walk from `start`: the log replays without leaving the grid or
/// collecting a label twice, and the values along it add up to the score.
pub proof fn lemma_best_is_walk(
    floor: (int, Seq<char>),
    g: GridView,
    region: Region,
    k: nat,
    init: Seq<StateView>,
    round: nat,
    start: (int, int),
)
    requires
        g.wf(),
        init.len() > 0,
        all_follow(g, start, init),
        sound_best(g, start, floor),
    ensures
        scored_walk(g, start, best_through(floor, g, region, k, init, round)),
{
    lemma_best_sound(floor, g, region, k, init, round, start);
    let best = best_through(floor, g, region, k, init, round);
    if best == nothing() {
        lemma_best_covers(floor, g, region, k, init, 0, round, 0);
        assert(init[0].follows(g, start));
        lemma_walk_prefix_ok(g, start, init[0].log, 0);
        assert(init[0].log.take(0) =~= Seq::<char>::empty());
        lemma_walk_score_grows(g, start, init[0].log);
        lemma_walk_state(g, init[0]);
    }
}

/// Where a legal walk from `start` scores nothing, standing still on
/// `start` scores nothing either and is a legal walk.
pub proof fn lemma_nothing_is_walk(g: GridView, start: (int, int), found: (int, Seq<char>))
    requires
        g.wf(),
        scored_walk(g, start, found),
        found.0 <= 0,
    ensures
        scored_walk(g, start, nothing()),
{
    lemma_walk_prefix_ok(g, start, found.1, 0);
    assert(found.1.take(0) =~= Seq::<char>::empty());
    lemma_walk_score_grows(g, start, found.1);
    lemma_index_in_bounds(g.side, start);
}

/// Runs the unrestricted beam search of width `width` from `states` until
/// no state can move, and reports the best score seen in any round together
/// with the move log of the first state that reached it.
///
/// With no state to start from, or when no state scores more than zero, the
/// report is score zero with an empty log.
pub fn calc_bulk(states: Vec<State>, grid: &Grid, width: usize) -> (best: (u32, String))
    requires
        grid@.wf(),
        all_walks(grid@, views(states@)),
    ensures
        (best.0 as int, best.1@) == search_best(grid@, width as nat, views(states@)),
        forall|start: (int, int)|
            states.len() > 0 && all_follow(grid@, start, views(states@)) ==> walk_ok(
                grid@,
                start,
                best.1@,
            ) && walk_score(grid@, start, best.1@) == best.0,
{
    let ghost g = grid@;
    let ghost k = width as nat;
    let ghost init = views(states@);
    let ghost region = whole(g);
    let ghost mut round: nat = 0;
    let side = grid.side();
    let everywhere: Region = (0..side, 0..side);
    let mut states = states;
    let mut best = String::new();
    let mut best_score: u32 = 0;
    loop
        invariant_except_break
            views(states@) == generation(g, region, k, init, round),
            (best_score as int, best@) == best_before(nothing(), g, region, k, init, round),
        invariant
            g == grid@,
            g.wf(),
            k == width,
            everywhere == region,
            region == whole(g),
            all_walks(g, init),
            round <= g.cells(),
        ensures
            (best_score as int, best@) == search_best(g, k, init),
        decreases g.cells() - round,
    {
        let ghost now = views(states@);
        proof {
            lemma_generation(g, region, k, init, round);
        }
        let mut queue = Frontier::new(width);
        let mut i: usize = 0;
        while i < states.len()
            invariant
                i <= states.len(),
                g == grid@,
                g.wf(),
                now == views(states@),
                all_walks(g, now),
                queue.wf(),
                queue.width() == k,
                queue@ == beam_fill(Seq::empty(), expand(g, region, now.take(i as int)), k),
                (best_score as int, best@) == best_of(
                    best_before(nothing(), g, region, k, init, round),
                    now.take(i as int),
                ),
                everywhere == region,
            decreases states.len() - i,
        {
            let state = &states[i];
            assert(now[i as int] == state@);
            if state.score > best_score {
                best_score = state.score;
                best = state.log.clone();
            }
            move_4(&mut queue, state, grid, &everywhere);
            proof {
                assert(now.take(i + 1).drop_last() =~= now.take(i as int));
                lemma_beam_fill_concat(
                    Seq::empty(),
                    expand(g, region, now.take(i as int)),
                    children(g, region, now[i as int]),
                    k,
                );
            }
            i = i + 1;
        }
        assert(now.take(i as int) =~= now);
        if queue.is_empty() {
            proof {
                lemma_search_settles(nothing(), g, region, k, init, round, g.cells());
            }
            break;
        }
        proof {
            lemma_generation(g, region, k, init, round + 1);
            lemma_walk_state(g, queue@[0]);
            round = round + 1;
        }
        states = queue.into_vec();
    }
    proof {
        assert forall|start: (int, int)|
            init.len() > 0 && all_follow(g, start, init) implies walk_ok(g, start, best@)
            && walk_score(g, start, best@) == best_score by {
            lemma_best_is_walk(nothing(), g, region, k, init, g.cells(), start);
        }
    }
    (best_score, best)
}

} // verus!
