//! The beam frontier: the best few states of one search depth.
//!
//! A frontier of width `k` holds at most `k` states in descending order of
//! score. A new state enters behind every state that scores at least as
//! much, so among equal scores the state seen first stands first; when the
//! frontier then holds more than `k` states its last state, the lowest
//! scoring and among those the one seen last, is evicted.

use vstd::prelude::*;
use crate::grid::{Grid, GridView};
use crate::state::{
    all_walks, move_down, move_left, move_right, move_up, views, Region, State, StateView,
};

verus! {

/// Whether the scores of `beam` never rise from one entry to the next.
pub open spec fn descending(beam: Seq<StateView>) -> bool {
    forall|i: int, j: int| 0 <= i < j < beam.len() ==> beam[i].score >= beam[j].score
}

/// Where a state with the given score enters `beam`: directly behind the
/// last entry that scores at least as much, or in front if there is none.
pub open spec fn entry_index(beam: Seq<StateView>, score: int) -> int
    decreases beam.len(),
{
    if beam.len() == 0 {
        0
    } else if beam.last().score >= score {
        beam.len() as int
    } else {
        entry_index(beam.drop_last(), score)
    }
}

/// The frontier after `s` has entered a frontier of width `k`: `s` is put in
/// its place, and if that makes more than `k` entries the last one leaves.
pub open spec fn beam_insert(beam: Seq<StateView>, s: StateView, k: nat) -> Seq<StateView> {
    let grown = beam.insert(entry_index(beam, s.score), s);
    if grown.len() > k {
        grown.drop_last()
    } else {
        grown
    }
}

/// The frontier after the states of `items` have entered one by one, in
/// order.
pub open spec fn beam_fill(beam: Seq<StateView>, items: Seq<StateView>, k: nat) -> Seq<StateView>
    decreases items.len(),
{
    if items.len() == 0 {
        beam
    } else {
        beam_insert(beam_fill(beam, items.drop_last(), k), items.last(), k)
    }
}

/// A sequence of no state or one.
pub open spec fn optional(state: Option<StateView>) -> Seq<StateView> {
    match state {
        Some(s) => seq![s],
        None => Seq::empty(),
    }
}

/// The children of a state within `region`: the results of the moves up,
/// down, left and right that are open to it, in that order.
pub open spec fn children(g: GridView, region: Region, s: StateView) -> Seq<StateView> {
    optional(s.try_move(g, region, 'U')) + optional(s.try_move(g, region, 'D')) + optional(
        s.try_move(g, region, 'L'),
    ) + optional(s.try_move(g, region, 'R'))
}

/// The entry index lies within the frontier's bounds; everything from it on
/// scores less than the entering state, and the entry before it, if any,
/// scores at least as much.
pub proof fn lemma_entry_index(beam: Seq<StateView>, score: int)
    ensures
        0 <= entry_index(beam, score) <= beam.len(),
        forall|j: int| entry_index(beam, score) <= j < beam.len() ==> beam[j].score < score,
        entry_index(beam, score) > 0 ==> beam[entry_index(beam, score) - 1].score >= score,
    decreases beam.len(),
{
    if beam.len() > 0 && beam.last().score < score {
        let front = beam.drop_last();
        lemma_entry_index(front, score);
        assert forall|j: int| entry_index(beam, score) <= j < beam.len() implies beam[j].score
            < score by {
            if j < front.len() {
                assert(front[j] == beam[j]);
            }
        }
        if entry_index(beam, score) > 0 {
            assert(front[entry_index(beam, score) - 1] == beam[entry_index(beam, score) - 1]);
        }
    }
}

/// Entering keeps a descending frontier descending and within its width, and
/// brings in nothing but the entering state.
pub proof fn lemma_beam_insert(beam: Seq<StateView>, s: StateView, k: nat)
    requires
        descending(beam),
        beam.len() <= k,
    ensures
        descending(beam_insert(beam, s, k)),
        beam_insert(beam, s, k).len() <= k,
        beam_insert(beam, s, k).len() == if beam.len() < k {
            beam.len() + 1
        } else {
            beam.len()
        },
        forall|j: int|
            0 <= j < beam_insert(beam, s, k).len() ==> (#[trigger] beam_insert(beam, s, k)[j]) == s
                || beam.contains(beam_insert(beam, s, k)[j]),
{
    lemma_entry_index(beam, s.score);
    let at = entry_index(beam, s.score);
    let grown = beam.insert(at, s);
    assert(descending(grown)) by {
        assert forall|i: int, j: int| 0 <= i < j < grown.len() implies grown[i].score
            >= grown[j].score by {
            if at > 0 {
                assert(beam[at - 1].score >= s.score);
            }
            if i < at && j == at {
                assert(grown[i] == beam[i]);
                assert(i <= at - 1);
            }
        }
    }
    assert forall|j: int| 0 <= j < grown.len() implies (#[trigger] grown[j]) == s || beam.contains(
        grown[j],
    ) by {
        if j < at {
            assert(grown[j] == beam[j]);
        } else if j > at {
            assert(grown[j] == beam[j - 1]);
        }
    }
    let result = beam_insert(beam, s, k);
    assert forall|j: int| 0 <= j < result.len() implies (#[trigger] result[j]) == s
        || beam.contains(result[j]) by {
        assert(result[j] == grown[j]);
    }
}

/// Filling keeps a descending frontier descending and within its width, and
/// brings in nothing but the entering states.
pub proof fn lemma_beam_fill(beam: Seq<StateView>, items: Seq<StateView>, k: nat)
    requires
        descending(beam),
        beam.len() <= k,
    ensures
        descending(beam_fill(beam, items, k)),
        beam_fill(beam, items, k).len() <= k,
        forall|j: int|
            0 <= j < beam_fill(beam, items, k).len() ==> beam.contains(
                #[trigger] beam_fill(beam, items, k)[j],
            ) || items.contains(beam_fill(beam, items, k)[j]),
    decreases items.len(),
{
    if items.len() > 0 {
        let before = beam_fill(beam, items.drop_last(), k);
        lemma_beam_fill(beam, items.drop_last(), k);
        lemma_beam_insert(before, items.last(), k);
        let after = beam_fill(beam, items, k);
        assert forall|j: int| 0 <= j < after.len() implies beam.contains(#[trigger] after[j])
            || items.contains(after[j]) by {
            if after[j] == items.last() {
                assert(items[items.len() - 1] == after[j]);
            } else {
                assert(before.contains(after[j]));
                let i = choose|i: int| 0 <= i < before.len() && before[i] == after[j];
                if !beam.contains(before[i]) {
                    assert(items.drop_last().contains(before[i]));
                    let h = choose|h: int|
                        0 <= h < items.drop_last().len() && items.drop_last()[h] == before[i];
                    assert(items[h] == after[j]);
                }
            }
        }
    } else {
        assert forall|j: int| 0 <= j < beam.len() implies beam.contains(#[trigger] beam[j]) by {}
    }
}

/// Whether `x` is held in `beam`, or `beam` is full to its width `k` and
/// holds no state that scores less than `x`.
pub open spec fn kept_or_beaten(beam: Seq<StateView>, x: StateView, k: nat) -> bool {
    beam.contains(x) || (beam.len() == k && forall|j: int|
        0 <= j < beam.len() ==> (#[trigger] beam[j]).score >= x.score)
}

/// After a state has entered, it and every state that was kept or beaten
/// before are kept or beaten.
pub proof fn lemma_beam_insert_keeps_best(beam: Seq<StateView>, s: StateView, k: nat)
    requires
        descending(beam),
        beam.len() <= k,
    ensures
        kept_or_beaten(beam_insert(beam, s, k), s, k),
        forall|x: StateView|
            kept_or_beaten(beam, x, k) ==> #[trigger] kept_or_beaten(beam_insert(beam, s, k), x, k),
{
    lemma_entry_index(beam, s.score);
    lemma_beam_insert(beam, s, k);
    let at = entry_index(beam, s.score);
    let grown = beam.insert(at, s);
    let out = beam_insert(beam, s, k);
    assert(descending(grown)) by {
        assert forall|i: int, j: int| 0 <= i < j < grown.len() implies grown[i].score
            >= grown[j].score by {
            if at > 0 {
                assert(beam[at - 1].score >= s.score);
            }
            if i < at && j == at {
                assert(grown[i] == beam[i]);
                assert(i <= at - 1);
            }
        }
    }
    assert(grown[at] == s);
    assert forall|h: int| 0 <= h < grown.len() implies #[trigger] kept_or_beaten(
        out,
        grown[h],
        k,
    ) by {
        if h < out.len() {
            assert(out[h] == grown[h]);
        } else {
            assert forall|j: int| 0 <= j < out.len() implies (#[trigger] out[j]).score
                >= grown[h].score by {
                assert(out[j] == grown[j]);
            }
        }
    }
    assert forall|x: StateView| kept_or_beaten(beam, x, k) implies #[trigger] kept_or_beaten(
        out,
        x,
        k,
    ) by {
        if beam.contains(x) {
            let i = choose|i: int| 0 <= i < beam.len() && beam[i] == x;
            if i < at {
                assert(grown[i] == x);
            } else {
                assert(grown[i + 1] == x);
            }
        } else {
            assert forall|j: int| 0 <= j < out.len() implies (#[trigger] out[j]).score
                >= x.score by {
                assert(out[j] == grown[j]);
                if j < at {
                    assert(grown[j] == beam[j]);
                } else if j > at {
                    assert(grown[j] == beam[j - 1]);
                } else {
                    if at < beam.len() {
                        assert(grown[at + 1] == beam[at]);
                        assert(grown[at].score >= grown[at + 1].score);
                    }
                }
            }
        }
    }
}

/// A frontier holds the best of what entered it: every state that was held
/// at first or entered later is either still held, or the frontier is full
/// and holds no state that scores less.
pub proof fn lemma_beam_fill_keeps_best(beam: Seq<StateView>, items: Seq<StateView>, k: nat)
    requires
        descending(beam),
        beam.len() <= k,
    ensures
        forall|i: int|
            0 <= i < beam.len() ==> kept_or_beaten(beam_fill(beam, items, k), #[trigger] beam[i], k),
        forall|i: int|
            0 <= i < items.len() ==> kept_or_beaten(
                beam_fill(beam, items, k),
                #[trigger] items[i],
                k,
            ),
    decreases items.len(),
{
    if items.len() > 0 {
        let front = items.drop_last();
        let before = beam_fill(beam, front, k);
        let out = beam_fill(beam, items, k);
        lemma_beam_fill_keeps_best(beam, front, k);
        lemma_beam_fill(beam, front, k);
        lemma_beam_insert_keeps_best(before, items.last(), k);
        assert forall|i: int| 0 <= i < beam.len() implies kept_or_beaten(
            out,
            #[trigger] beam[i],
            k,
        ) by {
            assert(kept_or_beaten(before, beam[i], k));
        }
        assert forall|i: int| 0 <= i < items.len() implies kept_or_beaten(
            out,
            #[trigger] items[i],
            k,
        ) by {
            if i < front.len() {
                assert(front[i] == items[i]);
                assert(kept_or_beaten(before, items[i], k));
            }
        }
    } else {
        assert forall|i: int| 0 <= i < beam.len() implies kept_or_beaten(
            beam,
            #[trigger] beam[i],
            k,
        ) by {}
    }
}

/// Where everything fits, the width does not matter: a frontier that has
/// room for all entering states evicts none, and any wider frontier ends up
/// the same.
pub proof fn lemma_beam_fill_roomy(
    beam: Seq<StateView>,
    items: Seq<StateView>,
    k: nat,
    wider: nat,
)
    requires
        beam.len() + items.len() <= k <= wider,
    ensures
        beam_fill(beam, items, k) == beam_fill(beam, items, wider),
        beam_fill(beam, items, k).len() == beam.len() + items.len(),
    decreases items.len(),
{
    if items.len() > 0 {
        lemma_beam_fill_roomy(beam, items.drop_last(), k, wider);
        lemma_entry_index(beam_fill(beam, items.drop_last(), k), items.last().score);
    }
}

/// Filling with one run of states and then another is filling with both.
pub proof fn lemma_beam_fill_concat(
    beam: Seq<StateView>,
    first: Seq<StateView>,
    second: Seq<StateView>,
    k: nat,
)
    ensures
        beam_fill(beam, first + second, k) == beam_fill(beam_fill(beam, first, k), second, k),
    decreases second.len(),
{
    if second.len() == 0 {
        assert(first + second =~= first);
    } else {
        lemma_beam_fill_concat(beam, first, second.drop_last(), k);
        assert((first + second).drop_last() =~= first + second.drop_last());
        assert((first + second).last() == second.last());
    }
}

/// Filling with no state or one is leaving the frontier alone or one entry.
pub proof fn lemma_beam_fill_optional(beam: Seq<StateView>, state: Option<StateView>, k: nat)
    ensures
        beam_fill(beam, optional(state), k) == match state {
            Some(s) => beam_insert(beam, s, k),
            None => beam,
        },
{
    match state {
        Some(s) => {
            assert(seq![s].drop_last() =~= Seq::<StateView>::empty());
            assert(beam_fill(beam, seq![s].drop_last(), k) == beam);
        },
        None => {},
    }
}

/// A bounded collection of the best states seen at one search depth.
#[derive(Debug)]
pub struct Frontier {
    items: Vec<State>,
    width: usize,
}

impl View for Frontier {
    type V = Seq<StateView>;

    closed spec fn view(&self) -> Seq<StateView> {
        views(self.items@)
    }
}

impl Frontier {
    /// The most states that the frontier holds.
    pub closed spec fn width(&self) -> nat {
        self.width as nat
    }

    /// The states stand in descending order of score and are no more than
    /// the width allows.
    pub open spec fn wf(&self) -> bool {
        &&& descending(self@)
        &&& self@.len() <= self.width()
    }

    /// An empty frontier of the given width.
    pub fn new(width: usize) -> (frontier: Frontier)
        ensures
            frontier@ == Seq::<StateView>::empty(),
            frontier.width() == width,
            frontier.wf(),
    {
        let frontier = Frontier { items: Vec::new(), width };
        assert(frontier@ =~= Seq::<StateView>::empty());
        frontier
    }

    /// Number of states held.
    pub fn len(&self) -> (count: usize)
        ensures
            count == self@.len(),
    {
        self.items.len()
    }

    /// Whether no state is held.
    pub fn is_empty(&self) -> (empty: bool)
        ensures
            empty == (self@.len() == 0),
    {
        self.items.len() == 0
    }

    /// Adds `state`; if the frontier then exceeds its width, evicts the
    /// lowest-scoring state, among equals the one that entered last.
    pub fn insert(&mut self, state: State)
        requires
            old(self).wf(),
        ensures
            final(self)@ == beam_insert(old(self)@, state@, old(self).width()),
            final(self).width() == old(self).width(),
            final(self).wf(),
    {
        let ghost beam = self@;
        let mut index: usize = self.items.len();
        assert(beam.take(index as int) =~= beam);
        while index > 0 && self.items[index - 1].score < state.score
            invariant
                index <= self.items.len(),
                self@ == beam,
                self.width == old(self).width,
                entry_index(beam, state@.score) == entry_index(beam.take(index as int), state@.score),
            decreases index,
        {
            assert(beam.take(index as int).drop_last() =~= beam.take(index - 1));
            index = index - 1;
        }
        proof {
            lemma_beam_insert(beam, state@, self.width as nat);
        }
        self.items.insert(index, state);
        assert(self@ =~= beam.insert(index as int, state@));
        if self.items.len() > self.width {
            self.items.pop();
            assert(self@ =~= beam.insert(index as int, state@).drop_last());
        }
    }

    /// The states held, best first.
    pub fn into_vec(self) -> (states: Vec<State>)
        ensures
            views(states@) == self@,
    {
        self.items
    }
}

/// Attempts the four moves from `state` within `region`, in the order up,
/// down, left, right, and enters each child into `queue` as it is made.
pub fn move_4(queue: &mut Frontier, state: &State, grid: &Grid, region: &Region)
    requires
        grid@.wf(),
        state@.is_walk(grid@),
        old(queue).wf(),
    ensures
        final(queue)@ == beam_fill(
            old(queue)@,
            children(grid@, *region, state@),
            old(queue).width(),
        ),
        final(queue).width() == old(queue).width(),
        final(queue).wf(),
        all_walks(grid@, old(queue)@) ==> all_walks(grid@, final(queue)@),
{
    let ghost k = queue.width();
    let ghost g = grid@;
    let ghost up = state@.try_move(g, *region, 'U');
    let ghost down = state@.try_move(g, *region, 'D');
    let ghost left = state@.try_move(g, *region, 'L');
    let ghost right = state@.try_move(g, *region, 'R');
    let ghost q0 = queue@;
    if let Some(s) = move_up(state, grid, region) {
        proof {
            lemma_beam_insert(queue@, s@, k);
        }
        queue.insert(s);
    }
    let ghost q1 = queue@;
    if let Some(s) = move_down(state, grid, region) {
        proof {
            lemma_beam_insert(queue@, s@, k);
        }
        queue.insert(s);
    }
    let ghost q2 = queue@;
    if let Some(s) = move_left(state, grid, region) {
        proof {
            lemma_beam_insert(queue@, s@, k);
        }
        queue.insert(s);
    }
    let ghost q3 = queue@;
    if let Some(s) = move_right(state, grid, region) {
        proof {
            lemma_beam_insert(queue@, s@, k);
        }
        queue.insert(s);
    }
    proof {
        lemma_beam_fill_optional(q0, up, k);
        lemma_beam_fill_optional(q1, down, k);
        lemma_beam_fill_optional(q2, left, k);
        lemma_beam_fill_optional(q3, right, k);
        lemma_beam_fill_concat(q0, optional(up), optional(down), k);
        lemma_beam_fill_concat(q0, optional(up) + optional(down), optional(left), k);
        lemma_beam_fill_concat(
            q0,
            optional(up) + optional(down) + optional(left),
            optional(right),
            k,
        );
    }
}

} // verus!
