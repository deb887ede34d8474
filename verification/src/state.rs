//! Search states: partial walks, and the single moves that extend them.

use std::collections::HashSet;
use std::ops::Range;
use vstd::prelude::*;
use vstd::std_specs::hash::*;
use vstd::string::*;
use crate::grid::{Grid, GridView};
use crate::walk::{
    is_move, lemma_walk_bounds, lemma_walk_cells, lemma_walk_push, step, walk_end, walk_ok,
    walk_score, walk_tiles,
};

verus! {

broadcast use group_hash_axioms;

/// A rectangular part of the grid: a half-open range of rows and a half-open
/// range of columns.
pub type Region = (Range<usize>, Range<usize>);

/// Whether the cell `p` lies in `region`.
pub open spec fn in_region(region: Region, p: (int, int)) -> bool {
    &&& region.0.start <= p.0 < region.0.end
    &&& region.1.start <= p.1 < region.1.end
}

/// One of the four single-step moves.
#[derive(Clone, Copy, Debug, PartialEq, Eq, Structural)]
pub enum Move {
    Up,
    Down,
    Left,
    Right,
}

impl Move {
    /// The character that stands for the move in a move log.
    pub open spec fn code(self) -> char {
        match self {
            Move::Up => 'U',
            Move::Down => 'D',
            Move::Left => 'L',
            Move::Right => 'R',
        }
    }
}

/// A candidate partial walk: where it stands, what it has scored, the moves
/// that led there and the tile labels collected on the way.
#[derive(Debug)]
pub struct State {
    pub score: u32,
    pub pos: (usize, usize),
    pub log: String,
    pub visited: HashSet<u32>,
}

/// A search state as mathematics.
pub ghost struct StateView {
    pub score: int,
    pub pos: (int, int),
    pub log: Seq<char>,
    pub visited: Set<u32>,
}

impl View for State {
    type V = StateView;

    open spec fn view(&self) -> StateView {
        StateView {
            score: self.score as int,
            pos: (self.pos.0 as int, self.pos.1 as int),
            log: self.log@,
            visited: self.visited@,
        }
    }
}

impl StateView {
    /// The state of a walk that stands on `start` and has not moved yet.
    pub open spec fn seed(g: GridView, start: (int, int)) -> StateView {
        StateView {
            score: g.value(start),
            pos: start,
            log: Seq::empty(),
            visited: set![g.tile(start)],
        }
    }

    /// Whether the state records the legal walk that its own move log
    /// describes from `start`: it stands where the walk ends, has the walk's
    /// score and has collected the walk's tile labels.
    pub open spec fn follows(self, g: GridView, start: (int, int)) -> bool {
        &&& walk_ok(g, start, self.log)
        &&& self.pos == walk_end(start, self.log)
        &&& self.score == walk_score(g, start, self.log)
        &&& self.visited == walk_tiles(g, start, self.log)
    }

    /// Whether the state records a legal walk from some cell of the grid.
    pub open spec fn is_walk(self, g: GridView) -> bool {
        exists|start: (int, int)| self.follows(g, start)
    }

    /// Whether the move coded by `d` is open to the state: the neighbour lies
    /// in the grid and in `region`, and its tile label is not yet collected.
    pub open spec fn can_move(self, g: GridView, region: Region, d: char) -> bool {
        &&& is_move(d)
        &&& g.inside(step(self.pos, d))
        &&& in_region(region, step(self.pos, d))
        &&& !self.visited.contains(g.tile(step(self.pos, d)))
    }

    /// The state after the move coded by `d`.
    pub open spec fn moved(self, g: GridView, d: char) -> StateView {
        StateView {
            score: self.score + g.value(step(self.pos, d)),
            pos: step(self.pos, d),
            log: self.log.push(d),
            visited: self.visited.insert(g.tile(step(self.pos, d))),
        }
    }

    /// The child state that the move coded by `d` produces, if the move is
    /// open.
    pub open spec fn try_move(self, g: GridView, region: Region, d: char) -> Option<StateView> {
        if self.can_move(g, region, d) {
            Some(self.moved(g, d))
        } else {
            None
        }
    }
}

/// The views of a sequence of states, in order.
pub open spec fn views(states: Seq<State>) -> Seq<StateView> {
    states.map_values(|s: State| s@)
}

/// Whether every state of the sequence records a legal walk from some cell.
pub open spec fn all_walks(g: GridView, states: Seq<StateView>) -> bool {
    forall|i: int| 0 <= i < states.len() ==> (#[trigger] states[i]).is_walk(g)
}

/// Whether every state of the sequence records a legal walk from `start`.
pub open spec fn all_follow(g: GridView, start: (int, int), states: Seq<StateView>) -> bool {
    forall|i: int| 0 <= i < states.len() ==> (#[trigger] states[i]).follows(g, start)
}

/// The view of an optional state.
pub open spec fn view_of(state: Option<State>) -> Option<StateView> {
    match state {
        Some(s) => Some(s@),
        None => None,
    }
}

/// A move that is open to a state on a walk from `start` leads to a state on
/// a walk from `start`, one move longer and with a score that still fits.
pub proof fn lemma_move_follows(
    g: GridView,
    region: Region,
    s: StateView,
    d: char,
    start: (int, int),
)
    requires
        g.wf(),
        s.follows(g, start),
        s.can_move(g, region, d),
    ensures
        s.moved(g, d).follows(g, start),
        s.moved(g, d).score <= u32::MAX,
        s.moved(g, d).log.len() == s.log.len() + 1,
{
    lemma_walk_push(g, start, s.log, d);
    lemma_walk_bounds(g, start, s.log.push(d));
}

/// A state on a walk stands inside the grid, on a cell whose label it has
/// collected, with a score that fits and fewer moves than the grid has cells.
pub proof fn lemma_walk_state(g: GridView, s: StateView)
    requires
        g.wf(),
        s.is_walk(g),
    ensures
        g.inside(s.pos),
        s.visited.contains(g.tile(s.pos)),
        0 <= s.score <= u32::MAX,
        s.log.len() < g.cells(),
{
    let start = choose|start: (int, int)| s.follows(g, start);
    lemma_walk_cells(g, start, s.log);
    lemma_walk_bounds(g, start, s.log);
}

/// Calls `HashSet::clone`, of which this states that the copy holds exactly
/// the labels that `labels` holds. Verus takes this on trust.
#[verifier::external_body]
fn clone_labels(labels: &HashSet<u32>) -> (copy: HashSet<u32>)
    ensures
        copy@ == labels@,
{
    labels.clone()
}

impl State {
    /// The state of a walk that stands on `start` and has not moved yet.
    pub fn seed(grid: &Grid, start: (usize, usize)) -> (state: State)
        requires
            grid@.wf(),
            grid@.inside((start.0 as int, start.1 as int)),
        ensures
            state@ == StateView::seed(grid@, (start.0 as int, start.1 as int)),
            state@.follows(grid@, (start.0 as int, start.1 as int)),
            state@.is_walk(grid@),
    {
        let mut visited: HashSet<u32> = HashSet::new();
        visited.insert(grid.tile_type(start));
        let state = State { score: grid.value(start), pos: start, log: String::new(), visited };
        proof {
            assert(state@.visited =~= set![grid@.tile((start.0 as int, start.1 as int))]);
            assert(state@.follows(grid@, (start.0 as int, start.1 as int)));
        }
        state
    }

    /// An independent copy of the state.
    pub fn duplicate(&self) -> (copy: State)
        ensures
            copy@ == self@,
    {
        State {
            score: self.score,
            pos: self.pos,
            log: self.log.clone(),
            visited: clone_labels(&self.visited),
        }
    }
}

/// The move log's text for a move.
fn code_text(dir: Move) -> (text: &'static str)
    ensures
        text@ == seq![dir.code()],
{
    proof {
        reveal_strlit("U");
        reveal_strlit("D");
        reveal_strlit("L");
        reveal_strlit("R");
    }
    let text = match dir {
        Move::Up => "U",
        Move::Down => "D",
        Move::Left => "L",
        Move::Right => "R",
    };
    assert(text@ =~= seq![dir.code()]);
    text
}

/// Attempts one move from `state`, restricted to `region`.
///
/// The move fails when the neighbouring cell lies outside the grid or
/// outside `region`, or when its tile label is already collected. Otherwise
/// the result is a new state on the neighbour, with the neighbour's value
/// added, the move appended to the log and the neighbour's label collected.
/// The parent state is left as it was.
pub fn try_move(state: &State, grid: &Grid, region: &Region, dir: Move) -> (child: Option<State>)
    requires
        grid@.wf(),
        state@.is_walk(grid@),
    ensures
        view_of(child) == state@.try_move(grid@, *region, dir.code()),
        child matches Some(c) ==> c@.is_walk(grid@),
{
    proof {
        lemma_walk_state(grid@, state@);
    }
    let side = grid.side();
    let (row, col) = state.pos;
    let next: (usize, usize) = match dir {
        Move::Up => {
            if row == 0 {
                return None;
            }
            (row - 1, col)
        },
        Move::Down => {
            if row + 1 >= side {
                return None;
            }
            (row + 1, col)
        },
        Move::Left => {
            if col == 0 {
                return None;
            }
            (row, col - 1)
        },
        Move::Right => {
            if col + 1 >= side {
                return None;
            }
            (row, col + 1)
        },
    };
    assert((next.0 as int, next.1 as int) == step(state@.pos, dir.code()));
    if !(region.0.start <= next.0 && next.0 < region.0.end && region.1.start <= next.1 && next.1
        < region.1.end) {
        return None;
    }
    let tile = grid.tile_type(next);
    if state.visited.contains(&tile) {
        return None;
    }
    proof {
        let start = choose|start: (int, int)| state@.follows(grid@, start);
        lemma_move_follows(grid@, *region, state@, dir.code(), start);
    }
    let mut child = state.duplicate();
    child.score = child.score + grid.value(next);
    child.pos = next;
    child.log.append(code_text(dir));
    child.visited.insert(tile);
    proof {
        assert(child@.log =~= state@.log.push(dir.code()));
        assert(child@ == state@.moved(grid@, dir.code()));
    }
    Some(child)
}

/// Attempts a move one row up within `region`.
pub fn move_up(state: &State, grid: &Grid, region: &Region) -> (child: Option<State>)
    requires
        grid@.wf(),
        state@.is_walk(grid@),
    ensures
        view_of(child) == state@.try_move(grid@, *region, 'U'),
        child matches Some(c) ==> c@.is_walk(grid@),
{
    try_move(state, grid, region, Move::Up)
}

/// Attempts a move one row down within `region`.
pub fn move_down(state: &State, grid: &Grid, region: &Region) -> (child: Option<State>)
    requires
        grid@.wf(),
        state@.is_walk(grid@),
    ensures
        view_of(child) == state@.try_move(grid@, *region, 'D'),
        child matches Some(c) ==> c@.is_walk(grid@),
{
    try_move(state, grid, region, Move::Down)
}

/// Attempts a move one column to the left within `region`.
pub fn move_left(state: &State, grid: &Grid, region: &Region) -> (child: Option<State>)
    requires
        grid@.wf(),
        state@.is_walk(grid@),
    ensures
        view_of(child) == state@.try_move(grid@, *region, 'L'),
        child matches Some(c) ==> c@.is_walk(grid@),
{
    try_move(state, grid, region, Move::Left)
}

/// Attempts a move one column to the right within `region`.
pub fn move_right(state: &State, grid: &Grid, region: &Region) -> (child: Option<State>)
    requires
        grid@.wf(),
        state@.is_walk(grid@),
    ensures
        view_of(child) == state@.try_move(grid@, *region, 'R'),
        child matches Some(c) ==> c@.is_walk(grid@),
{
    try_move(state, grid, region, Move::Right)
}

} // verus!
