use vstd::prelude::*;

use vstd::arithmetic::div_mod::{
    lemma_div_pos_is_pos, lemma_fundamental_div_mod_converse, lemma_mod_bound,
    lemma_multiply_divide_lt,
};
use vstd::set_lib::lemma_len_subset;

use crate::board::{
    adjacent, cell, direct_liberty_set, grid_square, group_liberty_set, group_set, in_group,
    on_grid, reach, Board, Grid, IntersectionState,
};
use crate::connectivity::{
    grid_coords, lemma_grid_coords_card, lemma_group_members_valid, lemma_in_group_base,
    lemma_in_group_step, lemma_shared_member_joins_groups,
};
use crate::errors::GoError;
use crate::gamecommand::GameCommand;

verus! {

broadcast use vstd::seq_lib::group_seq_properties;

/// The mathematical content of a snapshot: the grid and both capture counters.
#[verifier::ext_equal]
pub struct SnapModel {
    pub grid: Grid,
    pub white: nat,
    pub black: nat,
}

/// The grid with every coordinate in `s` cleared to Empty.
pub open spec fn cleared(g: Grid, s: Set<(usize, usize)>) -> Grid {
    Seq::new(
        g.len(),
        |y: int|
            Seq::new(
                g[y].len(),
                |x: int|
                    if s.contains((x as usize, y as usize)) {
                        IntersectionState::Empty
                    } else {
                        g[y][x]
                    },
            ),
    )
}

/// Whether the cell at `p` holds a stone whose group has no liberty left.
pub open spec fn dead_group_at(g: Grid, p: (usize, usize)) -> bool {
    cell(g, p) != IntersectionState::Empty && group_liberty_set(g, p).is_empty()
}

/// One capture-resolution step: when the group at `p` is dead it is cleared
/// and its size is credited to the opposing colour's counter.
pub open spec fn capture_step(m: SnapModel, p: (usize, usize)) -> SnapModel {
    if on_grid(m.grid, p) && dead_group_at(m.grid, p) {
        let grp = group_set(m.grid, p);
        SnapModel {
            grid: cleared(m.grid, grp),
            white: if cell(m.grid, p) == IntersectionState::Black {
                m.white + grp.len()
            } else {
                m.white
            },
            black: if cell(m.grid, p) == IntersectionState::White {
                m.black + grp.len()
            } else {
                m.black
            },
        }
    } else {
        m
    }
}

/// The sweep over the first `k` grid cells in row-major order (a full row of
/// columns before the next row), skipping the deferred `last_move` cell.
pub open spec fn sweep(m: SnapModel, last_move: Option<(usize, usize)>, k: nat) -> SnapModel
    decreases k,
{
    if k == 0 {
        m
    } else {
        let prev = sweep(m, last_move, (k - 1) as nat);
        let n = m.grid.len();
        let j = (k - 1) as nat;
        let p = ((j % n) as usize, (j / n) as usize);
        if last_move == Some(p) {
            prev
        } else {
            capture_step(prev, p)
        }
    }
}

/// The full capture resolution: every cell in row-major order with the last
/// move deferred, then the last move's own cell.
pub open spec fn spec_removed_dead_groups(m: SnapModel, last_move: Option<(usize, usize)>) -> SnapModel {
    let swept = sweep(m, last_move, m.grid.len() * m.grid.len());
    match last_move {
        None => swept,
        Some(p) => capture_step(swept, p),
    }
}

/// Defines a state in play, with all the necessary data to end the game.
#[derive(PartialEq, Eq, Debug)]
pub struct BoardState {
    pub board: Board,
    /// The number of stones white has captured
    pub white_prisoners: usize,
    /// The number of stones black has captured
    pub black_prisoners: usize,
}

impl Clone for BoardState {
    /// Returns a snapshot with an equal board and equal counters.
    fn clone(&self) -> (r: Self)
        ensures
            r.model() == self.model(),
            r.wf() <==> self.wf(),
    {
        BoardState {
            board: self.board.clone(),
            white_prisoners: self.white_prisoners,
            black_prisoners: self.black_prisoners,
        }
    }
}

impl BoardState {
    /// The snapshot's mathematical content.
    pub open spec fn model(&self) -> SnapModel {
        SnapModel {
            grid: self.board.grid(),
            white: self.white_prisoners as nat,
            black: self.black_prisoners as nat,
        }
    }

    /// A snapshot is valid when its board is.
    pub open spec fn wf(&self) -> bool {
        self.board.wf()
    }

    pub fn new() -> (r: BoardState)
        ensures
            r.wf(),
            r.model().white == 0,
            r.model().black == 0,
            r.model().grid.len() == 9,
            forall|p: (usize, usize)|
                on_grid(r.model().grid, p) ==> cell(r.model().grid, p)
                    == IntersectionState::Empty,
    {
        BoardState { board: Board::default(), white_prisoners: 0, black_prisoners: 0 }
    }

    /// Applies one capture-resolution step at the in-range cell (x, y): when
    /// the group there has no liberty it is cleared off the board and the
    /// opposing colour's counter grows by the group's size. The ghost set of
    /// already-cleared cells bounds the counters against overflow.
    #[verifier::loop_isolation(false)]
    fn capture_step_at(
        &mut self,
        x: usize,
        y: usize,
        base: Ghost<SnapModel>,
        done: Ghost<Set<(usize, usize)>>,
    ) -> (done2: Ghost<Set<(usize, usize)>>)
        requires
            old(self).wf(),
            on_grid(old(self).board.grid(), (x, y)),
            grid_square(old(self).board.grid(), base@.grid.len()),
            base@.grid.len() <= usize::MAX,
            base@.white + base@.black + base@.grid.len() * base@.grid.len() <= usize::MAX,
            done@.finite(),
            done@.subset_of(grid_coords(base@.grid.len())),
            old(self).white_prisoners + old(self).black_prisoners == base@.white + base@.black
                + done@.len(),
            forall|q: (usize, usize)| #[trigger]
                done@.contains(q) ==> cell(old(self).board.grid(), q) == IntersectionState::Empty,
        ensures
            final(self).wf(),
            final(self).model() == capture_step(old(self).model(), (x, y)),
            grid_square(final(self).board.grid(), base@.grid.len()),
            done2@.finite(),
            done2@.subset_of(grid_coords(base@.grid.len())),
            final(self).white_prisoners + final(self).black_prisoners == base@.white + base@.black
                + done2@.len(),
            forall|q: (usize, usize)| #[trigger]
                done2@.contains(q) ==> cell(final(self).board.grid(), q)
                    == IntersectionState::Empty,
    {
        let ghost n = base@.grid.len();
        let ghost g0 = self.board.grid();
        let ghost m_before = self.model();
        let state = match self.board.get_intersection(x, y) {
            Some(s) => s,
            None => {
                proof {
                    assert(false);
                }
                IntersectionState::Empty
            },
        };
        if state == IntersectionState::Empty {
            return done;
        }
        let grp = match self.board.find_intersections_in_group(x, y) {
            Ok(v) => v,
            Err(_) => {
                proof {
                    assert(false);
                }
                Vec::new()
            },
        };
        let libs = match self.board.find_true_liberties(x, y) {
            Ok(v) => v,
            Err(_) => {
                proof {
                    assert(false);
                }
                Vec::new()
            },
        };
        if libs.len() > 0 {
            proof {
                assert(libs@.to_set().contains(libs@[0]));
                assert(!group_liberty_set(g0, (x, y)).is_empty());
            }
            return done;
        }
        proof {
            assert(libs@.to_set() =~= Set::<(usize, usize)>::empty());
            assert(dead_group_at(g0, (x, y)));
            lemma_grid_coords_card(n);
        }
        let mut done_now: Ghost<Set<(usize, usize)>> = done;
        let mut idx: usize = 0;
        while idx < grp.len()
            invariant
                idx <= grp@.len(),
                self.wf(),
                grid_square(self.board.grid(), n),
                self.board.grid() =~~= cleared(g0, grp@.take(idx as int).to_set()),
                state == IntersectionState::Black ==> self.white_prisoners == m_before.white + idx
                    && self.black_prisoners == m_before.black,
                state == IntersectionState::White ==> self.black_prisoners == m_before.black + idx
                    && self.white_prisoners == m_before.white,
                done_now@.finite(),
                done_now@.subset_of(grid_coords(n)),
                self.white_prisoners + self.black_prisoners == base@.white + base@.black
                    + done_now@.len(),
                forall|q: (usize, usize)| #[trigger]
                    done_now@.contains(q) ==> cell(self.board.grid(), q)
                        == IntersectionState::Empty,
            decreases grp@.len() - idx,
        {
            let p = grp[idx];
            proof {
                assert(grp@.contains(p));
                assert(grp@.to_set().contains(p));
                lemma_group_members_valid(g0, (x, y), p);
                assert(g0[p.1 as int].len() == n);
                assert(!grp@.take(idx as int).to_set().contains(p)) by {
                    if grp@.take(idx as int).contains(p) {
                        let j = choose|j: int|
                            0 <= j < idx && grp@.take(idx as int)[j] == p;
                        assert(grp@[j] == grp@[idx as int]);
                    }
                }
                assert(cell(self.board.grid(), p) == cell(g0, p));
                assert(!done_now@.contains(p));
                assert(grid_coords(n).contains(p));
                lemma_len_subset(done_now@.insert(p), grid_coords(n));
                assert(done_now@.len() + 1 <= n * n);
            }
            let ghost grid_before_step = self.board.grid();
            match self.board.set_intersection(p.0, p.1, IntersectionState::Empty) {
                Ok(_) => {},
                Err(_) => {
                    proof {
                        assert(false);
                    }
                },
            }
            match state {
                IntersectionState::Empty => {
                    proof {
                        assert(false);
                    }
                },
                IntersectionState::Black => {
                    self.white_prisoners = self.white_prisoners + 1;
                },
                IntersectionState::White => {
                    self.black_prisoners = self.black_prisoners + 1;
                },
            }
            proof {
                done_now@ = done_now@.insert(p);
                assert(grp@.take(idx + 1) =~= grp@.take(idx as int).push(p));
                assert forall|q: (usize, usize)|
                    grp@.take(idx + 1).to_set().contains(q) <==> (grp@.take(
                        idx as int,
                    ).to_set().contains(q) || q == p) by {}
                assert(self.board.grid() =~~= cleared(g0, grp@.take(idx + 1).to_set()));
            }
            idx = idx + 1;
        }
        proof {
            assert(grp@.take(grp@.len() as int) == grp@);
            assert(grp@.to_set() == group_set(g0, (x, y)));
            grp@.unique_seq_to_set();
            assert(self.board.grid() =~~= cleared(g0, group_set(g0, (x, y))));
            assert(self.model() =~~= capture_step(m_before, (x, y)));
        }
        done_now
    }

    /// Removes dead groups from the board and updates the counts, returning an updated boardstate
    ///
    /// Optionally you can set last_move, which will process that move last, to have a proper result with ko
    #[verifier::loop_isolation(false)]
    pub fn removed_dead_groups(&self, last_move: Option<(usize, usize)>) -> (r: BoardState)
        requires
            self.wf(),
            last_move matches Some(p) ==> on_grid(self.board.grid(), p),
            self.white_prisoners + self.black_prisoners + self.board.grid().len()
                * self.board.grid().len() <= usize::MAX,
        ensures
            r.wf(),
            r.model() == spec_removed_dead_groups(self.model(), last_move),
    {
        let mut cloned = self.clone();
        let n = cloned.board.size();
        let ghost m0 = self.model();
        proof {
            assert(grid_square(m0.grid, n as nat));
        }
        let mut done: Ghost<Set<(usize, usize)>> = Ghost(Set::empty());
        let mut y: usize = 0;
        while y < n
            invariant
                y <= n,
                cloned.wf(),
                grid_square(cloned.board.grid(), n as nat),
                cloned.model() == sweep(m0, last_move, (y * n) as nat),
                done@.finite(),
                done@.subset_of(grid_coords(n as nat)),
                cloned.white_prisoners + cloned.black_prisoners == m0.white + m0.black
                    + done@.len(),
                forall|q: (usize, usize)| #[trigger]
                    done@.contains(q) ==> cell(cloned.board.grid(), q)
                        == IntersectionState::Empty,
            decreases n - y,
        {
            let mut x: usize = 0;
            while x < n
                invariant
                    x <= n,
                    y < n,
                    cloned.wf(),
                    grid_square(cloned.board.grid(), n as nat),
                    cloned.model() == sweep(m0, last_move, (y * n + x) as nat),
                    done@.finite(),
                    done@.subset_of(grid_coords(n as nat)),
                    cloned.white_prisoners + cloned.black_prisoners == m0.white + m0.black
                        + done@.len(),
                    forall|q: (usize, usize)| #[trigger]
                        done@.contains(q) ==> cell(cloned.board.grid(), q)
                            == IntersectionState::Empty,
                decreases n - x,
            {
                let ghost k = (y * n + x) as nat;
                proof {
                    assert(y * n + x <= n * n) by (nonlinear_arith)
                        requires
                            0 <= y < n,
                            0 <= x < n,
                    ;
                    lemma_fundamental_div_mod_converse(
                        k as int,
                        n as int,
                        y as int,
                        x as int,
                    );
                    assert((k % (n as nat)) as usize == x);
                    assert((k / (n as nat)) as usize == y);
                }
                let ghost before = cloned.model();
                let skip = match last_move {
                    Some(pr) => pr.0 == x && pr.1 == y,
                    None => false,
                };
                if !skip {
                    proof {
                        assert(on_grid(cloned.board.grid(), (x, y)));
                    }
                    done = cloned.capture_step_at(x, y, Ghost(m0), done);
                }
                proof {
                    assert(skip <==> last_move == Some((x, y)));
                    assert(cloned.model() == sweep(m0, last_move, (k + 1) as nat));
                }
                x = x + 1;
            }
            proof {
                assert((y + 1) * n == y * n + n) by (nonlinear_arith);
            }
            y = y + 1;
        }
        proof {
            assert((y * n) as nat == m0.grid.len() * m0.grid.len());
        }
        if let Some(pr) = last_move {
            proof {
                assert(pr.1 < n && pr.0 < n);
                assert(cloned.board.grid()[pr.1 as int].len() == n);
                assert(on_grid(cloned.board.grid(), pr));
            }
            done = cloned.capture_step_at(pr.0, pr.1, Ghost(m0), done);
        }
        proof {
            assert(cloned.model() == spec_removed_dead_groups(self.model(), last_move));
        }
        cloned
    }
}

impl Default for BoardState {
    /// A fresh snapshot: the customary small board with no captures yet.
    fn default() -> (r: Self)
        ensures
            r.wf(),
            r.model().white == 0,
            r.model().black == 0,
            r.model().grid.len() == 9,
    {
        BoardState::new()
    }
}

/// The snapshot after writing `s` at the in-range cell (x, y).
pub open spec fn placed(m: SnapModel, x: usize, y: usize, s: IntersectionState) -> SnapModel {
    SnapModel {
        grid: m.grid.update(y as int, m.grid[y as int].update(x as int, s)),
        white: m.white,
        black: m.black,
    }
}

/// Defines a general state of the game.
///
/// This is the most high level game related struct.
///
/// Holds a history of boardstates, so we can use undo
#[derive(PartialEq, Eq, Debug)]
pub struct GameState {
    pub history: Vec<BoardState>,
}

impl Clone for GameState {
    /// Returns a game with an equal history of snapshots.
    fn clone(&self) -> (r: Self)
        ensures
            r.models() == self.models(),
            r.wf() <==> self.wf(),
    {
        let h = self.copy_history();
        let g = GameState { history: h };
        proof {
            assert(g.models() =~= self.models());
            if self.wf() {
                assert forall|i: int| 0 <= i < g.history@.len() implies (#[trigger] g.history@[i]).wf() by {
                    assert(self.history@[i].wf());
                }
            }
            if g.wf() {
                assert forall|i: int|
                    0 <= i < self.history@.len() implies (#[trigger] self.history@[i]).wf() by {
                    assert(g.history@[i].wf());
                }
            }
        }
        g
    }
}

impl GameState {
    /// The history's snapshots as mathematical values.
    pub open spec fn models(&self) -> Seq<SnapModel> {
        self.history@.map_values(|b: BoardState| b.model())
    }

    /// A valid game holds at least the initial snapshot, each snapshot with a
    /// valid board.
    pub open spec fn wf(&self) -> bool {
        self.history@.len() >= 1 && forall|i: int|
            0 <= i < self.history@.len() ==> (#[trigger] self.history@[i]).wf()
    }

    /// A fresh copy of the history, snapshot for snapshot.
    fn copy_history(&self) -> (h: Vec<BoardState>)
        ensures
            h@.len() == self.history@.len(),
            forall|i: int|
                0 <= i < h@.len() ==> (#[trigger] h@[i]).model() == self.history@[i].model(),
            forall|i: int|
                0 <= i < h@.len() ==> ((#[trigger] h@[i]).wf() <==> self.history@[i].wf()),
    {
        let mut h: Vec<BoardState> = Vec::new();
        let mut i: usize = 0;
        while i < self.history.len()
            invariant
                i <= self.history@.len(),
                h@.len() == i,
                forall|j: int|
                    0 <= j < i ==> (#[trigger] h@[j]).model() == self.history@[j].model(),
                forall|j: int|
                    0 <= j < i ==> ((#[trigger] h@[j]).wf() <==> self.history@[j].wf()),
            decreases self.history@.len() - i,
        {
            h.push(self.history[i].clone());
            i = i + 1;
        }
        h
    }

    pub fn new() -> (r: Self)
        ensures
            r.wf(),
            r.models().len() == 1,
            r.models()[0].white == 0,
            r.models()[0].black == 0,
            r.models()[0].grid.len() == 9,
            forall|p: (usize, usize)|
                on_grid(r.models()[0].grid, p) ==> cell(r.models()[0].grid, p)
                    == IntersectionState::Empty,
    {
        GameState { history: vec![BoardState::new()] }
    }

    /// Whether `board` shows the same position as some snapshot already in
    /// the history: the simple ko check of the interface layer.
    pub fn board_repeats(&self, board: &Board) -> (r: bool)
        requires
            self.wf(),
            board.wf(),
        ensures
            r == exists|i: int|
                0 <= i < self.models().len() && (#[trigger] self.models()[i]).grid
                    == board.grid(),
    {
        let mut i: usize = 0;
        while i < self.history.len()
            invariant
                i <= self.history@.len(),
                self.wf(),
                board.wf(),
                forall|j: int| 0 <= j < i ==> (#[trigger] self.models()[j]).grid != board.grid(),
            decreases self.history@.len() - i,
        {
            proof {
                assert(self.history@[i as int].wf());
            }
            if self.history[i].board.same_position(board) {
                proof {
                    assert(self.models()[i as int].grid == board.grid());
                }
                return true;
            }
            i = i + 1;
        }
        false
    }

    /// Applies a command to the gamestate and returns a copy of self after the command
    ///
    /// A placement is bounds-checked, written, and then resolved for captures
    /// with the placed stone's own group deferred; whether the resulting
    /// board repeats an earlier position is left to the caller to judge with
    /// `board_repeats`.
    pub fn apply_command(&self, command: GameCommand) -> (r: Result<GameState, GoError>)
        requires
            self.wf(),
            command matches GameCommand::Place(x, y, s) ==> self.models().last().white
                + self.models().last().black + self.models().last().grid.len()
                * self.models().last().grid.len() <= usize::MAX,
        ensures
            match command {
                GameCommand::Place(x, y, s) => {
                    if on_grid(self.models().last().grid, (x, y)) {
                        &&& r matches Ok(g)
                        &&& g.wf()
                        &&& g.models() == self.models().push(
                            spec_removed_dead_groups(
                                placed(self.models().last(), x, y, s),
                                Some((x, y)),
                            ),
                        )
                    } else {
                        r == Err::<GameState, GoError>(
                            GoError::InvalidPosition {
                                x,
                                y,
                                size: self.models().last().grid.len() as usize,
                            },
                        )
                    }
                },
                GameCommand::Undo => {
                    if self.history@.len() >= 2 {
                        &&& r matches Ok(g)
                        &&& g.wf()
                        &&& g.models() == self.models().drop_last()
                    } else {
                        r == Err::<GameState, GoError>(GoError::NothingLeftToUndo)
                    }
                },
            },
    {
        match command {
            GameCommand::Place(x, y, state) => {
                let idx = self.history.len() - 1;
                proof {
                    assert(self.history@[idx as int].wf());
                    assert(self.history@[idx as int].model() == self.models().last());
                }
                let mut boardstate = self.history[idx].clone();
                match boardstate.board.set_intersection(x, y, state) {
                    Ok(_) => {},
                    Err(e) => {
                        return Err(e);
                    },
                }
                proof {
                    assert(boardstate.model() == placed(self.models().last(), x, y, state));
                }
                let resolved = boardstate.removed_dead_groups(Some((x, y)));
                let mut new_history = self.copy_history();
                new_history.push(resolved);
                let g = GameState { history: new_history };
                proof {
                    assert(g.models() =~= self.models().push(
                        spec_removed_dead_groups(
                            placed(self.models().last(), x, y, state),
                            Some((x, y)),
                        ),
                    ));
                }
                Ok(g)
            },
            GameCommand::Undo => {
                if self.history.len() < 2 {
                    return Err(GoError::NothingLeftToUndo);
                }
                let mut new_history = self.copy_history();
                new_history.pop();
                let g = GameState { history: new_history };
                proof {
                    assert(g.models() =~= self.models().drop_last());
                }
                Ok(g)
            },
        }
    }
}

/// The shape of a grid survives clearing: same number of rows, same row
/// lengths, and each cell either keeps its state or becomes Empty.
proof fn lemma_cleared_shape(g: Grid, s: Set<(usize, usize)>)
    ensures
        cleared(g, s).len() == g.len(),
        forall|y: int| 0 <= y < g.len() ==> (#[trigger] cleared(g, s)[y]).len() == g[y].len(),
        forall|x: (usize, usize)|
            on_grid(g, x) ==> #[trigger] cell(cleared(g, s), x) == (if s.contains(x) {
                IntersectionState::Empty
            } else {
                cell(g, x)
            }),
        forall|x: (usize, usize)| #[trigger] on_grid(cleared(g, s), x) <==> on_grid(g, x),
{
    assert forall|x: (usize, usize)| on_grid(g, x) implies #[trigger] cell(cleared(g, s), x) == (
        if s.contains(x) {
            IntersectionState::Empty
        } else {
            cell(g, x)
        }) by {
        assert(((x.0 as int) as usize, (x.1 as int) as usize) == x);
    }
}

proof fn lemma_reach_cleared_to_orig(
    g: Grid,
    q: (usize, usize),
    p: (usize, usize),
    x: (usize, usize),
    n: nat,
)
    requires
        on_grid(g, q),
        cell(g, q) != IntersectionState::Empty,
        on_grid(g, p),
        cell(g, p) != IntersectionState::Empty,
        !in_group(g, q, p),
        reach(cleared(g, group_set(g, q)), cell(g, p), p, x, n),
    ensures
        in_group(g, p, x),
    decreases n,
{
    let g2 = cleared(g, group_set(g, q));
    lemma_cleared_shape(g, group_set(g, q));
    if n == 0 {
        lemma_in_group_base(g, p);
    } else if reach(g2, cell(g, p), p, x, (n - 1) as nat) {
        lemma_reach_cleared_to_orig(g, q, p, x, (n - 1) as nat);
    } else {
        let y = choose|y: (usize, usize)|
            reach(g2, cell(g, p), p, y, (n - 1) as nat) && adjacent(y, x) && on_grid(g2, x)
                && cell(g2, x) == cell(g, p);
        lemma_reach_cleared_to_orig(g, q, p, y, (n - 1) as nat);
        assert(on_grid(g, x));
        assert(!group_set(g, q).contains(x));
        assert(cell(g, x) == cell(g, p));
        lemma_in_group_step(g, p, y, x);
    }
}

proof fn lemma_reach_orig_to_cleared(
    g: Grid,
    q: (usize, usize),
    p: (usize, usize),
    x: (usize, usize),
    n: nat,
)
    requires
        on_grid(g, q),
        cell(g, q) != IntersectionState::Empty,
        on_grid(g, p),
        cell(g, p) != IntersectionState::Empty,
        !in_group(g, q, p),
        reach(g, cell(g, p), p, x, n),
    ensures
        in_group(cleared(g, group_set(g, q)), p, x),
    decreases n,
{
    let g2 = cleared(g, group_set(g, q));
    lemma_cleared_shape(g, group_set(g, q));
    assert(!group_set(g, q).contains(p));
    assert(cell(g2, p) == cell(g, p));
    if n == 0 {
        lemma_in_group_base(g2, p);
    } else if reach(g, cell(g, p), p, x, (n - 1) as nat) {
        lemma_reach_orig_to_cleared(g, q, p, x, (n - 1) as nat);
    } else {
        let y = choose|y: (usize, usize)|
            reach(g, cell(g, p), p, y, (n - 1) as nat) && adjacent(y, x) && on_grid(g, x) && cell(
                g,
                x,
            ) == cell(g, p);
        lemma_reach_orig_to_cleared(g, q, p, y, (n - 1) as nat);
        assert(in_group(g, p, x));
        if group_set(g, q).contains(x) {
            lemma_shared_member_joins_groups(g, q, p, x);
        }
        assert(!group_set(g, q).contains(x));
        assert(cell(g2, x) == cell(g2, p));
        assert(on_grid(g2, x));
        lemma_in_group_step(g2, p, y, x);
    }
}

/// Clearing one whole component off the board leaves every other group
/// exactly as it was.
proof fn lemma_group_preserved_by_clearing(g: Grid, q: (usize, usize), p: (usize, usize))
    requires
        on_grid(g, q),
        cell(g, q) != IntersectionState::Empty,
        on_grid(g, p),
        cell(g, p) != IntersectionState::Empty,
        !in_group(g, q, p),
    ensures
        cell(cleared(g, group_set(g, q)), p) == cell(g, p),
        forall|x: (usize, usize)|
            #[trigger] in_group(cleared(g, group_set(g, q)), p, x) <==> in_group(g, p, x),
{
    let g2 = cleared(g, group_set(g, q));
    lemma_cleared_shape(g, group_set(g, q));
    assert(!group_set(g, q).contains(p));
    assert(cell(g2, p) == cell(g, p));
    assert forall|x: (usize, usize)| #[trigger] in_group(g2, p, x) implies in_group(g, p, x) by {
        let n = choose|n: nat| reach(g2, cell(g2, p), p, x, n);
        lemma_reach_cleared_to_orig(g, q, p, x, n);
    }
    assert forall|x: (usize, usize)| in_group(g, p, x) implies #[trigger] in_group(g2, p, x) by {
        let n = choose|n: nat| reach(g, cell(g, p), p, x, n);
        lemma_reach_orig_to_cleared(g, q, p, x, n);
    }
}

/// Clearing one whole dead component cannot take a liberty away from any
/// other group: cleared cells only add open space.
proof fn lemma_liberties_preserved_by_clearing(g: Grid, q: (usize, usize), p: (usize, usize))
    requires
        on_grid(g, q),
        cell(g, q) != IntersectionState::Empty,
        on_grid(g, p),
        cell(g, p) != IntersectionState::Empty,
        !in_group(g, q, p),
        !group_liberty_set(g, p).is_empty(),
    ensures
        !group_liberty_set(cleared(g, group_set(g, q)), p).is_empty(),
{
    let g2 = cleared(g, group_set(g, q));
    lemma_cleared_shape(g, group_set(g, q));
    lemma_group_preserved_by_clearing(g, q, p);
    let l = choose|l: (usize, usize)| group_liberty_set(g, p).contains(l);
    let a = choose|a: (usize, usize)|
        in_group(g, p, a) && direct_liberty_set(g, a).contains(l);
    assert(cell(g2, l) == IntersectionState::Empty);
    assert(direct_liberty_set(g2, a).contains(l));
    assert(in_group(g2, p, a));
    assert(group_liberty_set(g2, p).contains(l));
}

/// One capture-resolution step never changes a surviving stone's state.
proof fn lemma_capture_step_keeps_survivors(m: SnapModel, pp: (usize, usize), c: (usize, usize))
    requires
        on_grid(m.grid, c),
        cell(capture_step(m, pp).grid, c) != IntersectionState::Empty,
    ensures
        cell(m.grid, c) == cell(capture_step(m, pp).grid, c),
        on_grid(capture_step(m, pp).grid, c),
{
    lemma_cleared_shape(m.grid, group_set(m.grid, pp));
}

/// One capture-resolution step keeps every surviving group alive.
proof fn lemma_capture_step_keeps_alive(m: SnapModel, pp: (usize, usize), c: (usize, usize))
    requires
        on_grid(m.grid, c),
        cell(capture_step(m, pp).grid, c) != IntersectionState::Empty,
        !group_liberty_set(m.grid, c).is_empty(),
    ensures
        !group_liberty_set(capture_step(m, pp).grid, c).is_empty(),
{
    if on_grid(m.grid, pp) && dead_group_at(m.grid, pp) {
        lemma_cleared_shape(m.grid, group_set(m.grid, pp));
        assert(!group_set(m.grid, pp).contains(c));
        lemma_capture_step_keeps_survivors(m, pp, c);
        lemma_liberties_preserved_by_clearing(m.grid, pp, c);
    }
}

/// Capture correctness for one resolution step: when the group at `p` has no
/// liberty left, every one of its cells is cleared to Empty, every cell
/// outside it keeps its state, and the opposing colour's capture counter
/// grows by exactly the group's size.
pub proof fn lemma_capture_step_captures(m: SnapModel, p: (usize, usize))
    requires
        on_grid(m.grid, p),
        dead_group_at(m.grid, p),
    ensures
        forall|q: (usize, usize)|
            in_group(m.grid, p, q) ==> cell(#[trigger] capture_step(m, p).grid, q)
                == IntersectionState::Empty,
        forall|q: (usize, usize)|
            on_grid(m.grid, q) && !in_group(m.grid, p, q) ==> cell(
                #[trigger] capture_step(m, p).grid,
                q,
            ) == cell(m.grid, q),
        cell(m.grid, p) == IntersectionState::Black ==> capture_step(m, p).white == m.white
            + group_set(m.grid, p).len() && capture_step(m, p).black == m.black,
        cell(m.grid, p) == IntersectionState::White ==> capture_step(m, p).black == m.black
            + group_set(m.grid, p).len() && capture_step(m, p).white == m.white,
{
    assert forall|q: (usize, usize)| in_group(m.grid, p, q) implies cell(
        #[trigger] capture_step(m, p).grid,
        q,
    ) == IntersectionState::Empty by {
        lemma_group_members_valid(m.grid, p, q);
        assert(group_set(m.grid, p).contains(q));
    }
}

proof fn lemma_capture_step_square(m: SnapModel, pp: (usize, usize), n: nat)
    requires
        grid_square(m.grid, n),
    ensures
        grid_square(capture_step(m, pp).grid, n),
{
    lemma_cleared_shape(m.grid, group_set(m.grid, pp));
}

proof fn lemma_sweep_square(m: SnapModel, lm: Option<(usize, usize)>, k: nat, n: nat)
    requires
        grid_square(m.grid, n),
    ensures
        grid_square(sweep(m, lm, k).grid, n),
    decreases k,
{
    if k > 0 {
        lemma_sweep_square(m, lm, (k - 1) as nat, n);
        let j = (k - 1) as nat;
        let nn = m.grid.len();
        let p = ((j % nn) as usize, (j / nn) as usize);
        lemma_capture_step_square(sweep(m, lm, (k - 1) as nat), p, n);
    }
}

proof fn lemma_sweep_checked(m: SnapModel, lm: Option<(usize, usize)>, k: nat)
    requires
        grid_square(m.grid, m.grid.len()),
        m.grid.len() <= usize::MAX,
        k <= m.grid.len() * m.grid.len(),
    ensures
        forall|c: (usize, usize)|
            #![trigger cell(sweep(m, lm, k).grid, c)]
            on_grid(m.grid, c) && c.1 * m.grid.len() + c.0 < k && lm != Some(c) && cell(
                sweep(m, lm, k).grid,
                c,
            ) != IntersectionState::Empty ==> !group_liberty_set(sweep(m, lm, k).grid, c).is_empty(),
    decreases k,
{
    let n = m.grid.len();
    if k > 0 {
        lemma_sweep_checked(m, lm, (k - 1) as nat);
        lemma_sweep_square(m, lm, (k - 1) as nat, n);
        lemma_sweep_square(m, lm, k, n);
        let prev = sweep(m, lm, (k - 1) as nat);
        let cur = sweep(m, lm, k);
        let j = (k - 1) as nat;
        assert(n * n > 0);
        assert(n >= 1);
        lemma_mod_bound(j as int, n as int);
        lemma_multiply_divide_lt(j as int, n as int, n as int);
        lemma_div_pos_is_pos(j as int, n as int);
        let pk = ((j % n) as usize, (j / n) as usize);
        assert(on_grid(m.grid, pk));
        assert(on_grid(prev.grid, pk));
        assert forall|c: (usize, usize)|
            on_grid(m.grid, c) && c.1 * n + c.0 < k && lm != Some(c) && cell(cur.grid, c)
                != IntersectionState::Empty implies !group_liberty_set(cur.grid, c).is_empty() by {
            assert(on_grid(prev.grid, c));
            if c.1 * n + c.0 == j {
                lemma_fundamental_div_mod_converse(j as int, n as int, c.1 as int, c.0 as int);
                assert(c == pk);
                if lm == Some(pk) {
                    assert(false);
                } else {
                    assert(cur == capture_step(prev, pk));
                    if on_grid(prev.grid, pk) && dead_group_at(prev.grid, pk) {
                        lemma_cleared_shape(prev.grid, group_set(prev.grid, pk));
                        lemma_in_group_base(prev.grid, pk);
                        assert(group_set(prev.grid, pk).contains(pk));
                        assert(cell(cur.grid, pk) == IntersectionState::Empty);
                    } else {
                        assert(cur.grid == prev.grid);
                        assert(!dead_group_at(prev.grid, c));
                    }
                }
            } else {
                assert(c.1 * n + c.0 < j);
                if lm == Some(pk) {
                    assert(cur == prev);
                } else {
                    assert(cur == capture_step(prev, pk));
                    lemma_capture_step_keeps_survivors(prev, pk, c);
                    assert(cell(prev.grid, c) != IntersectionState::Empty);
                    assert(!group_liberty_set(prev.grid, c).is_empty());
                    lemma_capture_step_keeps_alive(prev, pk, c);
                }
            }
        }
    }
}

/// The ordering rule works: after full capture resolution no dead group
/// remains, because every cell is checked in the sweep or in the deferred
/// step, and removing a dead group never takes a liberty from the survivors.
pub proof fn lemma_no_dead_group_after_resolution(m: SnapModel, last_move: Option<(usize, usize)>)
    requires
        grid_square(m.grid, m.grid.len()),
        m.grid.len() <= usize::MAX,
        last_move matches Some(p) ==> on_grid(m.grid, p),
    ensures
        forall|c: (usize, usize)|
            on_grid(m.grid, c) && cell(spec_removed_dead_groups(m, last_move).grid, c)
                != IntersectionState::Empty ==> !(#[trigger] group_liberty_set(
                spec_removed_dead_groups(m, last_move).grid,
                c,
            )).is_empty(),
{
    let n = m.grid.len();
    lemma_sweep_checked(m, last_move, n * n);
    lemma_sweep_square(m, last_move, n * n, n);
    let swept = sweep(m, last_move, n * n);
    let result = spec_removed_dead_groups(m, last_move);
    assert forall|c: (usize, usize)|
        on_grid(m.grid, c) && cell(result.grid, c) != IntersectionState::Empty implies !(
    #[trigger] group_liberty_set(result.grid, c)).is_empty() by {
        assert(c.1 * n + c.0 < n * n) by (nonlinear_arith)
            requires
                c.1 < n,
                c.0 < n,
        ;
        assert(on_grid(swept.grid, c));
        match last_move {
            None => {
                assert(result == swept);
                assert(cell(sweep(m, last_move, n * n).grid, c) != IntersectionState::Empty);
            },
            Some(pp) => {
                assert(result == capture_step(swept, pp));
                if c == pp {
                    if on_grid(swept.grid, pp) && dead_group_at(swept.grid, pp) {
                        lemma_cleared_shape(swept.grid, group_set(swept.grid, pp));
                        lemma_in_group_base(swept.grid, pp);
                        assert(group_set(swept.grid, pp).contains(pp));
                        assert(cell(result.grid, pp) == IntersectionState::Empty);
                    } else {
                        assert(result.grid == swept.grid);
                        assert(!dead_group_at(swept.grid, c));
                    }
                } else {
                    lemma_capture_step_keeps_survivors(swept, pp, c);
                    assert(cell(sweep(m, last_move, n * n).grid, c)
                        != IntersectionState::Empty);
                    lemma_capture_step_keeps_alive(swept, pp, c);
                }
            },
        }
    }
}

/// Undo after a successful placement reverts it exactly: appending the move's
/// snapshot to a history and then dropping the last entry is the identity,
/// the length shrinks back by one, and the latest snapshot is again the one
/// from before the move.
pub proof fn lemma_undo_reverts_place(h: Seq<SnapModel>, s: SnapModel)
    requires
        h.len() >= 1,
    ensures
        h.push(s).drop_last() == h,
        h.push(s).len() == h.len() + 1,
        h.push(s).drop_last().last() == h.last(),
{
    assert(h.push(s).drop_last() =~= h);
}

} // verus!
