use vstd::prelude::*;

use crate::connectivity::{
    lemma_concat_contains, lemma_coord_seq_len, lemma_disjoint_concat_no_duplicates,
    lemma_group_in_closed_set, lemma_group_members_valid, lemma_in_group_base, lemma_in_group_step,
};
use crate::errors::GoError;

verus! {

broadcast use vstd::seq_lib::group_seq_properties;

/// Describes possible state of an intersection;
/// It can be empty, filled with a black stone or filled with a white stone.
#[derive(Clone, Copy, PartialEq, Eq, Debug, PartialOrd, Ord, Structural)]
pub enum IntersectionState {
    Empty,
    Black,
    White,
}

impl Default for IntersectionState {
    /// An intersection starts out empty.
    fn default() -> (r: Self)
        ensures
            r == IntersectionState::Empty,
    {
        IntersectionState::Empty
    }
}

/// The mathematical content of a board: a sequence of rows of cell states.
pub type Grid = Seq<Seq<IntersectionState>>;

/// A square grid of side `n`.
pub open spec fn grid_square(g: Grid, n: nat) -> bool {
    g.len() == n && forall|y: int| 0 <= y < n ==> (#[trigger] g[y]).len() == n
}

/// Whether the (column, row) coordinate `p` lies on the grid.
pub open spec fn on_grid(g: Grid, p: (usize, usize)) -> bool {
    p.1 < g.len() && p.0 < g[p.1 as int].len()
}

/// The state of the cell at coordinate `p`.
pub open spec fn cell(g: Grid, p: (usize, usize)) -> IntersectionState {
    g[p.1 as int][p.0 as int]
}

/// Orthogonal adjacency: `q` lies directly above, below, left or right of `p`.
pub open spec fn adjacent(p: (usize, usize), q: (usize, usize)) -> bool {
    ||| (p.0 == q.0 && (p.1 + 1 == q.1 || q.1 + 1 == p.1))
    ||| (p.1 == q.1 && (p.0 + 1 == q.0 || q.0 + 1 == p.0))
}

/// The empty orthogonal neighbours of `p`: its direct liberties.
pub open spec fn direct_liberty_set(g: Grid, p: (usize, usize)) -> Set<(usize, usize)> {
    Set::new(
        |q: (usize, usize)|
            on_grid(g, q) && adjacent(p, q) && cell(g, q) == IntersectionState::Empty,
    )
}

/// The coordinates reachable from `start` within `n` steps, where every step
/// moves to an orthogonal neighbour whose state equals `s`.
pub open spec fn reach(
    g: Grid,
    s: IntersectionState,
    start: (usize, usize),
    p: (usize, usize),
    n: nat,
) -> bool
    decreases n,
{
    if n == 0 {
        p == start
    } else {
        ||| reach(g, s, start, p, (n - 1) as nat)
        ||| exists|q: (usize, usize)|
            reach(g, s, start, q, (n - 1) as nat) && adjacent(q, p) && on_grid(g, p) && cell(g, p)
                == s
    }
}

/// Whether `p` belongs to the connected same-state component of `start`.
pub open spec fn in_group(g: Grid, start: (usize, usize), p: (usize, usize)) -> bool {
    exists|n: nat| reach(g, cell(g, start), start, p, n)
}

/// The connected same-state component of `start`.
pub open spec fn group_set(g: Grid, start: (usize, usize)) -> Set<(usize, usize)> {
    Set::new(|p: (usize, usize)| in_group(g, start, p))
}

/// The union of the direct liberties of every cell in the group of `start`:
/// the shared liberties that connected stones of one colour live and die by.
pub open spec fn group_liberty_set(g: Grid, start: (usize, usize)) -> Set<(usize, usize)> {
    Set::new(
        |q: (usize, usize)|
            exists|p: (usize, usize)|
                in_group(g, start, p) && direct_liberty_set(g, p).contains(q),
    )
}

/// Describes a go board
#[derive(PartialEq, Eq, Debug)]
pub struct Board {
    /// Data, stored in y, x format;
    /// A vector of rows;
    data: Vec<Vec<IntersectionState>>,
}

impl Board {
    /// The board's grid as a mathematical value.
    pub closed spec fn grid(&self) -> Grid {
        self.data@.map_values(|row: Vec<IntersectionState>| row@)
    }

    /// The grid dimension as a mathematical value.
    pub open spec fn spec_size(&self) -> nat {
        self.grid().len()
    }

    /// The grid is square: every row is exactly as long as there are rows.
    pub open spec fn wf(&self) -> bool {
        forall|y: int|
            0 <= y < self.grid().len() ==> (#[trigger] self.grid()[y]).len() == self.grid().len()
    }

    /// Returns the size of the board
    pub fn size(&self) -> (n: usize)
        ensures
            n == self.spec_size(),
    {
        self.data.len()
    }

    /// A fresh copy of the inner row data, cell for cell.
    fn copy_data(&self) -> (d: Vec<Vec<IntersectionState>>)
        ensures
            d@.map_values(|row: Vec<IntersectionState>| row@) == self.grid(),
    {
        let mut rows: Vec<Vec<IntersectionState>> = Vec::new();
        let mut y: usize = 0;
        while y < self.data.len()
            invariant
                y <= self.data@.len(),
                rows@.len() == y,
                forall|j: int| 0 <= j < y ==> (#[trigger] rows@[j])@ == self.grid()[j],
            decreases self.data@.len() - y,
        {
            let src_row = &self.data[y];
            let mut row: Vec<IntersectionState> = Vec::new();
            let mut x: usize = 0;
            while x < src_row.len()
                invariant
                    x <= src_row@.len(),
                    row@.len() == x,
                    forall|i: int| 0 <= i < x ==> row@[i] == src_row@[i],
                decreases src_row@.len() - x,
            {
                row.push(src_row[x]);
                x = x + 1;
            }
            assert(row@ =~= src_row@);
            rows.push(row);
            y = y + 1;
        }
        assert(rows@.map_values(|row: Vec<IntersectionState>| row@) =~~= self.grid());
        rows
    }

    /// Clones and returns inner data.
    pub fn get_data(&self) -> (d: Vec<Vec<IntersectionState>>)
        ensures
            d@.map_values(|row: Vec<IntersectionState>| row@) == self.grid(),
    {
        self.copy_data()
    }

    /// Overrides the board to the given data
    pub fn set_data(&mut self, data: Vec<Vec<IntersectionState>>)
        ensures
            final(self).grid() == data@.map_values(|row: Vec<IntersectionState>| row@),
    {
        self.data = data;
    }

    /// Creates a new board, size x size big
    pub fn new(size: usize) -> (board: Board)
        ensures
            board.wf(),
            board.spec_size() == size,
            forall|p: (usize, usize)|
                on_grid(board.grid(), p) ==> cell(board.grid(), p) == IntersectionState::Empty,
    {
        let mut data: Vec<Vec<IntersectionState>> = Vec::new();
        let mut y: usize = 0;
        while y < size
            invariant
                y <= size,
                data@.len() == y,
                forall|j: int|
                    0 <= j < y ==> (#[trigger] data@[j])@ =~= Seq::new(
                        size as nat,
                        |i: int| IntersectionState::Empty,
                    ),
            decreases size - y,
        {
            let mut row: Vec<IntersectionState> = Vec::new();
            let mut x: usize = 0;
            while x < size
                invariant
                    x <= size,
                    row@.len() == x,
                    forall|i: int| 0 <= i < x ==> row@[i] == IntersectionState::Empty,
                decreases size - x,
            {
                row.push(IntersectionState::Empty);
                x = x + 1;
            }
            assert(row@ =~= Seq::new(size as nat, |i: int| IntersectionState::Empty));
            data.push(row);
            y = y + 1;
        }
        let board = Board { data };
        board
    }

    /// Returns the state of the intersection at x, y
    pub fn get_intersection(&self, x: usize, y: usize) -> (r: Option<IntersectionState>)
        requires
            self.wf(),
        ensures
            on_grid(self.grid(), (x, y)) ==> r == Some(cell(self.grid(), (x, y))),
            !on_grid(self.grid(), (x, y)) ==> r is None,
    {
        if x >= self.data.len() || y >= self.data.len() {
            return None;
        }
        Some(self.data[y][x])
    }

    /// Sets a state of an intersection, without performing any checks.
    /// Does not adhere to rules.
    pub fn set_intersection(&mut self, x: usize, y: usize, state: IntersectionState) -> (r: Result<
        (),
        GoError,
    >)
        requires
            old(self).wf(),
        ensures
            final(self).wf(),
            final(self).spec_size() == old(self).spec_size(),
            on_grid(old(self).grid(), (x, y)) ==> r is Ok && final(self).grid() == old(
                self,
            ).grid().update(y as int, old(self).grid()[y as int].update(x as int, state)),
            !on_grid(old(self).grid(), (x, y)) ==> r == Err::<(), GoError>(
                GoError::InvalidPosition { x, y, size: old(self).grid().len() as usize },
            ) && final(self).grid() == old(self).grid(),
    {
        if x >= self.data.len() || y >= self.data.len() {
            return Err(GoError::InvalidPosition { x, y, size: self.data.len() });
        }
        proof {
            assert(self.grid()[y as int] == self.data@[y as int]@);
            assert(self.grid()[y as int].len() == self.grid().len());
        }
        self.data[y][x] = state;
        assert(self.grid() =~~= old(self).grid().update(
            y as int,
            old(self).grid()[y as int].update(x as int, state),
        ));
        Ok(())
    }

    /// The state at an in-range coordinate.
    fn cell_at(&self, x: usize, y: usize) -> (s: IntersectionState)
        requires
            on_grid(self.grid(), (x, y)),
        ensures
            s == cell(self.grid(), (x, y)),
    {
        proof {
            assert(self.grid()[y as int] == self.data@[y as int]@);
        }
        self.data[y][x]
    }

    /// The direct liberties of an in-range coordinate, free of duplicates.
    fn direct_libs_core(&self, x: usize, y: usize) -> (v: Vec<(usize, usize)>)
        requires
            self.wf(),
            on_grid(self.grid(), (x, y)),
        ensures
            v@.no_duplicates(),
            v@.to_set() == direct_liberty_set(self.grid(), (x, y)),
    {
        let ghost g = self.grid();
        let n = self.data.len();
        proof {
            assert(g[y as int].len() == n);
        }
        let mut libs: Vec<(usize, usize)> = Vec::new();
        if y > 0 {
            proof {
                assert(g[y - 1].len() == n);
            }
            if self.cell_at(x, y - 1) == IntersectionState::Empty {
                libs.push((x, y - 1));
            }
        }
        if x > 0 {
            if self.cell_at(x - 1, y) == IntersectionState::Empty {
                libs.push((x - 1, y));
            }
        }
        if x + 1 < n {
            if self.cell_at(x + 1, y) == IntersectionState::Empty {
                libs.push((x + 1, y));
            }
        }
        if y + 1 < n {
            if self.cell_at(x, y + 1) == IntersectionState::Empty {
                libs.push((x, y + 1));
            }
        }
        proof {
            assert forall|q: (usize, usize)| #[trigger]
                direct_liberty_set(g, (x, y)).contains(q) implies libs@.contains(q) by {
                assert(g[q.1 as int].len() == g.len());
                if q.1 < y {
                    assert(q == ((x, (y - 1) as usize)));
                } else if q.0 < x {
                    assert(q == (((x - 1) as usize, y)));
                } else if q.0 > x {
                    assert(q == (((x + 1) as usize, y)));
                } else {
                    assert(q == ((x, (y + 1) as usize)));
                }
            }
            assert forall|q: (usize, usize)| #[trigger] libs@.contains(q) implies
                direct_liberty_set(g, (x, y)).contains(q) by {}
            assert(libs@.to_set() =~= direct_liberty_set(g, (x, y)));
        }
        libs
    }

    /// Returns the "direct" liberties of an intersection.
    ///
    /// Direct liberties are liberties above, below, to the right and to the left of the intersection.
    /// (The lines of each intersection axis)
    ///
    /// Each intersection can have between 0 and 4 direct liberties.
    pub fn interesection_direct_liberties(&self, x: usize, y: usize) -> (r: Result<
        Vec<(usize, usize)>,
        GoError,
    >)
        requires
            self.wf(),
        ensures
            !on_grid(self.grid(), (x, y)) ==> r == Err::<Vec<(usize, usize)>, GoError>(
                GoError::InvalidPosition { x, y, size: self.grid().len() as usize },
            ),
            on_grid(self.grid(), (x, y)) ==> (r matches Ok(v) && v@.no_duplicates()
                && v@.to_set() == direct_liberty_set(self.grid(), (x, y))),
    {
        if x >= self.data.len() || y >= self.data.len() {
            return Err(GoError::InvalidPosition { x, y, size: self.data.len() });
        }
        Ok(self.direct_libs_core(x, y))
    }

    /// Examines one neighbour candidate `c` of the group member `p`, queueing
    /// it on `next` when it matches the group state and is not yet recorded.
    fn consider_neighbour(
        &self,
        home: IntersectionState,
        start: Ghost<(usize, usize)>,
        p: (usize, usize),
        c: (usize, usize),
        settled: &Vec<(usize, usize)>,
        frontier: &Vec<(usize, usize)>,
        next: &mut Vec<(usize, usize)>,
    )
        requires
            self.wf(),
            on_grid(self.grid(), start@),
            home == cell(self.grid(), start@),
            in_group(self.grid(), start@, p),
            adjacent(p, c),
            on_grid(self.grid(), c),
            old(next)@.no_duplicates(),
            forall|q: (usize, usize)| #[trigger]
                old(next)@.contains(q) ==> on_grid(self.grid(), q) && cell(self.grid(), q) == home
                    && in_group(self.grid(), start@, q) && !settled@.contains(q)
                    && !frontier@.contains(q),
        ensures
            final(next)@.no_duplicates(),
            forall|q: (usize, usize)| #[trigger]
                final(next)@.contains(q) ==> on_grid(self.grid(), q) && cell(self.grid(), q)
                    == home && in_group(self.grid(), start@, q) && !settled@.contains(q)
                    && !frontier@.contains(q),
            forall|q: (usize, usize)| #[trigger]
                old(next)@.contains(q) ==> final(next)@.contains(q),
            forall|q: (usize, usize)| #[trigger]
                final(next)@.contains(q) ==> old(next)@.contains(q) || q == c,
            cell(self.grid(), c) == home ==> settled@.contains(c) || frontier@.contains(c)
                || final(next)@.contains(c),
    {
        let st = self.cell_at(c.0, c.1);
        if st == home {
            if !coords_contain(settled, c) && !coords_contain(frontier, c) && !coords_contain(
                next,
                c,
            ) {
                proof {
                    lemma_in_group_step(self.grid(), start@, p, c);
                }
                next.push(c);
            }
        }
    }

    /// The connected component of the in-range coordinate (x, y), collected by
    /// breadth-first expansion: a settled list and a frontier list, where each
    /// round inspects the neighbours of every frontier cell, then moves the
    /// frontier into the settled list.
    #[verifier::loop_isolation(false)]
    fn group_core(&self, x: usize, y: usize) -> (v: Vec<(usize, usize)>)
        requires
            self.wf(),
            on_grid(self.grid(), (x, y)),
        ensures
            v@.no_duplicates(),
            v@.to_set() == group_set(self.grid(), (x, y)),
    {
        let ghost g = self.grid();
        let ghost start = (x, y);
        let home = self.cell_at(x, y);
        let n = self.data.len();
        let mut settled: Vec<(usize, usize)> = Vec::new();
        let mut frontier: Vec<(usize, usize)> = Vec::new();
        frontier.push((x, y));
        proof {
            lemma_in_group_base(g, start);
            assert(n * n >= 1) by (nonlinear_arith)
                requires
                    n >= 1,
            ;
        }
        while frontier.len() > 0
            invariant
                settled@.no_duplicates(),
                frontier@.no_duplicates(),
                forall|q: (usize, usize)|
                    !(#[trigger] settled@.contains(q) && frontier@.contains(q)),
                forall|q: (usize, usize)| #[trigger]
                    settled@.contains(q) ==> on_grid(g, q) && cell(g, q) == home && in_group(
                        g,
                        start,
                        q,
                    ),
                forall|q: (usize, usize)| #[trigger]
                    frontier@.contains(q) ==> on_grid(g, q) && cell(g, q) == home && in_group(
                        g,
                        start,
                        q,
                    ),
                settled@.contains(start) || frontier@.contains(start),
                forall|a: (usize, usize), b: (usize, usize)|
                    #![trigger settled@.contains(a), adjacent(a, b)]
                    settled@.contains(a) && adjacent(a, b) && on_grid(g, b) && cell(g, b) == home
                        ==> settled@.contains(b) || frontier@.contains(b),
                settled@.len() + frontier@.len() <= n * n,
            decreases n * n - settled@.len(),
        {
            let ghost settled0 = settled@;
            let ghost frontier0 = frontier@;
            let mut next: Vec<(usize, usize)> = Vec::new();
            let mut i: usize = 0;
            while i < frontier.len()
                invariant
                    i <= frontier@.len(),
                    settled@ == settled0,
                    frontier@ == frontier0,
                    next@.no_duplicates(),
                    forall|q: (usize, usize)| #[trigger]
                        next@.contains(q) ==> on_grid(g, q) && cell(g, q) == home && in_group(
                            g,
                            start,
                            q,
                        ) && !settled@.contains(q) && !frontier@.contains(q),
                    forall|k: int, b: (usize, usize)|
                        #![trigger adjacent(frontier@[k], b)]
                        0 <= k < i && adjacent(frontier@[k], b) && on_grid(g, b) && cell(g, b)
                            == home ==> settled@.contains(b) || frontier@.contains(b)
                            || next@.contains(b),
                decreases frontier@.len() - i,
            {
                let p = frontier[i];
                proof {
                    assert(frontier@.contains(p));
                    assert(g[p.1 as int].len() == n);
                }
                if p.1 > 0 {
                    let c = (p.0, p.1 - 1);
                    proof {
                        assert(g[c.1 as int].len() == n);
                    }
                    self.consider_neighbour(home, Ghost(start), p, c, &settled, &frontier, &mut next);
                }
                if p.0 > 0 {
                    let c = (p.0 - 1, p.1);
                    self.consider_neighbour(home, Ghost(start), p, c, &settled, &frontier, &mut next);
                }
                if p.0 + 1 < n {
                    let c = (p.0 + 1, p.1);
                    self.consider_neighbour(home, Ghost(start), p, c, &settled, &frontier, &mut next);
                }
                if p.1 + 1 < n {
                    let c = (p.0, p.1 + 1);
                    proof {
                        assert(g[c.1 as int].len() == n);
                    }
                    self.consider_neighbour(home, Ghost(start), p, c, &settled, &frontier, &mut next);
                }
                proof {
                    assert forall|b: (usize, usize)|
                        adjacent(p, b) && on_grid(g, b) && cell(g, b) == home implies
                        settled@.contains(b) || frontier@.contains(b) || next@.contains(b) by {
                        assert(g[b.1 as int].len() == n);
                        if b.1 < p.1 {
                            assert(b == ((p.0, (p.1 - 1) as usize)));
                        } else if b.0 < p.0 {
                            assert(b == (((p.0 - 1) as usize, p.1)));
                        } else if b.0 > p.0 {
                            assert(b == (((p.0 + 1) as usize, p.1)));
                        } else {
                            assert(b == ((p.0, (p.1 + 1) as usize)));
                        }
                    }
                }
                i = i + 1;
            }
            proof {
                assert forall|q: (usize, usize)|
                    !(#[trigger] (settled0 + frontier0).contains(q) && next@.contains(q)) by {
                    lemma_concat_contains(settled0, frontier0, q);
                }
                lemma_disjoint_concat_no_duplicates(settled0, frontier0);
                lemma_disjoint_concat_no_duplicates(settled0 + frontier0, next@);
                let all = (settled0 + frontier0) + next@;
                assert forall|j: int| 0 <= j < all.len() implies (#[trigger] all[j]).0 < n
                    && all[j].1 < n by {
                    let q = all[j];
                    assert(all.contains(q));
                    lemma_concat_contains(settled0 + frontier0, next@, q);
                    lemma_concat_contains(settled0, frontier0, q);
                    assert(on_grid(g, q));
                    assert(g[q.1 as int].len() == n);
                }
                lemma_coord_seq_len(all, n as nat);
            }
            let ghost frontier_len0 = frontier@.len();
            settled.append(&mut frontier);
            frontier = next;
            proof {
                assert(settled@ == settled0 + frontier0);
                assert forall|q: (usize, usize)| #[trigger] settled@.contains(q) implies on_grid(
                    g,
                    q,
                ) && cell(g, q) == home && in_group(g, start, q) by {
                    lemma_concat_contains(settled0, frontier0, q);
                }
                assert forall|q: (usize, usize)|
                    !(#[trigger] settled@.contains(q) && frontier@.contains(q)) by {
                    lemma_concat_contains(settled0, frontier0, q);
                }
                assert(settled@.contains(start) || frontier@.contains(start)) by {
                    if settled0.contains(start) {
                        lemma_concat_contains(settled0, frontier0, start);
                    } else if frontier0.contains(start) {
                        lemma_concat_contains(settled0, frontier0, start);
                    }
                }
                assert forall|a: (usize, usize), b: (usize, usize)|
                    #![trigger settled@.contains(a), adjacent(a, b)]
                    settled@.contains(a) && adjacent(a, b) && on_grid(g, b) && cell(g, b)
                        == home implies settled@.contains(b) || frontier@.contains(b) by {
                    lemma_concat_contains(settled0, frontier0, a);
                    if settled0.contains(a) {
                        if settled0.contains(b) || frontier0.contains(b) {
                            lemma_concat_contains(settled0, frontier0, b);
                        }
                    } else {
                        let k = choose|k: int| 0 <= k < frontier0.len() && frontier0[k] == a;
                        assert(adjacent(frontier0[k], b));
                        if settled0.contains(b) || frontier0.contains(b) {
                            lemma_concat_contains(settled0, frontier0, b);
                        }
                    }
                }
                assert((settled0 + frontier0).len() + next@.len() <= n * n);
            }
        }
        proof {
            let closed = settled@.to_set();
            lemma_group_in_closed_set(g, start, closed);
            assert(settled@.to_set() =~= group_set(g, start));
        }
        settled
    }

    /// Find all intersections in a group, with (x, y) being the starting stone.
    pub fn find_intersections_in_group(&self, x: usize, y: usize) -> (r: Result<
        Vec<(usize, usize)>,
        GoError,
    >)
        requires
            self.wf(),
        ensures
            !on_grid(self.grid(), (x, y)) ==> r == Err::<Vec<(usize, usize)>, GoError>(
                GoError::InvalidPosition { x, y, size: self.grid().len() as usize },
            ),
            on_grid(self.grid(), (x, y)) ==> (r matches Ok(v) && v@.no_duplicates()
                && v@.to_set() == group_set(self.grid(), (x, y))),
    {
        if x >= self.data.len() || y >= self.data.len() {
            return Err(GoError::InvalidPosition { x, y, size: self.data.len() });
        }
        Ok(self.group_core(x, y))
    }

    /// The union of direct liberties over the group of the in-range
    /// coordinate (x, y), free of duplicates.
    #[verifier::loop_isolation(false)]
    fn liberties_core(&self, x: usize, y: usize) -> (v: Vec<(usize, usize)>)
        requires
            self.wf(),
            on_grid(self.grid(), (x, y)),
        ensures
            v@.no_duplicates(),
            v@.to_set() == group_liberty_set(self.grid(), (x, y)),
    {
        let ghost g = self.grid();
        let ghost start = (x, y);
        let grp = self.group_core(x, y);
        let mut libs: Vec<(usize, usize)> = Vec::new();
        let mut i: usize = 0;
        while i < grp.len()
            invariant
                i <= grp@.len(),
                libs@.no_duplicates(),
                forall|q: (usize, usize)| #[trigger]
                    libs@.contains(q) ==> group_liberty_set(g, start).contains(q),
                forall|k: int, q: (usize, usize)|
                    #![trigger direct_liberty_set(g, grp@[k]).contains(q)]
                    0 <= k < i && direct_liberty_set(g, grp@[k]).contains(q) ==> libs@.contains(q),
            decreases grp@.len() - i,
        {
            let p = grp[i];
            proof {
                assert(grp@.contains(p));
                assert(grp@.to_set().contains(p));
                lemma_group_members_valid(g, start, p);
            }
            let dl = self.direct_libs_core(p.0, p.1);
            let mut j: usize = 0;
            while j < dl.len()
                invariant
                    j <= dl@.len(),
                    libs@.no_duplicates(),
                    forall|q: (usize, usize)| #[trigger]
                        libs@.contains(q) ==> group_liberty_set(g, start).contains(q),
                    forall|m: int| 0 <= m < j ==> libs@.contains(#[trigger] dl@[m]),
                    forall|k: int, q: (usize, usize)|
                        #![trigger direct_liberty_set(g, grp@[k]).contains(q)]
                        0 <= k < i && direct_liberty_set(g, grp@[k]).contains(q) ==> libs@.contains(
                            q,
                        ),
                decreases dl@.len() - j,
            {
                let q = dl[j];
                if !coords_contain(&libs, q) {
                    proof {
                        assert(dl@.contains(q));
                        assert(dl@.to_set().contains(q));
                        assert(direct_liberty_set(g, p).contains(q));
                        assert(in_group(g, start, p));
                        assert(group_liberty_set(g, start).contains(q));
                    }
                    libs.push(q);
                }
                j = j + 1;
            }
            proof {
                assert forall|q: (usize, usize)|
                    direct_liberty_set(g, grp@[i as int]).contains(q) implies libs@.contains(q) by {
                    assert(dl@.to_set().contains(q));
                    let m = choose|m: int| 0 <= m < dl@.len() && dl@[m] == q;
                    assert(libs@.contains(dl@[m]));
                }
            }
            i = i + 1;
        }
        proof {
            assert forall|q: (usize, usize)| #[trigger]
                group_liberty_set(g, start).contains(q) implies libs@.contains(q) by {
                let p = choose|p: (usize, usize)|
                    in_group(g, start, p) && direct_liberty_set(g, p).contains(q);
                assert(grp@.to_set().contains(p));
                let k = choose|k: int| 0 <= k < grp@.len() && grp@[k] == p;
                assert(direct_liberty_set(g, grp@[k]).contains(q));
            }
            assert(libs@.to_set() =~= group_liberty_set(g, start));
        }
        libs
    }

    /// Returns the true liberties of an intersection.
    ///
    /// Stones of the same color share liberties;
    /// This calculates the shared liberties of a connected group of stones.
    pub fn find_true_liberties(&self, x: usize, y: usize) -> (r: Result<
        Vec<(usize, usize)>,
        GoError,
    >)
        requires
            self.wf(),
        ensures
            !on_grid(self.grid(), (x, y)) ==> r == Err::<Vec<(usize, usize)>, GoError>(
                GoError::InvalidPosition { x, y, size: self.grid().len() as usize },
            ),
            on_grid(self.grid(), (x, y)) ==> (r matches Ok(v) && v@.no_duplicates()
                && v@.to_set() == group_liberty_set(self.grid(), (x, y))),
    {
        if x >= self.data.len() || y >= self.data.len() {
            return Err(GoError::InvalidPosition { x, y, size: self.data.len() });
        }
        Ok(self.liberties_core(x, y))
    }
}

impl Board {
    /// Whether two boards show the same position, cell for cell: the
    /// comparison the interface layer uses for its simple ko check.
    pub fn same_position(&self, other: &Board) -> (r: bool)
        requires
            self.wf(),
            other.wf(),
        ensures
            r == (self.grid() == other.grid()),
    {
        let n = self.data.len();
        if n != other.data.len() {
            proof {
                assert(self.grid().len() != other.grid().len());
            }
            return false;
        }
        let mut y: usize = 0;
        while y < n
            invariant
                y <= n,
                n == self.grid().len(),
                n == other.grid().len(),
                self.wf(),
                other.wf(),
                forall|j: int| 0 <= j < y ==> self.grid()[j] == #[trigger] other.grid()[j],
            decreases n - y,
        {
            let mut x: usize = 0;
            while x < n
                invariant
                    x <= n,
                    y < n,
                    n == self.grid().len(),
                    n == other.grid().len(),
                    self.wf(),
                    other.wf(),
                    forall|j: int| 0 <= j < y ==> self.grid()[j] == #[trigger] other.grid()[j],
                    forall|i: int|
                        0 <= i < x ==> self.grid()[y as int][i] == #[trigger] other.grid()[y as int][i],
                decreases n - x,
            {
                proof {
                    assert(self.grid()[y as int].len() == n);
                    assert(other.grid()[y as int].len() == n);
                }
                if self.cell_at(x, y) != other.cell_at(x, y) {
                    proof {
                        assert(self.grid()[y as int][x as int] != other.grid()[y as int][x as int]);
                    }
                    return false;
                }
                x = x + 1;
            }
            proof {
                assert(self.grid()[y as int] =~= other.grid()[y as int]);
            }
            y = y + 1;
        }
        proof {
            assert(self.grid() =~~= other.grid());
        }
        true
    }
}

/// Writing a state and reading the same cell back yields exactly that state,
/// while every other cell keeps its old state.
pub proof fn lemma_set_get_round_trip(g: Grid, x: usize, y: usize, s: IntersectionState)
    requires
        on_grid(g, (x, y)),
    ensures
        ({
            let g2 = g.update(y as int, g[y as int].update(x as int, s));
            &&& on_grid(g2, (x, y))
            &&& cell(g2, (x, y)) == s
            &&& forall|q: (usize, usize)|
                on_grid(g, q) && q != (x, y) ==> #[trigger] cell(g2, q) == cell(g, q)
        }),
{
}

impl Clone for Board {
    /// Returns a board with an equal grid.
    fn clone(&self) -> (r: Self)
        ensures
            r.grid() == self.grid(),
    {
        Board { data: self.copy_data() }
    }
}

impl Default for Board {
    /// The customary small board of nine lines.
    fn default() -> (r: Self)
        ensures
            r.wf(),
            r.spec_size() == 9,
            forall|p: (usize, usize)|
                on_grid(r.grid(), p) ==> cell(r.grid(), p) == IntersectionState::Empty,
    {
        Self::new(9)
    }
}

/// Linear membership test on a coordinate list.
fn coords_contain(v: &Vec<(usize, usize)>, p: (usize, usize)) -> (r: bool)
    ensures
        r == v@.contains(p),
{
    let mut i: usize = 0;
    while i < v.len()
        invariant
            i <= v@.len(),
            forall|j: int| 0 <= j < i ==> v@[j] != p,
        decreases v@.len() - i,
    {
        if v[i].0 == p.0 && v[i].1 == p.1 {
            return true;
        }
        i = i + 1;
    }
    false
}

} // verus!
