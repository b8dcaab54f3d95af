//! Mathematical facts about grids, connected groups and liberties that the
//! board algorithms are proved against.
use vstd::prelude::*;

use vstd::arithmetic::div_mod::{
    lemma_div_pos_is_pos, lemma_fundamental_div_mod, lemma_fundamental_div_mod_converse,
    lemma_mod_bound, lemma_multiply_divide_lt,
};
use vstd::relations::injective_on;
use vstd::set_lib::{lemma_int_range, lemma_len_subset, lemma_map_size, set_int_range};

use crate::board::{
    adjacent, cell, direct_liberty_set, grid_square, group_set, in_group, on_grid, reach, Grid,
    IntersectionState,
};

verus! {

/// All coordinates of an `n` x `n` grid.
pub open spec fn grid_coords(n: nat) -> Set<(usize, usize)> {
    Set::new(|p: (usize, usize)| p.0 < n && p.1 < n)
}

/// An `n` x `n` grid has exactly `n * n` coordinates.
pub proof fn lemma_grid_coords_card(n: nat)
    requires
        n <= usize::MAX,
    ensures
        grid_coords(n).finite(),
        grid_coords(n).len() == n * n,
{
    if n == 0 {
        assert(grid_coords(n) =~= Set::<(usize, usize)>::empty());
    } else {
        let ni = n as int;
        let area = ni * ni;
        assert(area >= 1) by (nonlinear_arith)
            requires
                ni >= 1,
                area == ni * ni,
        ;
        let r = set_int_range(0, area);
        lemma_int_range(0, area);
        let f = |i: int| (((i % ni) as usize, (i / ni) as usize));
        assert(injective_on(f, r)) by {
            assert forall|i: int, j: int|
                #![trigger f(i), f(j)]
                r.contains(i) && r.contains(j) && f(i) == f(j) implies i == j by {
                lemma_mod_bound(i, ni);
                lemma_mod_bound(j, ni);
                lemma_div_pos_is_pos(i, ni);
                lemma_div_pos_is_pos(j, ni);
                lemma_multiply_divide_lt(i, ni, ni);
                lemma_multiply_divide_lt(j, ni, ni);
                lemma_fundamental_div_mod(i, ni);
                lemma_fundamental_div_mod(j, ni);
                assert(i % ni == j % ni);
                assert(i / ni == j / ni);
            }
        }
        assert(r.map(f) =~= grid_coords(n)) by {
            assert forall|p: (usize, usize)| #[trigger]
                grid_coords(n).contains(p) implies r.map(f).contains(p) by {
                let i = p.1 as int * ni + p.0 as int;
                assert(i < area) by (nonlinear_arith)
                    requires
                        p.1 as int <= ni - 1,
                        p.0 as int <= ni - 1,
                        i == p.1 as int * ni + p.0 as int,
                        area == ni * ni,
                        ni >= 1,
                ;
                lemma_fundamental_div_mod_converse(i, ni, p.1 as int, p.0 as int);
                assert(i >= 0) by (nonlinear_arith)
                    requires
                        p.1 as int >= 0,
                        p.0 as int >= 0,
                        ni >= 1,
                        i == p.1 as int * ni + p.0 as int,
                ;
                assert(r.contains(i));
                assert(f(i) == p);
            }
            assert forall|p: (usize, usize)| #[trigger]
                r.map(f).contains(p) implies grid_coords(n).contains(p) by {
                let i = choose|i: int| r.contains(i) && f(i) == p;
                lemma_mod_bound(i, ni);
                lemma_multiply_divide_lt(i, ni, ni);
            }
        }
        lemma_map_size(r, grid_coords(n), f);
    }
}

/// A duplicate-free sequence of coordinates of an `n` x `n` grid has at most
/// `n * n` entries.
pub proof fn lemma_coord_seq_len(s: Seq<(usize, usize)>, n: nat)
    requires
        n <= usize::MAX,
        s.no_duplicates(),
        forall|i: int| 0 <= i < s.len() ==> (#[trigger] s[i]).0 < n && s[i].1 < n,
    ensures
        s.len() <= n * n,
{
    s.unique_seq_to_set();
    lemma_grid_coords_card(n);
    assert(s.to_set().subset_of(grid_coords(n))) by {
        assert forall|p: (usize, usize)| #[trigger]
            s.to_set().contains(p) implies grid_coords(n).contains(p) by {
            let i = choose|i: int| 0 <= i < s.len() && s[i] == p;
            assert(s[i].0 < n && s[i].1 < n);
        }
    }
    lemma_len_subset(s.to_set(), grid_coords(n));
}

/// Membership in a concatenation is membership in either part.
pub proof fn lemma_concat_contains<A>(a: Seq<A>, b: Seq<A>, x: A)
    ensures
        (a + b).contains(x) <==> a.contains(x) || b.contains(x),
{
    if a.contains(x) {
        let i = choose|i: int| 0 <= i < a.len() && a[i] == x;
        assert((a + b)[i] == x);
    }
    if b.contains(x) {
        let i = choose|i: int| 0 <= i < b.len() && b[i] == x;
        assert((a + b)[i + a.len()] == x);
    }
    if (a + b).contains(x) {
        let i = choose|i: int| 0 <= i < (a + b).len() && (a + b)[i] == x;
        if i < a.len() {
            assert(a[i] == x);
        } else {
            assert(b[i - a.len()] == x);
        }
    }
}

/// Concatenating duplicate-free sequences with no common entry keeps them
/// duplicate-free.
pub proof fn lemma_disjoint_concat_no_duplicates<A>(a: Seq<A>, b: Seq<A>)
    requires
        a.no_duplicates(),
        b.no_duplicates(),
        forall|x: A| !(#[trigger] a.contains(x) && b.contains(x)),
    ensures
        (a + b).no_duplicates(),
{
    assert forall|i: int, j: int|
        0 <= i < (a + b).len() && 0 <= j < (a + b).len() && i != j implies (a + b)[i] != (a
        + b)[j] by {
        if i < a.len() && j >= a.len() {
            assert(a.contains(a[i]));
            assert(b.contains(b[j - a.len()]));
        } else if i >= a.len() && j < a.len() {
            assert(a.contains(a[j]));
            assert(b.contains(b[i - a.len()]));
        }
    }
}

/// Every cell belongs to its own group.
pub proof fn lemma_in_group_base(g: Grid, start: (usize, usize))
    ensures
        in_group(g, start, start),
{
    assert(reach(g, cell(g, start), start, start, 0));
}

/// A group grows by one step: a matching neighbour of a member is a member.
pub proof fn lemma_in_group_step(g: Grid, start: (usize, usize), q: (usize, usize), p: (
    usize,
    usize,
))
    requires
        in_group(g, start, q),
        adjacent(q, p),
        on_grid(g, p),
        cell(g, p) == cell(g, start),
    ensures
        in_group(g, start, p),
{
    let n = choose|n: nat| reach(g, cell(g, start), start, q, n);
    assert(reach(g, cell(g, start), start, p, n + 1));
}

proof fn lemma_reach_members_valid(
    g: Grid,
    s: IntersectionState,
    start: (usize, usize),
    p: (usize, usize),
    n: nat,
)
    requires
        reach(g, s, start, p, n),
    ensures
        p == start || (on_grid(g, p) && cell(g, p) == s),
    decreases n,
{
    if n > 0 {
        if reach(g, s, start, p, (n - 1) as nat) {
            lemma_reach_members_valid(g, s, start, p, (n - 1) as nat);
        } else {
            let q = choose|q: (usize, usize)|
                reach(g, s, start, q, (n - 1) as nat) && adjacent(q, p) && on_grid(g, p) && cell(
                    g,
                    p,
                ) == s;
            assert(on_grid(g, p));
        }
    }
}

/// Every member of the group of `start` lies on the grid and carries the
/// state of `start`.
pub proof fn lemma_group_members_valid(g: Grid, start: (usize, usize), p: (usize, usize))
    requires
        in_group(g, start, p),
        on_grid(g, start),
    ensures
        on_grid(g, p),
        cell(g, p) == cell(g, start),
{
    let n = choose|n: nat| reach(g, cell(g, start), start, p, n);
    lemma_reach_members_valid(g, cell(g, start), start, p, n);
}

proof fn lemma_reach_trans(
    g: Grid,
    a: (usize, usize),
    b: (usize, usize),
    c: (usize, usize),
    n: nat,
)
    requires
        in_group(g, a, b),
        cell(g, b) == cell(g, a),
        reach(g, cell(g, b), b, c, n),
    ensures
        in_group(g, a, c),
    decreases n,
{
    if n == 0 {
    } else if reach(g, cell(g, b), b, c, (n - 1) as nat) {
        lemma_reach_trans(g, a, b, c, (n - 1) as nat);
    } else {
        let y = choose|y: (usize, usize)|
            reach(g, cell(g, b), b, y, (n - 1) as nat) && adjacent(y, c) && on_grid(g, c) && cell(
                g,
                c,
            ) == cell(g, b);
        lemma_reach_trans(g, a, b, y, (n - 1) as nat);
        lemma_in_group_step(g, a, y, c);
    }
}

/// Group membership is transitive: whatever the group of `b` reaches also
/// belongs to the group of `a` once `b` does.
pub proof fn lemma_in_group_trans(g: Grid, a: (usize, usize), b: (usize, usize), c: (
    usize,
    usize,
))
    requires
        in_group(g, a, b),
        in_group(g, b, c),
        cell(g, b) == cell(g, a),
    ensures
        in_group(g, a, c),
{
    let n = choose|n: nat| reach(g, cell(g, b), b, c, n);
    lemma_reach_trans(g, a, b, c, n);
}

proof fn lemma_reach_sym(g: Grid, a: (usize, usize), b: (usize, usize), n: nat)
    requires
        on_grid(g, a),
        reach(g, cell(g, a), a, b, n),
    ensures
        in_group(g, b, a),
    decreases n,
{
    if n == 0 {
        lemma_in_group_base(g, a);
    } else if reach(g, cell(g, a), a, b, (n - 1) as nat) {
        lemma_reach_sym(g, a, b, (n - 1) as nat);
    } else {
        let y = choose|y: (usize, usize)|
            reach(g, cell(g, a), a, y, (n - 1) as nat) && adjacent(y, b) && on_grid(g, b) && cell(
                g,
                b,
            ) == cell(g, a);
        lemma_reach_sym(g, a, y, (n - 1) as nat);
        lemma_reach_members_valid(g, cell(g, a), a, y, (n - 1) as nat);
        lemma_in_group_base(g, b);
        lemma_in_group_step(g, b, b, y);
        lemma_in_group_trans(g, b, y, a);
    }
}

/// Group membership is symmetric: each member of a group sees the group's
/// starting cell as a member of its own group.
pub proof fn lemma_in_group_sym(g: Grid, a: (usize, usize), b: (usize, usize))
    requires
        on_grid(g, a),
        in_group(g, a, b),
    ensures
        in_group(g, b, a),
{
    let n = choose|n: nat| reach(g, cell(g, a), a, b, n);
    lemma_reach_sym(g, a, b, n);
}

/// Two groups sharing one cell are the same component: the starting cell of
/// one lies in the other.
pub proof fn lemma_shared_member_joins_groups(g: Grid, q: (usize, usize), p: (usize, usize), x: (
    usize,
    usize,
))
    requires
        on_grid(g, q),
        on_grid(g, p),
        in_group(g, q, x),
        in_group(g, p, x),
    ensures
        in_group(g, q, p),
{
    if x == p {
    } else {
        lemma_group_members_valid(g, q, x);
        lemma_in_group_sym(g, p, x);
        lemma_in_group_trans(g, q, x, p);
    }
}

/// A set that contains `start` and is closed under matching-neighbour steps
/// contains the whole group of `start`.
pub proof fn lemma_group_in_closed_set(g: Grid, start: (usize, usize), closed: Set<(usize, usize)>)
    requires
        closed.contains(start),
        forall|a: (usize, usize), b: (usize, usize)|
            #![trigger closed.contains(a), adjacent(a, b)]
            closed.contains(a) && adjacent(a, b) && on_grid(g, b) && cell(g, b) == cell(g, start)
                ==> closed.contains(b),
    ensures
        forall|p: (usize, usize)| in_group(g, start, p) ==> #[trigger] closed.contains(p),
{
    assert forall|p: (usize, usize)| in_group(g, start, p) implies #[trigger] closed.contains(
        p,
    ) by {
        let n = choose|n: nat| reach(g, cell(g, start), start, p, n);
        lemma_reach_in_closed_set(g, start, closed, p, n);
    }
}

proof fn lemma_distinct_pair_len<A>(a: A, b: A)
    requires
        a != b,
    ensures
        Set::empty().insert(a).insert(b).len() == 2,
{
    assert(Set::empty().insert(a).len() == 1);
}

proof fn lemma_distinct_triple_len<A>(a: A, b: A, c: A)
    requires
        a != b,
        a != c,
        b != c,
    ensures
        Set::empty().insert(a).insert(b).insert(c).len() == 3,
{
    lemma_distinct_pair_len(a, b);
}

proof fn lemma_distinct_quad_len<A>(a: A, b: A, c: A, d: A)
    requires
        a != b,
        a != c,
        a != d,
        b != c,
        b != d,
        c != d,
    ensures
        Set::empty().insert(a).insert(b).insert(c).insert(d).len() == 4,
{
    lemma_distinct_triple_len(a, b, c);
}

/// On an empty board the direct liberties of a cell are exactly its on-grid
/// orthogonal neighbours: four for a fully interior cell, three for an edge
/// cell that is no corner, two for a corner cell.
pub proof fn lemma_empty_grid_direct_liberties(g: Grid, n: nat, p: (usize, usize))
    requires
        grid_square(g, n),
        3 <= n <= usize::MAX,
        forall|q: (usize, usize)| on_grid(g, q) ==> cell(g, q) == IntersectionState::Empty,
        on_grid(g, p),
    ensures
        1 <= p.0 < n - 1 && 1 <= p.1 < n - 1 ==> direct_liberty_set(g, p).len() == 4,
        (p.0 == 0 || p.0 == n - 1) && 1 <= p.1 < n - 1 ==> direct_liberty_set(g, p).len() == 3,
        (p.1 == 0 || p.1 == n - 1) && 1 <= p.0 < n - 1 ==> direct_liberty_set(g, p).len() == 3,
        (p.0 == 0 || p.0 == n - 1) && (p.1 == 0 || p.1 == n - 1) ==> direct_liberty_set(
            g,
            p,
        ).len() == 2,
{
    let s = direct_liberty_set(g, p);
    let up = (p.0, (p.1 - 1) as usize);
    let down = (p.0, (p.1 + 1) as usize);
    let left = (((p.0 - 1) as usize), p.1);
    let right = (((p.0 + 1) as usize), p.1);
    assert(g[p.1 as int].len() == n);
    assert forall|q: (usize, usize)| #[trigger]
        s.contains(q) implies ((q == up && p.1 >= 1) || (q == down && p.1 < n - 1) || (q == left
        && p.0 >= 1) || (q == right && p.0 < n - 1)) by {
        assert(g[q.1 as int].len() == n);
        if q.1 < p.1 {
            assert(q == up);
        } else if q.1 > p.1 {
            assert(q == down);
        } else if q.0 < p.0 {
            assert(q == left);
        } else {
            assert(q == right);
        }
    }
    if p.1 >= 1 {
        assert(g[up.1 as int].len() == n);
        assert(s.contains(up));
    }
    if p.1 < n - 1 {
        assert(g[down.1 as int].len() == n);
        assert(s.contains(down));
    }
    if p.0 >= 1 {
        assert(s.contains(left));
    }
    if p.0 < n - 1 {
        assert(s.contains(right));
    }
    if 1 <= p.0 < n - 1 && 1 <= p.1 < n - 1 {
        assert(s =~= Set::empty().insert(up).insert(down).insert(left).insert(right));
        lemma_distinct_quad_len(up, down, left, right);
    }
    if (p.0 == 0 || p.0 == n - 1) && 1 <= p.1 < n - 1 {
        if p.0 == 0 {
            assert(s =~= Set::empty().insert(up).insert(down).insert(right));
            lemma_distinct_triple_len(up, down, right);
        } else {
            assert(s =~= Set::empty().insert(up).insert(down).insert(left));
            lemma_distinct_triple_len(up, down, left);
        }
    }
    if (p.1 == 0 || p.1 == n - 1) && 1 <= p.0 < n - 1 {
        if p.1 == 0 {
            assert(s =~= Set::empty().insert(down).insert(left).insert(right));
            lemma_distinct_triple_len(down, left, right);
        } else {
            assert(s =~= Set::empty().insert(up).insert(left).insert(right));
            lemma_distinct_triple_len(up, left, right);
        }
    }
    if (p.0 == 0 || p.0 == n - 1) && (p.1 == 0 || p.1 == n - 1) {
        if p.0 == 0 && p.1 == 0 {
            assert(s =~= Set::empty().insert(down).insert(right));
            lemma_distinct_pair_len(down, right);
        } else if p.0 == 0 {
            assert(s =~= Set::empty().insert(up).insert(right));
            lemma_distinct_pair_len(up, right);
        } else if p.1 == 0 {
            assert(s =~= Set::empty().insert(down).insert(left));
            lemma_distinct_pair_len(down, left);
        } else {
            assert(s =~= Set::empty().insert(up).insert(left));
            lemma_distinct_pair_len(up, left);
        }
    }
}

proof fn lemma_empty_grid_walk_x(g: Grid, n: nat, p: (usize, usize), x2: usize)
    requires
        grid_square(g, n),
        n <= usize::MAX,
        forall|q: (usize, usize)| on_grid(g, q) ==> cell(g, q) == IntersectionState::Empty,
        on_grid(g, p),
        x2 < n,
    ensures
        in_group(g, p, (x2, p.1)),
    decreases (if p.0 <= x2 { x2 - p.0 } else { p.0 - x2 }),
{
    assert(g[p.1 as int].len() == n);
    if x2 == p.0 {
        lemma_in_group_base(g, p);
    } else if x2 > p.0 {
        lemma_empty_grid_walk_x(g, n, p, (x2 - 1) as usize);
        lemma_in_group_step(g, p, (((x2 - 1) as usize), p.1), (x2, p.1));
    } else {
        lemma_empty_grid_walk_x(g, n, p, (x2 + 1) as usize);
        lemma_in_group_step(g, p, (((x2 + 1) as usize), p.1), (x2, p.1));
    }
}

proof fn lemma_empty_grid_walk(g: Grid, n: nat, p: (usize, usize), x2: usize, y2: usize)
    requires
        grid_square(g, n),
        n <= usize::MAX,
        forall|q: (usize, usize)| on_grid(g, q) ==> cell(g, q) == IntersectionState::Empty,
        on_grid(g, p),
        x2 < n,
        y2 < n,
    ensures
        in_group(g, p, (x2, y2)),
    decreases (if p.1 <= y2 { y2 - p.1 } else { p.1 - y2 }),
{
    assert(g[y2 as int].len() == n);
    if y2 == p.1 {
        lemma_empty_grid_walk_x(g, n, p, x2);
    } else if y2 > p.1 {
        lemma_empty_grid_walk(g, n, p, x2, (y2 - 1) as usize);
        lemma_in_group_step(g, p, (x2, ((y2 - 1) as usize)), (x2, y2));
    } else {
        lemma_empty_grid_walk(g, n, p, x2, (y2 + 1) as usize);
        lemma_in_group_step(g, p, (x2, ((y2 + 1) as usize)), (x2, y2));
    }
}

/// On a completely empty square board the group of any cell is the entire
/// grid: all `n * n` coordinates.
pub proof fn lemma_empty_grid_group_is_whole_board(g: Grid, n: nat, p: (usize, usize))
    requires
        grid_square(g, n),
        n <= usize::MAX,
        forall|q: (usize, usize)| on_grid(g, q) ==> cell(g, q) == IntersectionState::Empty,
        on_grid(g, p),
    ensures
        group_set(g, p) =~= grid_coords(n),
        group_set(g, p).len() == n * n,
{
    assert forall|q: (usize, usize)| #[trigger] group_set(g, p).contains(q) implies grid_coords(
        n,
    ).contains(q) by {
        lemma_group_members_valid(g, p, q);
        assert(g[q.1 as int].len() == n);
    }
    assert forall|q: (usize, usize)| #[trigger] grid_coords(n).contains(q) implies group_set(
        g,
        p,
    ).contains(q) by {
        lemma_empty_grid_walk(g, n, p, q.0, q.1);
    }
    assert(group_set(g, p) =~= grid_coords(n));
    lemma_grid_coords_card(n);
}

proof fn lemma_reach_in_closed_set(
    g: Grid,
    start: (usize, usize),
    closed: Set<(usize, usize)>,
    p: (usize, usize),
    n: nat,
)
    requires
        closed.contains(start),
        forall|a: (usize, usize), b: (usize, usize)|
            #![trigger closed.contains(a), adjacent(a, b)]
            closed.contains(a) && adjacent(a, b) && on_grid(g, b) && cell(g, b) == cell(g, start)
                ==> closed.contains(b),
        reach(g, cell(g, start), start, p, n),
    ensures
        closed.contains(p),
    decreases n,
{
    if n > 0 {
        if reach(g, cell(g, start), start, p, (n - 1) as nat) {
            lemma_reach_in_closed_set(g, start, closed, p, (n - 1) as nat);
        } else {
            let q = choose|q: (usize, usize)|
                reach(g, cell(g, start), start, q, (n - 1) as nat) && adjacent(q, p) && on_grid(
                    g,
                    p,
                ) && cell(g, p) == cell(g, start);
            lemma_reach_in_closed_set(g, start, closed, q, (n - 1) as nat);
        }
    }
}

} // verus!
