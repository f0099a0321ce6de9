//! Clearing: a single-colour cluster of settled grains (grains touching side by
//! side or corner to corner) that reaches both the left and the right wall is
//! removed from the board, and each removed grain scores a point.
use vstd::prelude::*;
use crate::board::{cell_index, lemma_cell_index, on_board, BoardGrid, CELL_COUNT};
use crate::constants::{BOARD_HEIGHT, BOARD_WIDTH};
use crate::resources::{ClearEffect, GameStatus, PendingClear};
use crate::types::GrainColor;

verus! {

/// The colour of the settled grain at cell `a` = (column, row) of a colour grid.
pub open spec fn color_of(g: Seq<Option<GrainColor>>, a: (int, int)) -> Option<GrainColor> {
    g[cell_index(a.0, a.1)]
}

/// Cells `a` and `b` are distinct and touch side by side or corner to corner.
pub open spec fn touching(a: (int, int), b: (int, int)) -> bool {
    &&& a != b
    &&& -1 <= a.0 - b.0 <= 1
    &&& -1 <= a.1 - b.1 <= 1
}

/// Cells `a` and `b` are touching board cells holding grains of the same colour.
pub open spec fn linked(g: Seq<Option<GrainColor>>, a: (int, int), b: (int, int)) -> bool {
    &&& on_board(a.0, a.1)
    &&& on_board(b.0, b.1)
    &&& touching(a, b)
    &&& color_of(g, a) is Some
    &&& color_of(g, a) == color_of(g, b)
}

/// Step `i` of the cell sequence `p` goes between linked cells.
pub open spec fn path_step(g: Seq<Option<GrainColor>>, p: Seq<(int, int)>, i: int) -> bool {
    linked(g, p[i], p[i + 1])
}

/// `p` is a walk through grains of one colour, each step to a touching grain.
pub open spec fn is_path(g: Seq<Option<GrainColor>>, p: Seq<(int, int)>) -> bool {
    &&& p.len() >= 1
    &&& on_board(p[0].0, p[0].1)
    &&& color_of(g, p[0]) is Some
    &&& forall|i: int| 0 <= i < p.len() - 1 ==> #[trigger] path_step(g, p, i)
}

/// Cells `a` and `b` lie in the same single-colour cluster.
pub open spec fn connected(g: Seq<Option<GrainColor>>, a: (int, int), b: (int, int)) -> bool {
    exists|p: Seq<(int, int)>| #[trigger] is_path(g, p) && p[0] == a && p[p.len() - 1] == b
}

/// The grain at `a` belongs to a cluster that reaches both walls.
pub open spec fn spans(g: Seq<Option<GrainColor>>, a: (int, int)) -> bool {
    &&& on_board(a.0, a.1)
    &&& color_of(g, a) is Some
    &&& exists|l: (int, int)| l.0 == 0 && #[trigger] connected(g, a, l)
    &&& exists|r: (int, int)| r.0 == BOARD_WIDTH - 1 && #[trigger] connected(g, a, r)
}

/// A mark per cell, read at cell `a`.
pub open spec fn marked(v: Seq<bool>, a: (int, int)) -> bool {
    v[cell_index(a.0, a.1)]
}

/// The marked cells are closed under `linked`.
pub open spec fn closed(g: Seq<Option<GrainColor>>, v: Seq<bool>) -> bool {
    forall|a: (int, int), b: (int, int)| #[trigger] linked(g, a, b) && marked(v, a) ==> marked(v, b)
}

/// Distinct board cells have distinct indices.
pub proof fn lemma_cell_index_injective(a: (int, int), b: (int, int))
    requires
        on_board(a.0, a.1),
        on_board(b.0, b.1),
        cell_index(a.0, a.1) == cell_index(b.0, b.1),
    ensures
        a == b,
{
    lemma_cell_index(a.0, a.1);
    lemma_cell_index(b.0, b.1);
}

/// Every cell of a walk lies on the board and has the colour of the walk's first cell.
pub proof fn lemma_path_cells(g: Seq<Option<GrainColor>>, p: Seq<(int, int)>, i: int)
    requires
        is_path(g, p),
        0 <= i < p.len(),
    ensures
        on_board(p[i].0, p[i].1),
        color_of(g, p[i]) == color_of(g, p[0]),
    decreases i,
{
    if i > 0 {
        lemma_path_cells(g, p, i - 1);
        assert(path_step(g, p, i - 1));
    }
}

/// A walk with its last cell dropped is still a walk.
pub proof fn lemma_path_drop_last(g: Seq<Option<GrainColor>>, p: Seq<(int, int)>)
    requires
        is_path(g, p),
        p.len() >= 2,
    ensures
        is_path(g, p.drop_last()),
        p.drop_last()[0] == p[0],
        path_step(g, p, p.len() - 2),
{
    let q = p.drop_last();
    assert forall|i: int| 0 <= i < q.len() - 1 implies #[trigger] path_step(g, q, i) by {
        assert(path_step(g, p, i));
    }
}

/// A grain is in its own cluster.
pub proof fn lemma_connected_refl(g: Seq<Option<GrainColor>>, a: (int, int))
    requires
        on_board(a.0, a.1),
        color_of(g, a) is Some,
    ensures
        connected(g, a, a),
{
    let p = seq![a];
    assert(is_path(g, p));
}

/// Extending a walk by one linked cell.
pub proof fn lemma_connected_push(g: Seq<Option<GrainColor>>, a: (int, int), b: (int, int), c: (int, int))
    requires
        connected(g, a, b),
        linked(g, b, c),
    ensures
        connected(g, a, c),
{
    let p = choose|p: Seq<(int, int)>| #[trigger] is_path(g, p) && p[0] == a && p[p.len() - 1] == b;
    let q = p.push(c);
    assert forall|i: int| 0 <= i < q.len() - 1 implies #[trigger] path_step(g, q, i) by {
        if i < p.len() - 1 {
            assert(path_step(g, p, i));
        }
    }
    assert(is_path(g, q));
}

/// Two clusters that share a cell are one: connectedness is transitive.
pub proof fn lemma_connected_trans_path(g: Seq<Option<GrainColor>>, a: (int, int), p: Seq<(int, int)>)
    requires
        is_path(g, p),
        connected(g, a, p[0]),
    ensures
        connected(g, a, p[p.len() - 1]),
    decreases p.len(),
{
    if p.len() > 1 {
        lemma_path_drop_last(g, p);
        lemma_connected_trans_path(g, a, p.drop_last());
        lemma_connected_push(g, a, p[p.len() - 2], p[p.len() - 1]);
    }
}

/// Connectedness is transitive.
pub proof fn lemma_connected_trans(g: Seq<Option<GrainColor>>, a: (int, int), b: (int, int), c: (int, int))
    requires
        connected(g, a, b),
        connected(g, b, c),
    ensures
        connected(g, a, c),
{
    let p = choose|p: Seq<(int, int)>| #[trigger] is_path(g, p) && p[0] == b && p[p.len() - 1] == c;
    lemma_connected_trans_path(g, a, p);
}

/// Connectedness is symmetric.
pub proof fn lemma_connected_sym(g: Seq<Option<GrainColor>>, a: (int, int), b: (int, int))
    requires
        connected(g, a, b),
    ensures
        connected(g, b, a),
{
    let p = choose|p: Seq<(int, int)>| #[trigger] is_path(g, p) && p[0] == a && p[p.len() - 1] == b;
    let n = p.len();
    let q = p.reverse();
    lemma_path_cells(g, p, n - 1);
    assert forall|i: int| 0 <= i < q.len() - 1 implies #[trigger] path_step(g, q, i) by {
        assert(path_step(g, p, n - 2 - i));
        assert(q[i] == p[n - 1 - i]);
        assert(q[i + 1] == p[n - 2 - i]);
    }
    assert(is_path(g, q));
}

/// Both ends of a cluster are grains of the same colour on the board.
pub proof fn lemma_connected_ends(g: Seq<Option<GrainColor>>, a: (int, int), b: (int, int))
    requires
        connected(g, a, b),
    ensures
        on_board(a.0, a.1),
        on_board(b.0, b.1),
        color_of(g, a) is Some,
        color_of(g, b) == color_of(g, a),
{
    let p = choose|p: Seq<(int, int)>| #[trigger] is_path(g, p) && p[0] == a && p[p.len() - 1] == b;
    lemma_path_cells(g, p, p.len() - 1);
}

/// A set of cells closed under `linked` holds every cell connected to one of its cells.
pub proof fn lemma_closed_path(g: Seq<Option<GrainColor>>, v: Seq<bool>, p: Seq<(int, int)>)
    requires
        closed(g, v),
        is_path(g, p),
        marked(v, p[0]),
    ensures
        marked(v, p[p.len() - 1]),
    decreases p.len(),
{
    if p.len() > 1 {
        lemma_path_drop_last(g, p);
        lemma_closed_path(g, v, p.drop_last());
    }
}

/// A set of cells closed under `linked` holds every cell connected to one of its cells.
pub proof fn lemma_closed_connected(g: Seq<Option<GrainColor>>, v: Seq<bool>, a: (int, int), b: (int, int))
    requires
        closed(g, v),
        connected(g, a, b),
        marked(v, a),
    ensures
        marked(v, b),
{
    let p = choose|p: Seq<(int, int)>| #[trigger] is_path(g, p) && p[0] == a && p[p.len() - 1] == b;
    lemma_closed_path(g, v, p);
}


/// Column step of search direction `k`.
pub open spec fn dir_dc(k: int) -> int {
    if k == 0 { 1 } else if k == 1 { -1 } else if k == 2 { 0 } else if k == 3 { 0 }
    else if k == 4 { 1 } else if k == 5 { -1 } else if k == 6 { 1 } else { -1 }
}

/// Row step of search direction `k`.
pub open spec fn dir_dr(k: int) -> int {
    if k == 0 { 0 } else if k == 1 { 0 } else if k == 2 { 1 } else if k == 3 { -1 }
    else if k == 4 { 1 } else if k == 5 { 1 } else if k == 6 { -1 } else { -1 }
}

/// The cell one step from `a` in direction `k`.
pub open spec fn step_from(a: (int, int), k: int) -> (int, int) {
    (a.0 + dir_dc(k), a.1 + dir_dr(k))
}

/// The eight directions reach every touching cell.
proof fn lemma_touching_dir(a: (int, int), b: (int, int)) -> (k: int)
    requires
        touching(a, b),
    ensures
        0 <= k < 8,
        b == step_from(a, k),
{
    let dc = b.0 - a.0;
    let dr = b.1 - a.1;
    if dr == 0 && dc == 1 { 0 } else if dr == 0 && dc == -1 { 1 } else if dr == 1 && dc == 0 { 2 }
    else if dr == -1 && dc == 0 { 3 } else if dr == 1 && dc == 1 { 4 } else if dr == 1 && dc == -1 { 5 }
    else if dr == -1 && dc == 1 { 6 } else { 7 }
}

/// The board cell one step from (`c`, `r`) in direction `k`, if that step stays on the board.
fn neighbour(c: usize, r: usize, k: usize) -> (res: Option<(usize, usize)>)
    requires
        on_board(c as int, r as int),
        k < 8,
    ensures
        match res {
            Some(b) => (b.0 as int, b.1 as int) == step_from((c as int, r as int), k as int)
                && on_board(b.0 as int, b.1 as int),
            None => !on_board(step_from((c as int, r as int), k as int).0, step_from((c as int, r as int), k as int).1),
        },
{
    let directions: [(i32, i32); 8] = [(0, 1), (0, -1), (1, 0), (-1, 0), (1, 1), (1, -1), (-1, 1), (-1, -1)];
    let (dr, dc) = directions[k];
    assert(dr == dir_dr(k as int) && dc == dir_dc(k as int));
    let nr = r as i32 + dr;
    let nc = c as i32 + dc;
    if nr >= 0 && nr < BOARD_HEIGHT && nc >= 0 && nc < BOARD_WIDTH {
        Some((nc as usize, nr as usize))
    } else {
        None
    }
}

/// Number of set marks.
pub open spec fn count_marked(v: Seq<bool>) -> nat
    decreases v.len(),
{
    if v.len() == 0 {
        0
    } else {
        count_marked(v.drop_last()) + if v.last() { 1nat } else { 0nat }
    }
}

proof fn lemma_count_bound(v: Seq<bool>)
    ensures
        count_marked(v) <= v.len(),
    decreases v.len(),
{
    if v.len() > 0 {
        lemma_count_bound(v.drop_last());
    }
}

proof fn lemma_count_update(v: Seq<bool>, j: int)
    requires
        0 <= j < v.len(),
        !v[j],
    ensures
        count_marked(v.update(j, true)) == count_marked(v) + 1,
    decreases v.len(),
{
    let w = v.update(j, true);
    if j == v.len() - 1 {
        assert(w.drop_last() =~= v.drop_last());
    } else {
        assert(w.drop_last() =~= v.drop_last().update(j, true));
        lemma_count_update(v.drop_last(), j);
    }
}

/// Cell `i` of a list of (column, row) pairs.
pub open spec fn cell_of(q: Seq<(usize, usize)>, i: int) -> (int, int) {
    (q[i].0 as int, q[i].1 as int)
}

/// Whether `a` occurs in the list of (column, row) pairs `q`.
pub open spec fn listed(q: Seq<(usize, usize)>, a: (int, int)) -> bool {
    exists|i: int| 0 <= i < q.len() && #[trigger] cell_of(q, i) == a
}

/// Breadth-first search of the cluster of `start`: marks every cell of the
/// cluster as visited and returns the cluster's cells and whether the cluster
/// touches the left wall and the right wall.
fn explore_cluster(colors: &Vec<Option<GrainColor>>, visited: &mut Vec<bool>, start: (usize, usize))
    -> (res: (Vec<(usize, usize)>, bool, bool))
    requires
        colors@.len() == CELL_COUNT,
        old(visited)@.len() == CELL_COUNT,
        on_board(start.0 as int, start.1 as int),
        color_of(colors@, (start.0 as int, start.1 as int)) is Some,
        !marked(old(visited)@, (start.0 as int, start.1 as int)),
        closed(colors@, old(visited)@),
        forall|a: (int, int)| on_board(a.0, a.1) && #[trigger] marked(old(visited)@, a)
            ==> color_of(colors@, a) is Some,
    ensures
        final(visited)@.len() == CELL_COUNT,
        closed(colors@, final(visited)@),
        forall|a: (int, int)| on_board(a.0, a.1) ==> (#[trigger] marked(final(visited)@, a)
            == (marked(old(visited)@, a) || connected(colors@, (start.0 as int, start.1 as int), a))),
        forall|a: (int, int)| on_board(a.0, a.1) && #[trigger] marked(final(visited)@, a)
            ==> color_of(colors@, a) is Some,
        forall|i: int| 0 <= i < res.0@.len() ==> connected(colors@, (start.0 as int, start.1 as int), #[trigger] cell_of(res.0@, i)),
        forall|a: (int, int)| #[trigger] connected(colors@, (start.0 as int, start.1 as int), a) ==> listed(res.0@, a),
        res.1 == exists|l: (int, int)| l.0 == 0 && #[trigger] connected(colors@, (start.0 as int, start.1 as int), l),
        res.2 == exists|r: (int, int)| r.0 == BOARD_WIDTH - 1 && #[trigger] connected(colors@, (start.0 as int, start.1 as int), r),
{
    let ghost g = colors@;
    let ghost old_vis = visited@;
    let ghost s = (start.0 as int, start.1 as int);
    let target = colors[start.1 * (BOARD_WIDTH as usize) + start.0].unwrap();
    proof {
        lemma_cell_index(s.0, s.1);
        lemma_connected_refl(g, s);
        lemma_count_bound(old_vis);
        lemma_count_update(old_vis, cell_index(s.0, s.1));
    }
    let mut queue: Vec<(usize, usize)> = Vec::new();
    queue.push(start);
    visited.set(start.1 * (BOARD_WIDTH as usize) + start.0, true);
    proof {
        lemma_count_bound(visited@);
    }
    let mut head: usize = 0;
    let mut touches_left = false;
    let mut touches_right = false;
    proof {
        assert(cell_of(queue@, 0) == s);
        assert forall|a: (int, int)| on_board(a.0, a.1) implies (#[trigger] marked(visited@, a)
            == (marked(old_vis, a) || listed(queue@, a))) by {
            if a == s {
                assert(cell_of(queue@, 0) == a);
            } else {
                if cell_index(a.0, a.1) == cell_index(s.0, s.1) {
                    lemma_cell_index_injective(a, s);
                }
                if listed(queue@, a) {
                    let i = choose|i: int| 0 <= i < queue@.len() && #[trigger] cell_of(queue@, i) == a;
                    assert(i == 0);
                }
            }
        }
    }
    while head < queue.len()
        invariant
            g == colors@,
            g.len() == CELL_COUNT,
            old_vis.len() == CELL_COUNT,
            visited@.len() == CELL_COUNT,
            s == (start.0 as int, start.1 as int),
            color_of(g, s) == Some(target),
            closed(g, old_vis),
            !marked(old_vis, s),
            head <= queue@.len(),
            queue@.len() >= 1,
            cell_of(queue@, 0) == s,
            count_marked(visited@) == count_marked(old_vis) + queue@.len(),
            count_marked(visited@) <= CELL_COUNT,
            forall|a: (int, int)| on_board(a.0, a.1) ==> (#[trigger] marked(visited@, a)
                == (marked(old_vis, a) || listed(queue@, a))),
            forall|a: (int, int)| on_board(a.0, a.1) && #[trigger] marked(old_vis, a)
                ==> color_of(g, a) is Some,
            forall|i: int| 0 <= i < queue@.len() ==> on_board(#[trigger] cell_of(queue@, i).0, cell_of(queue@, i).1)
                && connected(g, s, cell_of(queue@, i)) && !marked(old_vis, cell_of(queue@, i)),
            forall|i: int, b: (int, int)| 0 <= i < head && #[trigger] linked(g, cell_of(queue@, i), b)
                ==> marked(visited@, b),
            touches_left == exists|i: int| 0 <= i < head && #[trigger] cell_of(queue@, i).0 == 0,
            touches_right == exists|i: int| 0 <= i < head && #[trigger] cell_of(queue@, i).0 == BOARD_WIDTH - 1,
        decreases 2 * CELL_COUNT - queue@.len() - head,
    {
        let (c, r) = queue[head];
        let ghost u = (c as int, r as int);
        let ghost head0 = head as int;
        let ghost tl0 = touches_left;
        let ghost tr0 = touches_right;
        assert(u == cell_of(queue@, head as int));
        proof {
            lemma_connected_ends(g, s, u);
        }
        if c == 0 {
            touches_left = true;
        }
        if c == (BOARD_WIDTH as usize) - 1 {
            touches_right = true;
        }
        head = head + 1;
        let ghost queue_before = queue@;
        let mut k: usize = 0;
        while k < 8
            invariant
                g == colors@,
                g.len() == CELL_COUNT,
                old_vis.len() == CELL_COUNT,
                visited@.len() == CELL_COUNT,
                s == (start.0 as int, start.1 as int),
                color_of(g, s) == Some(target),
                color_of(g, u) == Some(target),
                on_board(u.0, u.1),
                u == (c as int, r as int),
                connected(g, s, u),
                closed(g, old_vis),
                !marked(old_vis, s),
                0 < head <= queue_before.len(),
                cell_of(queue_before, head - 1) == u,
                k <= 8,
                queue@.len() >= queue_before.len(),
                forall|i: int| 0 <= i < queue_before.len() ==> #[trigger] queue@[i] == queue_before[i],
                count_marked(visited@) == count_marked(old_vis) + queue@.len(),
                count_marked(visited@) <= CELL_COUNT,
                forall|a: (int, int)| on_board(a.0, a.1) ==> (#[trigger] marked(visited@, a)
                    == (marked(old_vis, a) || listed(queue@, a))),
                forall|a: (int, int)| on_board(a.0, a.1) && #[trigger] marked(old_vis, a)
                    ==> color_of(g, a) is Some,
                forall|i: int| 0 <= i < queue@.len() ==> on_board(#[trigger] cell_of(queue@, i).0, cell_of(queue@, i).1)
                    && connected(g, s, cell_of(queue@, i)) && !marked(old_vis, cell_of(queue@, i)),
                forall|i: int, b: (int, int)| 0 <= i < head - 1 && #[trigger] linked(g, cell_of(queue@, i), b)
                    ==> marked(visited@, b),
                forall|k2: int| 0 <= k2 < k && linked(g, u, #[trigger] step_from(u, k2))
                    ==> marked(visited@, step_from(u, k2)),
            decreases 8 - k,
        {
            match neighbour(c, r, k) {
                Some((nc, nr)) => {
                    let ghost b = (nc as int, nr as int);
                    proof {
                        lemma_cell_index(b.0, b.1);
                    }
                    let j = nr * (BOARD_WIDTH as usize) + nc;
                    if !visited[j] {
                        match colors[j] {
                            Some(color) => {
                                if color == target {
                                    proof {
                                        assert(linked(g, u, b));
                                        lemma_connected_push(g, s, u, b);
                                        lemma_count_update(visited@, j as int);
                                        lemma_count_bound(visited@.update(j as int, true));
                                    }
                                    let ghost vis_before = visited@;
                                    let ghost q_mid = queue@;
                                    visited.set(j, true);
                                    queue.push((nc, nr));
                                    proof {
                                        assert(cell_of(queue@, q_mid.len() as int) == b);
                                        assert forall|i: int| 0 <= i < q_mid.len() implies
                                            #[trigger] cell_of(queue@, i) == cell_of(q_mid, i) by {}
                                        assert forall|a: (int, int)| on_board(a.0, a.1) implies (#[trigger] marked(visited@, a)
                                            == (marked(old_vis, a) || listed(queue@, a))) by {
                                            if a == b {
                                                assert(cell_of(queue@, q_mid.len() as int) == a);
                                            } else {
                                                if cell_index(a.0, a.1) == cell_index(b.0, b.1) {
                                                    lemma_cell_index_injective(a, b);
                                                }
                                                assert(marked(visited@, a) == marked(vis_before, a));
                                                if listed(q_mid, a) {
                                                    let i = choose|i: int| 0 <= i < q_mid.len() && #[trigger] cell_of(q_mid, i) == a;
                                                    assert(cell_of(queue@, i) == a);
                                                }
                                                if listed(queue@, a) {
                                                    let i = choose|i: int| 0 <= i < queue@.len() && #[trigger] cell_of(queue@, i) == a;
                                                    assert(i < q_mid.len());
                                                    assert(cell_of(q_mid, i) == a);
                                                }
                                            }
                                        }
                                        if marked(old_vis, b) {
                                            assert(marked(vis_before, b));
                                        }
                                        assert forall|i: int, b2: (int, int)| 0 <= i < head - 1 && #[trigger] linked(g, cell_of(queue@, i), b2)
                                            implies marked(visited@, b2) by {
                                            assert(cell_of(queue@, i) == cell_of(q_mid, i));
                                            assert(marked(vis_before, b2));
                                            lemma_connected_ends(g, s, cell_of(q_mid, i));
                                            if cell_index(b2.0, b2.1) == cell_index(b.0, b.1) {
                                                lemma_cell_index_injective(b2, b);
                                            }
                                        }
                                        assert forall|k2: int| 0 <= k2 < k + 1 && linked(g, u, #[trigger] step_from(u, k2))
                                            implies marked(visited@, step_from(u, k2)) by {
                                            if k2 < k {
                                                assert(marked(vis_before, step_from(u, k2)));
                                                let b2 = step_from(u, k2);
                                                if cell_index(b2.0, b2.1) == cell_index(b.0, b.1) {
                                                    lemma_cell_index_injective(b2, b);
                                                }
                                            }
                                        }
                                    }
                                }
                            },
                            None => {},
                        }
                    }
                },
                None => {},
            }
            k = k + 1;
        }
        proof {
            assert forall|i: int, b: (int, int)| 0 <= i < head && #[trigger] linked(g, cell_of(queue@, i), b)
                implies marked(visited@, b) by {
                if i == head - 1 {
                    assert(cell_of(queue@, i) == u);
                    let k2 = lemma_touching_dir(u, b);
                    assert(linked(g, u, step_from(u, k2)));
                }
            }
            assert forall|i: int| 0 <= i < head implies #[trigger] cell_of(queue@, i) == cell_of(queue_before, i) by {}
            assert(cell_of(queue@, 0) == s);
            if touches_left {
                if c != 0 {
                    let i = choose|i: int| 0 <= i < head0 && #[trigger] cell_of(queue_before, i).0 == 0;
                    assert(cell_of(queue@, i).0 == 0);
                } else {
                    assert(cell_of(queue@, head0).0 == 0);
                }
            }
            if exists|i: int| 0 <= i < head && #[trigger] cell_of(queue@, i).0 == 0 {
                let i = choose|i: int| 0 <= i < head && #[trigger] cell_of(queue@, i).0 == 0;
                if i < head0 {
                    assert(cell_of(queue_before, i).0 == 0);
                }
            }
            if touches_right {
                if c != (BOARD_WIDTH as usize) - 1 {
                    let i = choose|i: int| 0 <= i < head0 && #[trigger] cell_of(queue_before, i).0 == BOARD_WIDTH - 1;
                    assert(cell_of(queue@, i).0 == BOARD_WIDTH - 1);
                } else {
                    assert(cell_of(queue@, head0).0 == BOARD_WIDTH - 1);
                }
            }
            if exists|i: int| 0 <= i < head && #[trigger] cell_of(queue@, i).0 == BOARD_WIDTH - 1 {
                let i = choose|i: int| 0 <= i < head && #[trigger] cell_of(queue@, i).0 == BOARD_WIDTH - 1;
                if i < head0 {
                    assert(cell_of(queue_before, i).0 == BOARD_WIDTH - 1);
                }
            }
        }
    }
    proof {
        assert forall|a: (int, int), b: (int, int)| #[trigger] linked(g, a, b) && marked(visited@, a)
            implies marked(visited@, b) by {
            if marked(old_vis, a) {
                assert(marked(old_vis, b));
            } else {
                let i = choose|i: int| 0 <= i < queue@.len() && #[trigger] cell_of(queue@, i) == a;
                assert(linked(g, cell_of(queue@, i), b));
            }
        }
        assert forall|a: (int, int)| #[trigger] connected(g, s, a) implies listed(queue@, a) by {
            lemma_connected_ends(g, s, a);
            lemma_closed_connected(g, visited@, s, a);
            if marked(old_vis, a) {
                lemma_connected_sym(g, s, a);
                lemma_closed_connected(g, old_vis, a, s);
            }
        }
        assert forall|a: (int, int)| on_board(a.0, a.1) implies (#[trigger] marked(visited@, a)
            == (marked(old_vis, a) || connected(g, s, a))) by {
            if listed(queue@, a) {
                let i = choose|i: int| 0 <= i < queue@.len() && #[trigger] cell_of(queue@, i) == a;
            }
            if connected(g, s, a) {
                assert(listed(queue@, a));
            }
        }
        assert forall|a: (int, int)| on_board(a.0, a.1) && #[trigger] marked(visited@, a)
            implies color_of(g, a) is Some by {
            if !marked(old_vis, a) {
                let i = choose|i: int| 0 <= i < queue@.len() && #[trigger] cell_of(queue@, i) == a;
                lemma_connected_ends(g, s, a);
            }
        }
        if exists|l: (int, int)| l.0 == 0 && #[trigger] connected(g, s, l) {
            let l = choose|l: (int, int)| l.0 == 0 && #[trigger] connected(g, s, l);
            assert(listed(queue@, l));
            let i = choose|i: int| 0 <= i < queue@.len() && #[trigger] cell_of(queue@, i) == l;
            assert(cell_of(queue@, i).0 == 0);
        }
        if touches_left {
            let i = choose|i: int| 0 <= i < head && #[trigger] cell_of(queue@, i).0 == 0;
            assert(connected(g, s, cell_of(queue@, i)));
        }
        if exists|r: (int, int)| r.0 == BOARD_WIDTH - 1 && #[trigger] connected(g, s, r) {
            let l = choose|r: (int, int)| r.0 == BOARD_WIDTH - 1 && #[trigger] connected(g, s, r);
            assert(listed(queue@, l));
            let i = choose|i: int| 0 <= i < queue@.len() && #[trigger] cell_of(queue@, i) == l;
            assert(cell_of(queue@, i).0 == BOARD_WIDTH - 1);
        }
        if touches_right {
            let i = choose|i: int| 0 <= i < head && #[trigger] cell_of(queue@, i).0 == BOARD_WIDTH - 1;
            assert(connected(g, s, cell_of(queue@, i)));
        }
    }
    (queue, touches_left, touches_right)
}


/// Inside one cluster the clearing verdict is shared: a grain of the cluster of
/// `s` spans the board exactly when the cluster touches both walls.
proof fn lemma_spans_in_cluster(g: Seq<Option<GrainColor>>, s: (int, int), a: (int, int), left: bool, right: bool)
    requires
        connected(g, s, a),
        left == exists|l: (int, int)| l.0 == 0 && #[trigger] connected(g, s, l),
        right == exists|r: (int, int)| r.0 == BOARD_WIDTH - 1 && #[trigger] connected(g, s, r),
    ensures
        spans(g, a) == (left && right),
{
    lemma_connected_ends(g, s, a);
    lemma_connected_sym(g, s, a);
    if left {
        let l = choose|l: (int, int)| l.0 == 0 && #[trigger] connected(g, s, l);
        lemma_connected_trans(g, a, s, l);
    }
    if right {
        let r = choose|r: (int, int)| r.0 == BOARD_WIDTH - 1 && #[trigger] connected(g, s, r);
        lemma_connected_trans(g, a, s, r);
    }
    if exists|l: (int, int)| l.0 == 0 && #[trigger] connected(g, a, l) {
        let l = choose|l: (int, int)| l.0 == 0 && #[trigger] connected(g, a, l);
        lemma_connected_trans(g, s, a, l);
    }
    if exists|r: (int, int)| r.0 == BOARD_WIDTH - 1 && #[trigger] connected(g, a, r) {
        let r = choose|r: (int, int)| r.0 == BOARD_WIDTH - 1 && #[trigger] connected(g, a, r);
        lemma_connected_trans(g, s, a, r);
    }
}

/// A list of `CELL_COUNT` copies of `false`.
fn unmarked_cells() -> (v: Vec<bool>)
    ensures
        v@.len() == CELL_COUNT,
        forall|i: int| 0 <= i < CELL_COUNT ==> !#[trigger] v@[i],
{
    let mut v: Vec<bool> = Vec::with_capacity(CELL_COUNT);
    let mut i: usize = 0;
    while i < CELL_COUNT
        invariant
            i <= CELL_COUNT,
            v@.len() == i,
            forall|j: int| 0 <= j < i ==> !#[trigger] v@[j],
        decreases CELL_COUNT - i,
    {
        v.push(false);
        i = i + 1;
    }
    v
}

/// Sets the mark of every cell of `cells`.
fn mark_all(mask: &mut Vec<bool>, cells: &Vec<(usize, usize)>)
    requires
        old(mask)@.len() == CELL_COUNT,
        forall|i: int| 0 <= i < cells@.len() ==> on_board(#[trigger] cell_of(cells@, i).0, cell_of(cells@, i).1),
    ensures
        final(mask)@.len() == CELL_COUNT,
        forall|a: (int, int)| on_board(a.0, a.1) ==> #[trigger] marked(final(mask)@, a)
            == (marked(old(mask)@, a) || listed(cells@, a)),
{
    let ghost before = mask@;
    let mut j: usize = 0;
    while j < cells.len()
        invariant
            j <= cells@.len(),
            mask@.len() == CELL_COUNT,
            before.len() == CELL_COUNT,
            forall|i: int| 0 <= i < cells@.len() ==> on_board(#[trigger] cell_of(cells@, i).0, cell_of(cells@, i).1),
            forall|a: (int, int)| on_board(a.0, a.1) ==> #[trigger] marked(mask@, a)
                == (marked(before, a) || exists|i: int| 0 <= i < j && #[trigger] cell_of(cells@, i) == a),
        decreases cells@.len() - j,
    {
        let (c, r) = cells[j];
        let ghost b = (c as int, r as int);
        assert(b == cell_of(cells@, j as int));
        proof {
            lemma_cell_index(b.0, b.1);
        }
        let ghost mask_before = mask@;
        mask.set(r * (BOARD_WIDTH as usize) + c, true);
        proof {
            assert forall|a: (int, int)| on_board(a.0, a.1) implies #[trigger] marked(mask@, a)
                == (marked(before, a) || exists|i: int| 0 <= i < j + 1 && #[trigger] cell_of(cells@, i) == a) by {
                if a == b {
                    assert(cell_of(cells@, j as int) == a);
                } else {
                    if cell_index(a.0, a.1) == cell_index(b.0, b.1) {
                        lemma_cell_index_injective(a, b);
                    }
                    assert(marked(mask@, a) == marked(mask_before, a));
                    if exists|i: int| 0 <= i < j + 1 && #[trigger] cell_of(cells@, i) == a {
                        let i = choose|i: int| 0 <= i < j + 1 && #[trigger] cell_of(cells@, i) == a;
                        assert(i < j);
                    }
                }
            }
        }
        j = j + 1;
    }
}

/// Marks every grain that belongs to a single-colour cluster reaching both the
/// left and the right wall. `colors` holds, per cell in row-major order, the
/// colour of the settled grain there.
pub fn spanning_mask(colors: &Vec<Option<GrainColor>>) -> (mask: Vec<bool>)
    requires
        colors@.len() == CELL_COUNT,
    ensures
        mask@.len() == CELL_COUNT,
        forall|a: (int, int)| on_board(a.0, a.1) ==> #[trigger] marked(mask@, a) == spans(colors@, a),
{
    let ghost g = colors@;
    let mut visited = unmarked_cells();
    let mut mask = unmarked_cells();
    let mut row: usize = 0;
    while row < BOARD_HEIGHT as usize
        invariant
            g == colors@,
            g.len() == CELL_COUNT,
            row <= BOARD_HEIGHT,
            visited@.len() == CELL_COUNT,
            mask@.len() == CELL_COUNT,
            closed(g, visited@),
            forall|a: (int, int)| on_board(a.0, a.1) && #[trigger] marked(visited@, a) ==> color_of(g, a) is Some,
            forall|a: (int, int)| on_board(a.0, a.1) && a.1 < row && color_of(g, a) is Some ==> #[trigger] marked(visited@, a),
            forall|a: (int, int)| on_board(a.0, a.1) ==> #[trigger] marked(mask@, a) == (marked(visited@, a) && spans(g, a)),
        decreases BOARD_HEIGHT - row,
    {
        let mut col: usize = 0;
        while col < BOARD_WIDTH as usize
            invariant
                g == colors@,
                g.len() == CELL_COUNT,
                row < BOARD_HEIGHT,
                col <= BOARD_WIDTH,
                visited@.len() == CELL_COUNT,
                mask@.len() == CELL_COUNT,
                closed(g, visited@),
                forall|a: (int, int)| on_board(a.0, a.1) && #[trigger] marked(visited@, a) ==> color_of(g, a) is Some,
                forall|a: (int, int)| on_board(a.0, a.1) && (a.1 < row || (a.1 == row && a.0 < col))
                    && color_of(g, a) is Some ==> #[trigger] marked(visited@, a),
                forall|a: (int, int)| on_board(a.0, a.1) ==> #[trigger] marked(mask@, a) == (marked(visited@, a) && spans(g, a)),
            decreases BOARD_WIDTH - col,
        {
            let ghost here = (col as int, row as int);
            proof {
                lemma_cell_index(here.0, here.1);
            }
            let i = row * (BOARD_WIDTH as usize) + col;
            let ghost vis_start = visited@;
            if !visited[i] && colors[i].is_some() {
                let ghost vis_before = visited@;
                let ghost mask_before = mask@;
                let (cluster, left, right) = explore_cluster(colors, &mut visited, (col, row));
                assert forall|k: int| 0 <= k < cluster@.len() implies
                    on_board(#[trigger] cell_of(cluster@, k).0, cell_of(cluster@, k).1) by {
                    lemma_connected_ends(g, here, cell_of(cluster@, k));
                }
                if left && right {
                    mark_all(&mut mask, &cluster);
                }
                proof {
                    assert forall|a: (int, int)| on_board(a.0, a.1) implies #[trigger] marked(mask@, a)
                        == (marked(visited@, a) && spans(g, a)) by {
                        if connected(g, here, a) {
                            lemma_spans_in_cluster(g, here, a, left, right);
                            if marked(vis_before, a) {
                                lemma_connected_sym(g, here, a);
                                lemma_closed_connected(g, vis_before, a, here);
                            }
                        }
                        if left && right && listed(cluster@, a) {
                            let k = choose|k: int| 0 <= k < cluster@.len() && #[trigger] cell_of(cluster@, k) == a;
                            assert(connected(g, here, cell_of(cluster@, k)));
                            lemma_spans_in_cluster(g, here, a, left, right);
                        }
                    }
                    lemma_connected_refl(g, here);
                    assert(marked(visited@, here));
                }
            }
            proof {
                assert forall|a: (int, int)| on_board(a.0, a.1) && (a.1 < row || (a.1 == row && a.0 < col + 1))
                    && color_of(g, a) is Some implies #[trigger] marked(visited@, a) by {
                    if a != here {
                        assert(marked(vis_start, a));
                    }
                }
            }
            col = col + 1;
        }
        row = row + 1;
    }
    mask
}


/// The cell named by entry `i` of a list of (column, row, grain) targets.
pub open spec fn target_cell(t: Seq<(usize, usize, u64)>, i: int) -> (int, int) {
    (t[i].0 as int, t[i].1 as int)
}

/// Whether cell `a` is named by some entry of the target list `t`.
pub open spec fn targeted(t: Seq<(usize, usize, u64)>, a: (int, int)) -> bool {
    exists|i: int| 0 <= i < t.len() && #[trigger] target_cell(t, i) == a
}

/// `t` lists, in row-major order (bottom row first, each row from the left) and
/// once each, exactly the settled grains of `cells` whose colour-grid cluster
/// in `g` reaches both walls, each with its grain id.
pub open spec fn are_clear_targets(cells: Seq<Option<u64>>, g: Seq<Option<GrainColor>>, t: Seq<(usize, usize, u64)>) -> bool {
    &&& forall|i: int| 0 <= i < t.len() ==> {
        &&& on_board(#[trigger] target_cell(t, i).0, target_cell(t, i).1)
        &&& spans(g, target_cell(t, i))
        &&& cells[cell_index(target_cell(t, i).0, target_cell(t, i).1)] == Some(t[i].2)
    }
    &&& forall|i: int, j: int| 0 <= i < j < t.len() ==> cell_index(#[trigger] target_cell(t, i).0, target_cell(t, i).1)
        < cell_index(#[trigger] target_cell(t, j).0, target_cell(t, j).1)
    &&& forall|a: (int, int)| on_board(a.0, a.1) && #[trigger] spans(g, a) && cells[cell_index(a.0, a.1)] is Some
        ==> targeted(t, a)
}

/// The grains to clear: every settled grain whose single-colour cluster reaches
/// both walls, listed bottom row first and each row from the left, once each.
/// `colors` holds per cell, in row-major order, the colour of the settled grain there.
pub fn find_clear_targets(board: &BoardGrid, colors: &Vec<Option<GrainColor>>) -> (t: Vec<(usize, usize, u64)>)
    requires
        board.wf(),
        colors@.len() == CELL_COUNT,
    ensures
        are_clear_targets(board@, colors@, t@),
        t@.len() <= CELL_COUNT,
{
    let ghost g = colors@;
    let mask = spanning_mask(colors);
    let mut t: Vec<(usize, usize, u64)> = Vec::new();
    let mut row: usize = 0;
    while row < BOARD_HEIGHT as usize
        invariant
            g == colors@,
            board.wf(),
            mask@.len() == CELL_COUNT,
            forall|a: (int, int)| on_board(a.0, a.1) ==> #[trigger] marked(mask@, a) == spans(g, a),
            row <= BOARD_HEIGHT,
            t@.len() <= row * 80,
            forall|i: int| 0 <= i < t@.len() ==> {
                &&& on_board(#[trigger] target_cell(t@, i).0, target_cell(t@, i).1)
                &&& spans(g, target_cell(t@, i))
                &&& board@[cell_index(target_cell(t@, i).0, target_cell(t@, i).1)] == Some(t@[i].2)
                &&& cell_index(target_cell(t@, i).0, target_cell(t@, i).1) < row * 80
            },
            forall|i: int, j: int| 0 <= i < j < t@.len() ==> cell_index(#[trigger] target_cell(t@, i).0, target_cell(t@, i).1)
                < cell_index(#[trigger] target_cell(t@, j).0, target_cell(t@, j).1),
            forall|a: (int, int)| on_board(a.0, a.1) && a.1 < row && #[trigger] spans(g, a) && board@[cell_index(a.0, a.1)] is Some
                ==> targeted(t@, a),
        decreases BOARD_HEIGHT - row,
    {
        let mut col: usize = 0;
        while col < BOARD_WIDTH as usize
            invariant
                g == colors@,
                board.wf(),
                mask@.len() == CELL_COUNT,
                forall|a: (int, int)| on_board(a.0, a.1) ==> #[trigger] marked(mask@, a) == spans(g, a),
                row < BOARD_HEIGHT,
                col <= BOARD_WIDTH,
                t@.len() <= row * 80 + col,
                forall|i: int| 0 <= i < t@.len() ==> {
                    &&& on_board(#[trigger] target_cell(t@, i).0, target_cell(t@, i).1)
                    &&& spans(g, target_cell(t@, i))
                    &&& board@[cell_index(target_cell(t@, i).0, target_cell(t@, i).1)] == Some(t@[i].2)
                    &&& cell_index(target_cell(t@, i).0, target_cell(t@, i).1) < row * 80 + col
                },
                forall|i: int, j: int| 0 <= i < j < t@.len() ==> cell_index(#[trigger] target_cell(t@, i).0, target_cell(t@, i).1)
                    < cell_index(#[trigger] target_cell(t@, j).0, target_cell(t@, j).1),
                forall|a: (int, int)| on_board(a.0, a.1) && (a.1 < row || (a.1 == row && a.0 < col)) && #[trigger] spans(g, a)
                    && board@[cell_index(a.0, a.1)] is Some ==> targeted(t@, a),
            decreases BOARD_WIDTH - col,
        {
            let ghost here = (col as int, row as int);
            proof {
                lemma_cell_index(here.0, here.1);
            }
            let ghost t_before = t@;
            if mask[row * (BOARD_WIDTH as usize) + col] {
                assert(marked(mask@, here));
                match board.get(col, row) {
                    Some(e) => {
                        t.push((col, row, e));
                        proof {
                            assert(target_cell(t@, t_before.len() as int) == here);
                            assert forall|i: int| 0 <= i < t_before.len() implies #[trigger] target_cell(t@, i) == target_cell(t_before, i) by {}
                        }
                    },
                    None => {},
                }
            }
            proof {
                assert forall|a: (int, int)| on_board(a.0, a.1) && (a.1 < row || (a.1 == row && a.0 < col + 1)) && #[trigger] spans(g, a)
                    && board@[cell_index(a.0, a.1)] is Some implies targeted(t@, a) by {
                    if a == here {
                        assert(marked(mask@, here));
                        assert(target_cell(t@, t_before.len() as int) == here);
                    } else {
                        assert(targeted(t_before, a));
                        let i = choose|i: int| 0 <= i < t_before.len() && #[trigger] target_cell(t_before, i) == a;
                        assert(target_cell(t@, i) == a);
                    }
                }
            }
            col = col + 1;
        }
        row = row + 1;
    }
    t
}

/// What one run of the clearing step did.
#[derive(Debug, PartialEq, Eq)]
pub enum ClearOutcome {
    /// Nothing changed: a clear is still showing, the game is over, or no
    /// cluster reaches both walls.
    Waiting,
    /// A new clear was found and is now pending.
    Started,
    /// The pending clear finished: these grains were removed from the board.
    Cleared(Vec<(usize, usize, u64)>),
}

/// One run of the clearing step. While a clear is pending it waits for
/// `flash_finished`, then empties the target cells, adds the clear's points to
/// the score and returns the removed grains. Otherwise, unless the game is over,
/// it looks for grains to clear (see `find_clear_targets`) and, if there are
/// any, makes them the pending clear, one point per grain. `colors` holds per
/// cell, in row-major order, the colour of the settled grain there.
pub fn clear_system(
    effect: &mut ClearEffect,
    status: &mut GameStatus,
    board: &mut BoardGrid,
    colors: &Vec<Option<GrainColor>>,
    flash_finished: bool,
) -> (outcome: ClearOutcome)
    requires
        old(board).wf(),
        old(effect).wf(),
        colors@.len() == CELL_COUNT,
        flash_finished ==> (old(effect).pending matches Some(p) ==> old(status).score + p.points <= u32::MAX),
    ensures
        final(board).wf(),
        final(effect).wf(),
        final(status).is_game_over == old(status).is_game_over,
        match old(effect).pending {
            Some(p) => if flash_finished {
                &&& outcome matches ClearOutcome::Cleared(t) && t@ == p.targets@
                &&& final(effect).pending is None
                &&& final(status).score == old(status).score + p.points
                &&& forall|a: (int, int)| on_board(a.0, a.1) ==> #[trigger] final(board)@[cell_index(a.0, a.1)]
                    == if targeted(p.targets@, a) { None } else { old(board)@[cell_index(a.0, a.1)] }
            } else {
                &&& outcome is Waiting
                &&& final(effect).pending == old(effect).pending
                &&& final(status).score == old(status).score
                &&& final(board)@ == old(board)@
            },
            None => {
                &&& final(board)@ == old(board)@
                &&& final(status).score == old(status).score
                &&& if old(status).is_game_over
                    || !(exists|a: (int, int)| on_board(a.0, a.1) && #[trigger] spans(colors@, a)
                        && old(board)@[cell_index(a.0, a.1)] is Some) {
                    &&& outcome is Waiting
                    &&& final(effect).pending is None
                } else {
                    &&& outcome is Started
                    &&& final(effect).pending matches Some(p) && are_clear_targets(old(board)@, colors@, p.targets@)
                        && p.points == p.targets@.len()
                }
            },
        },
{
    if effect.pending.is_some() {
        if flash_finished {
            let pending = effect.pending.take().unwrap();
            let ghost before = board@;
            let mut i: usize = 0;
            while i < pending.targets.len()
                invariant
                    board.wf(),
                    before.len() == CELL_COUNT,
                    pending.wf(),
                    i <= pending.targets@.len(),
                    forall|a: (int, int)| on_board(a.0, a.1) ==> #[trigger] board@[cell_index(a.0, a.1)]
                        == if (exists|k: int| 0 <= k < i && #[trigger] target_cell(pending.targets@, k) == a) { None }
                        else { before[cell_index(a.0, a.1)] },
                decreases pending.targets@.len() - i,
            {
                let (c, r, _) = pending.targets[i];
                let ghost b = (c as int, r as int);
                assert(b == target_cell(pending.targets@, i as int));
                assert(on_board(b.0, b.1));
                let ghost board_before = board@;
                board.clear_cell(c, r);
                proof {
                    lemma_cell_index(b.0, b.1);
                    assert forall|a: (int, int)| on_board(a.0, a.1) implies #[trigger] board@[cell_index(a.0, a.1)]
                        == if (exists|k: int| 0 <= k < i + 1 && #[trigger] target_cell(pending.targets@, k) == a) { None }
                        else { before[cell_index(a.0, a.1)] } by {
                        if a == b {
                            assert(target_cell(pending.targets@, i as int) == a);
                        } else {
                            if cell_index(a.0, a.1) == cell_index(b.0, b.1) {
                                lemma_cell_index_injective(a, b);
                            }
                            assert(board@[cell_index(a.0, a.1)] == board_before[cell_index(a.0, a.1)]);
                            if exists|k: int| 0 <= k < i + 1 && #[trigger] target_cell(pending.targets@, k) == a {
                                let k = choose|k: int| 0 <= k < i + 1 && #[trigger] target_cell(pending.targets@, k) == a;
                                assert(k < i);
                            }
                        }
                    }
                }
                i = i + 1;
            }
            status.score = status.score + pending.points;
            return ClearOutcome::Cleared(pending.targets);
        }
        return ClearOutcome::Waiting;
    }
    if status.is_game_over {
        return ClearOutcome::Waiting;
    }
    let targets = find_clear_targets(board, colors);
    if targets.len() == 0 {
        proof {
            assert forall|a: (int, int)| on_board(a.0, a.1) && #[trigger] spans(colors@, a)
                implies !(board@[cell_index(a.0, a.1)] is Some) by {
                if board@[cell_index(a.0, a.1)] is Some {
                    assert(targeted(targets@, a));
                }
            }
        }
        return ClearOutcome::Waiting;
    }
    proof {
        let a = target_cell(targets@, 0);
        assert(on_board(a.0, a.1) && spans(colors@, a) && board@[cell_index(a.0, a.1)] is Some);
    }
    assert forall|i: int| 0 <= i < targets@.len()
        implies on_board(#[trigger] targets@[i].0 as int, targets@[i].1 as int) by {
        assert(on_board(target_cell(targets@, i).0, target_cell(targets@, i).1));
    }
    let points = targets.len() as u32;
    effect.pending = Some(PendingClear { targets, points });
    ClearOutcome::Started
}


/// A walk through grains of `h` is a walk in `g` when every grain of `h` is a
/// grain of the same colour in `g`.
proof fn lemma_path_in_larger_grid(g: Seq<Option<GrainColor>>, h: Seq<Option<GrainColor>>, p: Seq<(int, int)>)
    requires
        is_path(h, p),
        forall|x: (int, int)| on_board(x.0, x.1) && (#[trigger] color_of(h, x)) is Some ==> color_of(g, x) == color_of(h, x),
    ensures
        is_path(g, p),
{
    assert forall|i: int| 0 <= i < p.len() - 1 implies #[trigger] path_step(g, p, i) by {
        assert(path_step(h, p, i));
        assert(color_of(h, p[i]) is Some);
        assert(color_of(h, p[i + 1]) is Some);
    }
}

/// Once the grains of every cluster that reaches both walls are removed, no
/// cluster of the remaining grains reaches both walls: a single clear leaves
/// nothing further to clear.
pub proof fn lemma_clear_leaves_no_spanning_cluster(g: Seq<Option<GrainColor>>, h: Seq<Option<GrainColor>>)
    requires
        g.len() == CELL_COUNT,
        h.len() == CELL_COUNT,
        forall|a: (int, int)| on_board(a.0, a.1) ==> #[trigger] color_of(h, a)
            == if spans(g, a) { None } else { color_of(g, a) },
    ensures
        forall|a: (int, int)| on_board(a.0, a.1) ==> !#[trigger] spans(h, a),
{
    assert forall|x: (int, int)| on_board(x.0, x.1) && (#[trigger] color_of(h, x)) is Some
        implies color_of(g, x) == color_of(h, x) by {}
    assert forall|a: (int, int)| on_board(a.0, a.1) implies !#[trigger] spans(h, a) by {
        if spans(h, a) {
            let l = choose|l: (int, int)| l.0 == 0 && #[trigger] connected(h, a, l);
            let pl = choose|p: Seq<(int, int)>| #[trigger] is_path(h, p) && p[0] == a && p[p.len() - 1] == l;
            lemma_path_in_larger_grid(g, h, pl);
            assert(connected(g, a, l));
            let r = choose|r: (int, int)| r.0 == BOARD_WIDTH - 1 && #[trigger] connected(h, a, r);
            let pr = choose|p: Seq<(int, int)>| #[trigger] is_path(h, p) && p[0] == a && p[p.len() - 1] == r;
            lemma_path_in_larger_grid(g, h, pr);
            assert(connected(g, a, r));
            assert(spans(g, a));
        }
    }
}


/// A property of cells that every `linked` step keeps holds along a walk.
proof fn lemma_path_keeps(g: Seq<Option<GrainColor>>, p: Seq<(int, int)>, keeps: spec_fn((int, int)) -> bool)
    requires
        is_path(g, p),
        keeps(p[0]),
        forall|a: (int, int), b: (int, int)| keeps(a) && #[trigger] linked(g, a, b) ==> keeps(b),
    ensures
        keeps(p[p.len() - 1]),
    decreases p.len(),
{
    if p.len() > 1 {
        lemma_path_drop_last(g, p);
        lemma_path_keeps(g, p.drop_last(), keeps);
    }
}

/// A diagonal of grains of one colour, from the bottom-left corner to column
/// `BOARD_WIDTH - 1`, reaches both walls: grains touching corner to corner
/// connect, so every grain of the diagonal is cleared, whatever lies elsewhere.
pub proof fn lemma_diagonal_spans(g: Seq<Option<GrainColor>>, c: GrainColor)
    requires
        g.len() == CELL_COUNT,
        forall|k: int| 0 <= k < BOARD_WIDTH ==> #[trigger] color_of(g, (k, k)) == Some(c),
    ensures
        forall|k: int| 0 <= k < BOARD_WIDTH ==> #[trigger] spans(g, (k, k)),
{
    let p = Seq::new(80, |k: int| (k, k));
    assert forall|i: int| 0 <= i < p.len() - 1 implies #[trigger] path_step(g, p, i) by {
        assert(color_of(g, (i, i)) == Some(c));
        assert(color_of(g, (i + 1, i + 1)) == Some(c));
    }
    assert(color_of(g, (0, 0)) == Some(c));
    assert(is_path(g, p));
    assert forall|k: int| 0 <= k < BOARD_WIDTH implies #[trigger] spans(g, (k, k)) by {
        let q = p.take(k + 1);
        assert forall|i: int| 0 <= i < q.len() - 1 implies #[trigger] path_step(g, q, i) by {
            assert(path_step(g, p, i));
        }
        assert(is_path(g, q) && q[0] == (0int, 0int) && q[q.len() - 1] == (k, k));
        assert(connected(g, (0, 0), (k, k)));
        assert(is_path(g, p) && p[0] == (0int, 0int) && p[p.len() - 1] == (79int, 79int));
        lemma_connected_sym(g, (0, 0), (k, k));
        lemma_connected_trans(g, (k, k), (0, 0), (79, 79));
        assert(color_of(g, (k, k)) == Some(c));
    }
}

/// The target list of a board whose only grains form one single-colour
/// diagonal from the bottom-left corner to the right wall: every grain of the
/// diagonal, bottom first, each with the id recorded in its cell.
pub proof fn lemma_diagonal_targets(cells: Seq<Option<u64>>, g: Seq<Option<GrainColor>>, t: Seq<(usize, usize, u64)>, c: GrainColor)
    requires
        g.len() == CELL_COUNT,
        cells.len() == CELL_COUNT,
        forall|a: (int, int)| on_board(a.0, a.1) ==> #[trigger] color_of(g, a) == if a.0 == a.1 { Some(c) } else { None },
        forall|k: int| 0 <= k < BOARD_WIDTH ==> (#[trigger] cells[cell_index(k, k)]) is Some,
        are_clear_targets(cells, g, t),
    ensures
        t.len() == BOARD_WIDTH,
        forall|k: int| 0 <= k < BOARD_WIDTH ==> (#[trigger] target_cell(t, k)) == (k, k),
        forall|k: int| 0 <= k < BOARD_WIDTH ==> cells[cell_index(k, k)] == Some((#[trigger] t[k]).2),
{
    assert forall|k: int| 0 <= k < BOARD_WIDTH implies #[trigger] color_of(g, (k, k)) == Some(c) by {
        assert(on_board(k, k));
    }
    lemma_diagonal_spans(g, c);
    assert forall|i: int| 0 <= i < t.len() implies (#[trigger] target_cell(t, i)).0 == target_cell(t, i).1
        && 0 <= target_cell(t, i).0 < BOARD_WIDTH by {
        assert(spans(g, target_cell(t, i)));
    }
    assert forall|k: int| 0 <= k < BOARD_WIDTH implies targeted(t, (k, k)) by {
        assert(spans(g, (k, k)));
        assert(cells[cell_index(k, k)] is Some);
    }
    lemma_diagonal_prefix(t, BOARD_WIDTH as int);
    if t.len() > BOARD_WIDTH {
        assert(target_cell(t, 79).0 == 79);
        assert(cell_index(target_cell(t, 79).0, target_cell(t, 79).1) < cell_index(target_cell(t, 80).0, target_cell(t, 80).1));
    }
    assert forall|k: int| 0 <= k < BOARD_WIDTH implies cells[cell_index(k, k)] == Some((#[trigger] t[k]).2) by {
        assert(target_cell(t, k) == (k, k));
        assert(cells[cell_index(target_cell(t, k).0, target_cell(t, k).1)] == Some(t[k].2));
    }
}

/// In a strictly increasing list of diagonal cells that names every diagonal
/// cell, entry `j` is diagonal cell `j`, for every `j` below `i`.
proof fn lemma_diagonal_prefix(t: Seq<(usize, usize, u64)>, i: int)
    requires
        0 <= i <= BOARD_WIDTH,
        forall|j: int| 0 <= j < t.len() ==> (#[trigger] target_cell(t, j)).0 == target_cell(t, j).1
            && 0 <= target_cell(t, j).0 < BOARD_WIDTH,
        forall|a: int, b: int| 0 <= a < b < t.len() ==> cell_index(#[trigger] target_cell(t, a).0, target_cell(t, a).1)
            < cell_index(#[trigger] target_cell(t, b).0, target_cell(t, b).1),
        forall|k: int| 0 <= k < BOARD_WIDTH ==> targeted(t, (k, k)),
    ensures
        i <= t.len(),
        forall|j: int| 0 <= j < i ==> #[trigger] target_cell(t, j) == (j, j),
    decreases i,
{
    if i > 0 {
        lemma_diagonal_prefix(t, i - 1);
        let k = i - 1;
        assert(targeted(t, (k, k)));
        let pos = choose|pos: int| 0 <= pos < t.len() && #[trigger] target_cell(t, pos) == (k, k);
        if pos < k {
            assert(target_cell(t, pos) == (pos, pos));
        }
        if pos > k {
            assert(cell_index(target_cell(t, k).0, target_cell(t, k).1) < cell_index(target_cell(t, pos).0, target_cell(t, pos).1));
            if k > 0 {
                assert(target_cell(t, k - 1) == (k - 1, k - 1));
                assert(cell_index(target_cell(t, k - 1).0, target_cell(t, k - 1).1) < cell_index(target_cell(t, k).0, target_cell(t, k).1));
            }
        }
    }
}

/// On a board whose only grains form a diagonal from the bottom-left corner to
/// the right wall, all of one colour but one grain of another colour, no grain
/// reaches both walls: that one grain splits the diagonal, so nothing is cleared.
pub proof fn lemma_split_diagonal_does_not_span(g: Seq<Option<GrainColor>>, x: GrainColor, y: GrainColor, j: int)
    requires
        g.len() == CELL_COUNT,
        x != y,
        0 <= j < BOARD_WIDTH,
        forall|a: (int, int)| on_board(a.0, a.1) ==> #[trigger] color_of(g, a)
            == if a.0 != a.1 { None } else if a.0 == j { Some(y) } else { Some(x) },
    ensures
        forall|a: (int, int)| on_board(a.0, a.1) ==> !#[trigger] spans(g, a),
{
    assert forall|a: (int, int)| on_board(a.0, a.1) implies !#[trigger] spans(g, a) by {
        if spans(g, a) {
            let l = choose|l: (int, int)| l.0 == 0 && #[trigger] connected(g, a, l);
            let r = choose|r: (int, int)| r.0 == BOARD_WIDTH - 1 && #[trigger] connected(g, a, r);
            let pl = choose|p: Seq<(int, int)>| #[trigger] is_path(g, p) && p[0] == a && p[p.len() - 1] == l;
            let pr = choose|p: Seq<(int, int)>| #[trigger] is_path(g, p) && p[0] == a && p[p.len() - 1] == r;
            assert(color_of(g, a) is Some);
            let m = a.0;
            if m == j {
                let keeps = |b: (int, int)| b == (j, j);
                assert forall|u: (int, int), v: (int, int)| keeps(u) && #[trigger] linked(g, u, v) implies keeps(v) by {
                    assert(color_of(g, u) == Some(y));
                }
                lemma_path_keeps(g, pl, keeps);
                lemma_path_keeps(g, pr, keeps);
            } else if m < j {
                let keeps = |b: (int, int)| b.0 == b.1 && b.0 < j;
                assert forall|u: (int, int), v: (int, int)| keeps(u) && #[trigger] linked(g, u, v) implies keeps(v) by {
                    assert(color_of(g, u) == Some(x));
                }
                lemma_path_keeps(g, pr, keeps);
            } else {
                let keeps = |b: (int, int)| b.0 == b.1 && b.0 > j;
                assert forall|u: (int, int), v: (int, int)| keeps(u) && #[trigger] linked(g, u, v) implies keeps(v) by {
                    assert(color_of(g, u) == Some(x));
                }
                lemma_path_keeps(g, pl, keeps);
            }
        }
    }
}

} // verus!
