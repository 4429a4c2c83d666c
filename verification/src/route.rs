use vstd::prelude::*;

use crate::cell::Cell;
use crate::grid::{count_eq, lemma_count_eq_update};

verus! {

/// Which cells are walls: all the route search ever reads from the grid.
pub open spec fn wall_mask(g: Seq<Cell>) -> Seq<bool> {
    Seq::new(g.len(), |i: int| g[i] == Cell::Wall)
}

/// One search step: if `(nx, ny)` addresses an unvisited walkable cell, it
/// is marked visited, `(fx, fy)` is recorded as its predecessor, and it
/// joins the frontier; otherwise nothing changes.
pub open spec fn spec_visit(
    mask: Seq<bool>,
    w: int,
    visited: Seq<bool>,
    came: Seq<Option<(usize, usize)>>,
    queue: Seq<(usize, usize)>,
    nx: int,
    ny: int,
    fx: int,
    fy: int,
) -> (Seq<bool>, Seq<Option<(usize, usize)>>, Seq<(usize, usize)>) {
    let t = ny * w + nx;
    if 0 <= t && t < visited.len() && t < came.len() && t < mask.len() && !visited[t] && !mask[t] {
        (
            visited.update(t, true),
            came.update(t, Some((fx as usize, fy as usize))),
            queue.push((nx as usize, ny as usize)),
        )
    } else {
        (visited, came, queue)
    }
}

/// A visit never grows `2 * unvisited + frontier`: it either changes
/// nothing or trades one unvisited cell for one frontier entry.
pub proof fn lemma_spec_visit_measure(
    mask: Seq<bool>,
    w: int,
    visited: Seq<bool>,
    came: Seq<Option<(usize, usize)>>,
    queue: Seq<(usize, usize)>,
    nx: int,
    ny: int,
    fx: int,
    fy: int,
)
    ensures
        ({
            let s = spec_visit(mask, w, visited, came, queue, nx, ny, fx, fy);
            s.0.len() == visited.len() && s.1.len() == came.len() && s.2.len() >= queue.len() && 2
                * count_eq(s.0, false) + s.2.len() <= 2 * count_eq(visited, false) + queue.len()
        }),
{
    let t = ny * w + nx;
    if 0 <= t && t < visited.len() && t < came.len() && t < mask.len() && !visited[t] && !mask[t] {
        lemma_count_eq_update(visited, t, true, false);
    }
}

/// Expanding the frontier cell at `head`: its four axis neighbors are
/// visited in order - down, right, up, left.
pub open spec fn spec_bfs_step(
    mask: Seq<bool>,
    w: int,
    h: int,
    visited: Seq<bool>,
    came: Seq<Option<(usize, usize)>>,
    queue: Seq<(usize, usize)>,
    head: int,
) -> (Seq<bool>, Seq<Option<(usize, usize)>>, Seq<(usize, usize)>) {
    let x = queue[head].0 as int;
    let y = queue[head].1 as int;
    let s1 = if y + 1 < h {
        spec_visit(mask, w, visited, came, queue, x, y + 1, x, y)
    } else {
        (visited, came, queue)
    };
    let s2 = if x + 1 < w {
        spec_visit(mask, w, s1.0, s1.1, s1.2, x + 1, y, x, y)
    } else {
        s1
    };
    let s3 = if y >= 1 {
        spec_visit(mask, w, s2.0, s2.1, s2.2, x, y - 1, x, y)
    } else {
        s2
    };
    if x >= 1 {
        spec_visit(mask, w, s3.0, s3.1, s3.2, x - 1, y, x, y)
    } else {
        s3
    }
}

/// The predecessor links that breadth-first search computes: frontier cells
/// are expanded in order until the frontier is exhausted or the exit
/// `(ex, ey)` is dequeued.
pub open spec fn spec_bfs(
    mask: Seq<bool>,
    w: int,
    h: int,
    ex: int,
    ey: int,
    visited: Seq<bool>,
    came: Seq<Option<(usize, usize)>>,
    queue: Seq<(usize, usize)>,
    head: int,
) -> Seq<Option<(usize, usize)>>
    decreases 2 * count_eq(visited, false) + queue.len() - head,
        via spec_bfs_decreases
{
    if head < 0 || head >= queue.len() {
        came
    } else if queue[head].0 as int == ex && queue[head].1 as int == ey {
        came
    } else {
        let s = spec_bfs_step(mask, w, h, visited, came, queue, head);
        spec_bfs(mask, w, h, ex, ey, s.0, s.1, s.2, head + 1)
    }
}

#[via_fn]
proof fn spec_bfs_decreases(
    mask: Seq<bool>,
    w: int,
    h: int,
    ex: int,
    ey: int,
    visited: Seq<bool>,
    came: Seq<Option<(usize, usize)>>,
    queue: Seq<(usize, usize)>,
    head: int,
) {
    if !(head < 0 || head >= queue.len()) && !(queue[head].0 as int == ex && queue[head].1 as int
        == ey) {
        let x = queue[head].0 as int;
        let y = queue[head].1 as int;
        let s1 = if y + 1 < h {
            spec_visit(mask, w, visited, came, queue, x, y + 1, x, y)
        } else {
            (visited, came, queue)
        };
        let s2 = if x + 1 < w {
            spec_visit(mask, w, s1.0, s1.1, s1.2, x + 1, y, x, y)
        } else {
            s1
        };
        let s3 = if y >= 1 {
            spec_visit(mask, w, s2.0, s2.1, s2.2, x, y - 1, x, y)
        } else {
            s2
        };
        let s4 = if x >= 1 {
            spec_visit(mask, w, s3.0, s3.1, s3.2, x - 1, y, x, y)
        } else {
            s3
        };
        lemma_spec_visit_measure(mask, w, visited, came, queue, x, y + 1, x, y);
        lemma_spec_visit_measure(mask, w, s1.0, s1.1, s1.2, x + 1, y, x, y);
        lemma_spec_visit_measure(mask, w, s2.0, s2.1, s2.2, x, y - 1, x, y);
        lemma_spec_visit_measure(mask, w, s3.0, s3.1, s3.2, x - 1, y, x, y);
        assert(2 * count_eq(s4.0, false) + s4.2.len() <= 2 * count_eq(visited, false)
            + queue.len());
    }
}

/// The search's starting state: only the entrance, at linear index 1, is
/// visited and on the frontier, and no predecessors are known yet.
pub open spec fn init_visited(n: int) -> Seq<bool> {
    Seq::new(n as nat, |i: int| i == 1)
}

pub open spec fn init_came(n: int) -> Seq<Option<(usize, usize)>> {
    Seq::new(n as nat, |i: int| None)
}

/// The backward walk from `(cx, cy)` along the predecessor links, upgrading
/// every walkable cell strictly between the entrance `(1, 0)` and the exit
/// `(ex, ey)` to `Solution`. The fuel bounds the walk; the links a search
/// builds form a tree, so fuel equal to the cell count never runs out.
pub open spec fn spec_walk(
    came: Seq<Option<(usize, usize)>>,
    g: Seq<Cell>,
    w: int,
    ex: int,
    ey: int,
    cx: int,
    cy: int,
    fuel: int,
) -> Seq<Cell>
    decreases fuel,
{
    if fuel <= 0 {
        g
    } else {
        let ci = cy * w + cx;
        if !(0 <= ci && ci < came.len()) {
            g
        } else {
            match came[ci] {
                None => g,
                Some(prev) => {
                    let g1 = if !(cx == ex && cy == ey) && !(cx == 1 && cy == 0) && ci < g.len()
                        && g[ci] != Cell::Wall {
                        g.update(ci, Cell::Solution)
                    } else {
                        g
                    };
                    spec_walk(came, g1, w, ex, ey, prev.0 as int, prev.1 as int, fuel - 1)
                },
            }
        }
    }
}

/// The solver's whole effect on a grid's cells: search for the exit from
/// the entrance over the wall mask, then walk the predecessor links
/// backward from the exit, marking the route's interior.
pub open spec fn spec_solve(w: int, h: int, g: Seq<Cell>) -> Seq<Cell> {
    let parents = spec_bfs(
        wall_mask(g),
        w,
        h,
        w - 2,
        h - 1,
        init_visited(g.len() as int),
        init_came(g.len() as int),
        seq![(1usize, 0usize)],
        0,
    );
    spec_walk(parents, g, w, w - 2, h - 1, w - 2, h - 1, g.len() as int)
}

/// The walk changes cells only by upgrading walkable ones to `Solution`;
/// in particular the length and the wall mask are untouched.
pub proof fn lemma_walk_preserves(
    came: Seq<Option<(usize, usize)>>,
    g: Seq<Cell>,
    w: int,
    ex: int,
    ey: int,
    cx: int,
    cy: int,
    fuel: int,
)
    ensures
        ({
            let r = spec_walk(came, g, w, ex, ey, cx, cy, fuel);
            r.len() == g.len() && (forall|j: int|
                0 <= j < g.len() ==> (#[trigger] r[j] == g[j] || (g[j] != Cell::Wall && r[j]
                    == Cell::Solution)))
        }),
    decreases fuel,
{
    if fuel <= 0 {
    } else {
        let ci = cy * w + cx;
        if 0 <= ci && ci < came.len() {
            match came[ci] {
                None => {},
                Some(prev) => {
                    let g1 = if !(cx == ex && cy == ey) && !(cx == 1 && cy == 0) && ci < g.len()
                        && g[ci] != Cell::Wall {
                        g.update(ci, Cell::Solution)
                    } else {
                        g
                    };
                    lemma_walk_preserves(came, g1, w, ex, ey, prev.0 as int, prev.1 as int, fuel - 1);
                },
            }
        }
    }
}

/// The wall mask survives the walk.
pub proof fn lemma_walk_preserves_mask(
    came: Seq<Option<(usize, usize)>>,
    g: Seq<Cell>,
    w: int,
    ex: int,
    ey: int,
    cx: int,
    cy: int,
    fuel: int,
)
    ensures
        wall_mask(spec_walk(came, g, w, ex, ey, cx, cy, fuel)) == wall_mask(g),
{
    let r = spec_walk(came, g, w, ex, ey, cx, cy, fuel);
    lemma_walk_preserves(came, g, w, ex, ey, cx, cy, fuel);
    assert forall|j: int| 0 <= j < g.len() implies #[trigger] wall_mask(r)[j] == wall_mask(g)[j] by {
        assert(r[j] == g[j] || (g[j] != Cell::Wall && r[j] == Cell::Solution));
    }
    assert(wall_mask(r) =~= wall_mask(g));
}

/// Walking the same links again over an already walked grid changes
/// nothing: every cell the walk would mark is `Solution` already.
pub proof fn lemma_walk_twice(
    came: Seq<Option<(usize, usize)>>,
    g: Seq<Cell>,
    w: int,
    ex: int,
    ey: int,
    cx: int,
    cy: int,
    fuel: int,
)
    ensures
        spec_walk(came, spec_walk(came, g, w, ex, ey, cx, cy, fuel), w, ex, ey, cx, cy, fuel)
            == spec_walk(came, g, w, ex, ey, cx, cy, fuel),
    decreases fuel,
{
    if fuel <= 0 {
    } else {
        let ci = cy * w + cx;
        if 0 <= ci && ci < came.len() {
            match came[ci] {
                None => {},
                Some(prev) => {
                    let marking = !(cx == ex && cy == ey) && !(cx == 1 && cy == 0) && ci < g.len()
                        && g[ci] != Cell::Wall;
                    let g1 = if marking {
                        g.update(ci, Cell::Solution)
                    } else {
                        g
                    };
                    let r = spec_walk(came, g1, w, ex, ey, prev.0 as int, prev.1 as int, fuel - 1);
                    lemma_walk_preserves(came, g1, w, ex, ey, prev.0 as int, prev.1 as int, fuel - 1);
                    if marking {
                        assert(r[ci] == Cell::Solution);
                        assert(r.update(ci, Cell::Solution) =~= r);
                    } else {
                        if !(cx == ex && cy == ey) && !(cx == 1 && cy == 0) && ci < g.len() {
                            assert(g[ci] == Cell::Wall);
                            assert(r[ci] == Cell::Wall);
                        }
                    }
                    lemma_walk_twice(came, g1, w, ex, ey, prev.0 as int, prev.1 as int, fuel - 1);
                },
            }
        }
    }
}

/// Solving twice yields the same cells as solving once. The first pass only
/// upgrades walkable cells to `Solution`, which leaves the wall mask - all
/// the search reads - untouched; the second pass therefore recomputes the
/// same predecessor links and re-marks the same route.
pub proof fn lemma_solve_idempotent(w: int, h: int, g: Seq<Cell>)
    ensures
        spec_solve(w, h, spec_solve(w, h, g)) == spec_solve(w, h, g),
{
    let mask = wall_mask(g);
    let n = g.len() as int;
    let parents = spec_bfs(mask, w, h, w - 2, h - 1, init_visited(n), init_came(n), seq![(1usize, 0usize)], 0);
    let g1 = spec_walk(parents, g, w, w - 2, h - 1, w - 2, h - 1, n);
    lemma_walk_preserves(parents, g, w, w - 2, h - 1, w - 2, h - 1, n);
    lemma_walk_preserves_mask(parents, g, w, w - 2, h - 1, w - 2, h - 1, n);
    assert(g1.len() == g.len());
    assert(spec_solve(w, h, g1) == spec_walk(parents, g1, w, w - 2, h - 1, w - 2, h - 1, n));
    lemma_walk_twice(parents, g, w, w - 2, h - 1, w - 2, h - 1, n);
}

} // verus!
