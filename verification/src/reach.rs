use vstd::prelude::*;

use crate::cell::Cell;

verus! {

/// Two coordinates one axis step apart.
pub open spec fn adjacent(a: (int, int), b: (int, int)) -> bool {
    (a.0 == b.0 && (a.1 == b.1 + 1 || b.1 == a.1 + 1)) || (a.1 == b.1 && (a.0 == b.0 + 1 || b.0
        == a.0 + 1))
}

/// `p` walks over open (non-`Wall`) in-bounds cells of a `w` by `h` grid,
/// one axis step at a time.
pub open spec fn open_path(g: Seq<Cell>, w: int, h: int, p: Seq<(int, int)>) -> bool {
    &&& p.len() >= 1
    &&& forall|k: int|
        0 <= k < p.len() ==> {
            let c = #[trigger] p[k];
            0 <= c.0 < w && 0 <= c.1 < h && g[c.1 * w + c.0] != Cell::Wall
        }
    &&& forall|k: int| 0 <= k < p.len() - 1 ==> adjacent(#[trigger] p[k], p[k + 1])
}

/// `b` can be reached from `a` by walking over open cells.
pub open spec fn connected(g: Seq<Cell>, w: int, h: int, a: (int, int), b: (int, int)) -> bool {
    exists|p: Seq<(int, int)>| open_path(g, w, h, p) && p.first() == a && p.last() == b
}

/// An open cell reaches itself.
pub proof fn lemma_connected_refl(g: Seq<Cell>, w: int, h: int, a: (int, int))
    requires
        0 <= a.0 < w,
        0 <= a.1 < h,
        g[a.1 * w + a.0] != Cell::Wall,
    ensures
        connected(g, w, h, a, a),
{
    let p = seq![a];
    assert(open_path(g, w, h, p));
    assert(p.first() == a && p.last() == a);
}

/// Reachability extends by one step to an adjacent open cell.
pub proof fn lemma_connected_step(g: Seq<Cell>, w: int, h: int, a: (int, int), b: (int, int), c: (int, int))
    requires
        connected(g, w, h, a, b),
        adjacent(b, c),
        0 <= c.0 < w,
        0 <= c.1 < h,
        g[c.1 * w + c.0] != Cell::Wall,
    ensures
        connected(g, w, h, a, c),
{
    let p = choose|p: Seq<(int, int)>| open_path(g, w, h, p) && p.first() == a && p.last() == b;
    let q = p.push(c);
    assert forall|k: int| 0 <= k < q.len() - 1 implies adjacent(#[trigger] q[k], q[k + 1]) by {
        if k < p.len() - 1 {
            assert(adjacent(p[k], p[k + 1]));
        }
    }
    assert(open_path(g, w, h, q));
    assert(q.first() == a && q.last() == c);
}

/// Opening more cells never severs reachability.
pub proof fn lemma_connected_mono(g1: Seq<Cell>, g2: Seq<Cell>, w: int, h: int, a: (int, int), b: (int, int))
    requires
        connected(g1, w, h, a, b),
        g1.len() == g2.len(),
        forall|i: int| 0 <= i < g1.len() && g1[i] != Cell::Wall ==> #[trigger] g2[i] != Cell::Wall,
        w * h <= g1.len(),
    ensures
        connected(g2, w, h, a, b),
{
    let p = choose|p: Seq<(int, int)>| open_path(g1, w, h, p) && p.first() == a && p.last() == b;
    assert forall|k: int| 0 <= k < p.len() implies {
        let c = #[trigger] p[k];
        0 <= c.0 < w && 0 <= c.1 < h && g2[c.1 * w + c.0] != Cell::Wall
    } by {
        let c = p[k];
        assert(0 <= c.0 < w && 0 <= c.1 < h && g1[c.1 * w + c.0] != Cell::Wall);
        crate::grid::lemma_row_major_bounds(c.0, c.1, w, h);
    }
    assert(open_path(g2, w, h, p));
}

/// A route can be walked backward: reachability is symmetric.
pub proof fn lemma_connected_sym(g: Seq<Cell>, w: int, h: int, a: (int, int), b: (int, int))
    requires
        connected(g, w, h, a, b),
    ensures
        connected(g, w, h, b, a),
{
    let p = choose|p: Seq<(int, int)>| open_path(g, w, h, p) && p.first() == a && p.last() == b;
    let n = p.len() as int;
    let q = Seq::new(p.len(), |i: int| p[n - 1 - i]);
    assert forall|k: int| 0 <= k < q.len() - 1 implies adjacent(#[trigger] q[k], q[k + 1]) by {
        assert(adjacent(p[n - 2 - k], p[n - 1 - k]));
    }
    assert(open_path(g, w, h, q));
    assert(q.first() == b && q.last() == a);
}

/// Routes concatenate: reachability is transitive.
pub proof fn lemma_connected_trans(
    g: Seq<Cell>,
    w: int,
    h: int,
    a: (int, int),
    b: (int, int),
    c: (int, int),
)
    requires
        connected(g, w, h, a, b),
        connected(g, w, h, b, c),
    ensures
        connected(g, w, h, a, c),
{
    let p = choose|p: Seq<(int, int)>| open_path(g, w, h, p) && p.first() == a && p.last() == b;
    let q = choose|q: Seq<(int, int)>| open_path(g, w, h, q) && q.first() == b && q.last() == c;
    if q.len() == 1 {
        assert(open_path(g, w, h, p) && p.first() == a && p.last() == c);
    } else {
        let r = p + q.skip(1);
        assert forall|k: int| 0 <= k < r.len() implies {
            let e = #[trigger] r[k];
            0 <= e.0 < w && 0 <= e.1 < h && g[e.1 * w + e.0] != Cell::Wall
        } by {
            if k < p.len() {
                assert(r[k] == p[k]);
            } else {
                assert(r[k] == q[k - p.len() + 1]);
            }
        }
        assert forall|k: int| 0 <= k < r.len() - 1 implies adjacent(#[trigger] r[k], r[k + 1]) by {
            if k + 1 < p.len() {
                assert(r[k] == p[k] && r[k + 1] == p[k + 1]);
                assert(adjacent(p[k], p[k + 1]));
            } else if k + 1 == p.len() {
                assert(r[k] == p[k] && p[k] == b);
                assert(r[k + 1] == q[1]);
                assert(adjacent(q[0], q[1]));
            } else {
                assert(r[k] == q[k - p.len() + 1] && r[k + 1] == q[k - p.len() + 2]);
                assert(adjacent(q[k - p.len() + 1], q[k - p.len() + 2]));
            }
        }
        assert(open_path(g, w, h, r));
        assert(r.first() == a && r.last() == c);
    }
}

/// Every in-bounds chamber neighbor of `(px, py)` - two steps along one
/// axis - is open.
pub open spec fn chamber_closed(g: Seq<Cell>, w: int, h: int, px: int, py: int) -> bool {
    &&& (px - 2 >= 0 ==> g[py * w + (px - 2)] != Cell::Wall)
    &&& (px + 2 < w ==> g[py * w + (px + 2)] != Cell::Wall)
    &&& (py - 2 >= 0 ==> g[(py - 2) * w + px] != Cell::Wall)
    &&& (py + 2 < h ==> g[(py + 2) * w + px] != Cell::Wall)
}

/// Whether the carve stack holds the chamber `(px, py)`.
pub open spec fn on_stack(stack: Seq<(usize, usize)>, px: int, py: int) -> bool {
    exists|k: int| 0 <= k < stack.len() && #[trigger] stack[k] == ((px as usize), (py as usize))
}

/// Popping a chamber whose candidate list came back empty keeps the closure:
/// the popped chamber is itself closed, and every other closed chamber stays
/// closed since the grid is untouched.
pub proof fn lemma_pop_closure(
    g: Seq<Cell>,
    w: int,
    h: int,
    stack_entry: Seq<(usize, usize)>,
    stack_now: Seq<(usize, usize)>,
    x: usize,
    y: usize,
)
    requires
        g.len() == w * h,
        w <= usize::MAX as int,
        h <= usize::MAX as int,
        x < w,
        y < h,
        stack_entry.len() >= 1,
        stack_entry.last() == (x, y),
        stack_now == stack_entry.drop_last(),
        chamber_closed(g, w, h, x as int, y as int),
        forall|px: int, py: int|
            0 <= px < w && 0 <= py < h && px % 2 == 0 && py % 2 == 0 && g[py * w + px]
                == Cell::Path && !on_stack(stack_entry, px, py) ==> #[trigger] chamber_closed(
                g,
                w,
                h,
                px,
                py,
            ),
    ensures
        forall|px: int, py: int|
            0 <= px < w && 0 <= py < h && px % 2 == 0 && py % 2 == 0 && g[py * w + px]
                == Cell::Path && !on_stack(stack_now, px, py) ==> #[trigger] chamber_closed(
                g,
                w,
                h,
                px,
                py,
            ),
{
    assert forall|px: int, py: int|
        0 <= px < w && 0 <= py < h && px % 2 == 0 && py % 2 == 0 && g[py * w + px] == Cell::Path
            && !on_stack(stack_now, px, py) implies #[trigger] chamber_closed(
        g,
        w,
        h,
        px,
        py,
    ) by {
        if px == x as int && py == y as int {
        } else {
            if on_stack(stack_entry, px, py) {
                let k = choose|k: int|
                    0 <= k < stack_entry.len() && stack_entry[k] == ((px as usize), (py as usize));
                if k < stack_entry.len() - 1 {
                    assert(stack_now[k] == stack_entry[k]);
                    assert(on_stack(stack_now, px, py));
                } else {
                    assert(stack_entry[k] == (x, y));
                }
            }
        }
    }
}

/// A carve keeps the closure: the current and the new chamber go (back) on
/// the stack, the connector is no chamber, and every chamber that was closed
/// stays closed because cells only gain `Path`.
pub proof fn lemma_carve_closure(
    g_entry: Seq<Cell>,
    g_now: Seq<Cell>,
    w: int,
    h: int,
    stack_entry: Seq<(usize, usize)>,
    stack_now: Seq<(usize, usize)>,
    x: usize,
    y: usize,
    mx: usize,
    my: usize,
    nx: usize,
    ny: usize,
)
    requires
        g_entry.len() == w * h,
        g_now.len() == w * h,
        w <= usize::MAX as int,
        h <= usize::MAX as int,
        x < w,
        y < h,
        mx < w,
        my < h,
        nx < w,
        ny < h,
        mx as int % 2 == 1 || my as int % 2 == 1,
        g_now == g_entry.update(ny as int * w + nx as int, Cell::Path).update(
            my as int * w + mx as int,
            Cell::Path,
        ),
        stack_entry.len() >= 1,
        stack_entry.last() == (x, y),
        stack_now == stack_entry.drop_last().push((x, y)).push((nx, ny)),
        forall|px: int, py: int|
            0 <= px < w && 0 <= py < h && px % 2 == 0 && py % 2 == 0 && g_entry[py * w + px]
                == Cell::Path && !on_stack(stack_entry, px, py) ==> #[trigger] chamber_closed(
                g_entry,
                w,
                h,
                px,
                py,
            ),
    ensures
        forall|px: int, py: int|
            0 <= px < w && 0 <= py < h && px % 2 == 0 && py % 2 == 0 && g_now[py * w + px]
                == Cell::Path && !on_stack(stack_now, px, py) ==> #[trigger] chamber_closed(
                g_now,
                w,
                h,
                px,
                py,
            ),
{
    let t1 = ny as int * w + nx as int;
    let t2 = my as int * w + mx as int;
    crate::grid::lemma_row_major_bounds(nx as int, ny as int, w, h);
    crate::grid::lemma_row_major_bounds(mx as int, my as int, w, h);
    assert(forall|j: int|
        0 <= j < g_entry.len() && g_entry[j] != Cell::Wall ==> #[trigger] g_now[j] != Cell::Wall);
    assert forall|px: int, py: int|
        0 <= px < w && 0 <= py < h && px % 2 == 0 && py % 2 == 0 && g_now[py * w + px]
            == Cell::Path && !on_stack(stack_now, px, py) implies #[trigger] chamber_closed(
        g_now,
        w,
        h,
        px,
        py,
    ) by {
        crate::grid::lemma_row_major_bounds(px, py, w, h);
        let i = py * w + px;
        if i == t2 {
            crate::grid::lemma_row_major_injective(px, py, mx as int, my as int, w);
        }
        if i == t1 {
            crate::grid::lemma_row_major_injective(px, py, nx as int, ny as int, w);
            assert(stack_now[stack_now.len() - 1] == ((px as usize), (py as usize)));
            assert(on_stack(stack_now, px, py));
        }
        assert(g_entry[i] == Cell::Path);
        if on_stack(stack_entry, px, py) {
            let k = choose|k: int|
                0 <= k < stack_entry.len() && stack_entry[k] == ((px as usize), (py as usize));
            if k < stack_entry.len() - 1 {
                assert(stack_now[k] == stack_entry[k]);
                assert(on_stack(stack_now, px, py));
            } else {
                assert(stack_entry[k] == (x, y));
                assert(stack_now[stack_now.len() - 2] == (x, y));
                assert(on_stack(stack_now, px, py));
            }
        }
        assert(chamber_closed(g_entry, w, h, px, py));
        if px - 2 >= 0 {
            crate::grid::lemma_row_major_bounds(px - 2, py, w, h);
        }
        if px + 2 < w {
            crate::grid::lemma_row_major_bounds(px + 2, py, w, h);
        }
        if py - 2 >= 0 {
            crate::grid::lemma_row_major_bounds(px, py - 2, w, h);
        }
        if py + 2 < h {
            crate::grid::lemma_row_major_bounds(px, py + 2, w, h);
        }
        assert(chamber_closed(g_now, w, h, px, py));
    }
}

/// On a grid whose cells are all `Wall` or `Path`, where some chamber - a
/// cell with both coordinates even - is `Path` and every `Path` chamber's
/// in-bounds chamber neighbors (two steps along one axis) are open, every
/// chamber is `Path`: the even/even lattice is connected, so the closure
/// spreads from the one chamber to all of them.
pub proof fn lemma_chambers_filled(g: Seq<Cell>, w: int, h: int, sx: int, sy: int, cx: int, cy: int)
    requires
        g.len() == w * h,
        0 <= sx < w,
        0 <= sy < h,
        sx % 2 == 0,
        sy % 2 == 0,
        0 <= cx < w,
        0 <= cy < h,
        cx % 2 == 0,
        cy % 2 == 0,
        g[sy * w + sx] == Cell::Path,
        forall|px: int, py: int|
            0 <= px < w && 0 <= py < h && px % 2 == 0 && py % 2 == 0 && g[py * w + px]
                == Cell::Path ==> #[trigger] chamber_closed(g, w, h, px, py),
        forall|i: int| 0 <= i < g.len() ==> #[trigger] g[i] == Cell::Wall || g[i] == Cell::Path,
    ensures
        g[cy * w + cx] == Cell::Path,
    decreases (if cx >= sx {
        cx - sx
    } else {
        sx - cx
    }) + (if cy >= sy {
        cy - sy
    } else {
        sy - cy
    }),
{
    crate::grid::lemma_row_major_bounds(sx, sy, w, h);
    assert(chamber_closed(g, w, h, sx, sy));
    if sx == cx && sy == cy {
    } else if sx < cx {
        crate::grid::lemma_row_major_bounds(sx + 2, sy, w, h);
        assert(g[sy * w + (sx + 2)] != Cell::Wall);
        lemma_chambers_filled(g, w, h, sx + 2, sy, cx, cy);
    } else if sx > cx {
        crate::grid::lemma_row_major_bounds(sx - 2, sy, w, h);
        assert(g[sy * w + (sx - 2)] != Cell::Wall);
        lemma_chambers_filled(g, w, h, sx - 2, sy, cx, cy);
    } else if sy < cy {
        crate::grid::lemma_row_major_bounds(sx, sy + 2, w, h);
        assert(g[(sy + 2) * w + sx] != Cell::Wall);
        lemma_chambers_filled(g, w, h, sx, sy + 2, cx, cy);
    } else {
        crate::grid::lemma_row_major_bounds(sx, sy - 2, w, h);
        assert(g[(sy - 2) * w + sx] != Cell::Wall);
        lemma_chambers_filled(g, w, h, sx, sy - 2, cx, cy);
    }
}

/// On a fresh all-wall grid the carve fills the whole chamber lattice and,
/// once the two openings are forced, every open cell has a route from the
/// entrance: the closure at the end of the carve spreads `Path` over every
/// chamber, the chamber beside each forced opening ties it in, and routes
/// from the start chamber flip around and concatenate.
#[verifier::rlimit(60)]
pub proof fn lemma_full_carve(
    g_old: Seq<Cell>,
    g_loop: Seq<Cell>,
    g_fin: Seq<Cell>,
    w: int,
    h: int,
    start: (int, int),
)
    requires
        w % 2 == 1,
        h % 2 == 1,
        w >= 5,
        h >= 5,
        g_old.len() == w * h,
        g_loop.len() == w * h,
        g_fin.len() == w * h,
        forall|i: int| 0 <= i < g_old.len() ==> g_old[i] == Cell::Wall,
        0 <= start.0 < w,
        0 <= start.1 < h,
        start.0 % 2 == 0,
        start.1 % 2 == 0,
        g_loop[start.1 * w + start.0] == Cell::Path,
        forall|i: int|
            0 <= i < g_loop.len() ==> #[trigger] g_loop[i] == g_old[i] || g_loop[i] == Cell::Path,
        forall|px: int, py: int|
            0 <= px < w && 0 <= py < h && px % 2 == 0 && py % 2 == 0 && g_loop[py * w + px]
                == Cell::Path ==> #[trigger] chamber_closed(g_loop, w, h, px, py),
        g_fin == g_loop.update(1, Cell::Path).update((h - 1) * w + (w - 2), Cell::Path),
        forall|cx: int, cy: int|
            0 <= cx < w && 0 <= cy < h && g_fin[cy * w + cx] != g_old[cy * w + cx] && !(cx == 1
                && cy == 0) && !(cx == w - 2 && cy == h - 1) ==> #[trigger] connected(
                g_fin,
                w,
                h,
                start,
                (cx, cy),
            ),
    ensures
        forall|x: int, y: int|
            0 <= x < w && 0 <= y < h && x % 2 == 0 && y % 2 == 0 ==> #[trigger] g_fin[y * w + x]
                == Cell::Path,
        forall|x: int, y: int|
            0 <= x < w && 0 <= y < h && #[trigger] g_fin[y * w + x] != Cell::Wall ==> connected(
                g_fin,
                w,
                h,
                (1, 0),
                (x, y),
            ),
{
    crate::grid::lemma_row_major_bounds(1, 0, w, h);
    crate::grid::lemma_row_major_bounds(w - 2, h - 1, w, h);
    crate::grid::lemma_row_major_bounds(0, 0, w, h);
    crate::grid::lemma_row_major_bounds(w - 3, h - 1, w, h);
    crate::grid::lemma_row_major_bounds(start.0, start.1, w, h);
    assert((h - 1) * w >= w) by (nonlinear_arith)
        requires
            h >= 2,
            w >= 0,
    ;
    // the carve stack ran dry, so every open chamber is closed and all
    // cells are walls or paths: the whole even/even lattice is carved
    assert(forall|j: int|
        0 <= j < g_loop.len() ==> #[trigger] g_loop[j] == Cell::Wall || g_loop[j] == Cell::Path);
    assert forall|x: int, y: int|
        0 <= x < w && 0 <= y < h && x % 2 == 0 && y % 2 == 0 implies #[trigger] g_fin[y * w + x]
        == Cell::Path by {
        crate::grid::lemma_row_major_bounds(x, y, w, h);
        lemma_chambers_filled(g_loop, w, h, start.0, start.1, x, y);
    }
    // the chamber below the entrance and the chamber beside the exit tie
    // the two forced openings into the carved region
    assert(connected(g_fin, w, h, start, (0, 0)));
    lemma_connected_step(g_fin, w, h, start, (0, 0), (1, 0));
    assert(connected(g_fin, w, h, start, (w - 3, h - 1)));
    lemma_connected_step(g_fin, w, h, start, (w - 3, h - 1), (w - 2, h - 1));
    lemma_connected_sym(g_fin, w, h, start, (1, 0));
    assert forall|x: int, y: int|
        0 <= x < w && 0 <= y < h && #[trigger] g_fin[y * w + x] != Cell::Wall implies connected(
        g_fin,
        w,
        h,
        (1, 0),
        (x, y),
    ) by {
        crate::grid::lemma_row_major_bounds(x, y, w, h);
        if x == 1 && y == 0 {
            lemma_connected_refl(g_fin, w, h, (1, 0));
        } else if x == w - 2 && y == h - 1 {
            lemma_connected_trans(g_fin, w, h, (1, 0), start, (w - 2, h - 1));
        } else {
            assert(connected(g_fin, w, h, start, (x, y)));
            lemma_connected_trans(g_fin, w, h, (1, 0), start, (x, y));
        }
    }
}

/// One carve step keeps every reachability fact: the grid only gains open
/// cells, the popped chamber keeps its route from the start, and the route
/// extends over the freshly opened connector onto the new chamber.
pub proof fn lemma_carve_connectivity(
    g_old: Seq<Cell>,
    g_entry: Seq<Cell>,
    g_now: Seq<Cell>,
    w: int,
    h: int,
    start: (int, int),
    stack_entry: Seq<(usize, usize)>,
    stack_now: Seq<(usize, usize)>,
    x: usize,
    y: usize,
    mx: usize,
    my: usize,
    nx: usize,
    ny: usize,
)
    requires
        g_old.len() == w * h,
        g_entry.len() == w * h,
        g_now.len() == w * h,
        x < w,
        y < h,
        mx < w,
        my < h,
        nx < w,
        ny < h,
        adjacent((x as int, y as int), (mx as int, my as int)),
        adjacent((mx as int, my as int), (nx as int, ny as int)),
        g_now == g_entry.update(ny as int * w + nx as int, Cell::Path).update(
            my as int * w + mx as int,
            Cell::Path,
        ),
        stack_entry.len() >= 1,
        stack_entry.last() == (x, y),
        stack_now == stack_entry.drop_last().push((x, y)).push((nx, ny)),
        forall|k: int|
            0 <= k < stack_entry.len() ==> connected(
                g_entry,
                w,
                h,
                start,
                ((#[trigger] stack_entry[k]).0 as int, stack_entry[k].1 as int),
            ),
        forall|cx: int, cy: int|
            0 <= cx < w && 0 <= cy < h && g_entry[cy * w + cx] != g_old[cy * w + cx]
                ==> #[trigger] connected(g_entry, w, h, start, (cx, cy)),
    ensures
        forall|k: int|
            0 <= k < stack_now.len() ==> connected(
                g_now,
                w,
                h,
                start,
                ((#[trigger] stack_now[k]).0 as int, stack_now[k].1 as int),
            ),
        forall|cx: int, cy: int|
            0 <= cx < w && 0 <= cy < h && g_now[cy * w + cx] != g_old[cy * w + cx]
                ==> #[trigger] connected(g_now, w, h, start, (cx, cy)),
{
    let a = (x as int, y as int);
    let m = (mx as int, my as int);
    let b = (nx as int, ny as int);
    let t1 = b.1 * w + b.0;
    let t2 = m.1 * w + m.0;
    crate::grid::lemma_row_major_bounds(b.0, b.1, w, h);
    crate::grid::lemma_row_major_bounds(m.0, m.1, w, h);
    if t1 == t2 {
        crate::grid::lemma_row_major_injective(b.0, b.1, m.0, m.1, w);
    }
    assert(forall|i: int|
        0 <= i < g_entry.len() && g_entry[i] != Cell::Wall ==> #[trigger] g_now[i] != Cell::Wall);
    // the popped chamber keeps its route from the start
    assert(connected(g_entry, w, h, start, a));
    lemma_connected_mono(g_entry, g_now, w, h, start, a);
    // step over the connector onto the new chamber
    assert(g_now[t2] == Cell::Path);
    lemma_connected_step(g_now, w, h, start, a, m);
    assert(g_now[t1] == Cell::Path);
    lemma_connected_step(g_now, w, h, start, m, b);
    // every stack entry keeps its route
    assert forall|k: int| 0 <= k < stack_now.len() implies connected(
        g_now,
        w,
        h,
        start,
        ((#[trigger] stack_now[k]).0 as int, stack_now[k].1 as int),
    ) by {
        if k < stack_now.len() - 2 {
            assert(stack_now[k] == stack_entry[k]);
            lemma_connected_mono(
                g_entry,
                g_now,
                w,
                h,
                start,
                (stack_entry[k].0 as int, stack_entry[k].1 as int),
            );
        } else if k == stack_now.len() - 2 {
            assert(stack_now[k] == (x, y));
        } else {
            assert(stack_now[k] == (nx, ny));
        }
    }
    // every carved cell keeps its route
    assert forall|cx: int, cy: int|
        0 <= cx < w && 0 <= cy < h && g_now[cy * w + cx] != g_old[cy * w + cx] implies #[trigger] connected(
        g_now,
        w,
        h,
        start,
        (cx, cy),
    ) by {
        crate::grid::lemma_row_major_bounds(cx, cy, w, h);
        let i = cy * w + cx;
        if i == t1 {
            crate::grid::lemma_row_major_injective(cx, cy, b.0, b.1, w);
        } else if i == t2 {
            crate::grid::lemma_row_major_injective(cx, cy, m.0, m.1, w);
        } else {
            lemma_connected_mono(g_entry, g_now, w, h, start, (cx, cy));
        }
    }
}

} // verus!
