use vstd::prelude::*;

use crate::cell::Cell;
use crate::rng::{rand_below, rng_from_seed};
use crate::reach::{
    adjacent, chamber_closed, connected, lemma_carve_closure, lemma_carve_connectivity,
    lemma_connected_mono, lemma_connected_refl, lemma_full_carve, lemma_pop_closure, on_stack,
};
use crate::route::{
    init_came, init_visited, spec_bfs, spec_bfs_step, spec_solve, spec_visit, spec_walk, wall_mask,
};

verus! {

/// `0 <= y * w + x < w * h` whenever `(x, y)` lies inside a `w` by `h` grid:
/// row-major addressing never leaves the cell vector.
pub proof fn lemma_row_major_bounds(x: int, y: int, w: int, h: int)
    requires
        0 <= x < w,
        0 <= y < h,
    ensures
        0 <= y * w + x < w * h,
{
    assert(y * w + x < w * h) by (nonlinear_arith)
        requires
            0 <= x < w,
            0 <= y < h,
    ;
    assert(0 <= y * w + x) by (nonlinear_arith)
        requires
            0 <= x,
            0 <= y,
            0 <= w,
    ;
}

/// Row-major addressing is injective: two distinct in-bounds coordinates
/// never share a linear index.
pub proof fn lemma_row_major_injective(x1: int, y1: int, x2: int, y2: int, w: int)
    requires
        0 <= x1 < w,
        0 <= x2 < w,
        0 <= y1,
        0 <= y2,
        y1 * w + x1 == y2 * w + x2,
    ensures
        x1 == x2 && y1 == y2,
{
    assert(x1 == x2 && y1 == y2) by (nonlinear_arith)
        requires
            0 <= x1 < w,
            0 <= x2 < w,
            0 <= y1,
            0 <= y2,
            y1 * w + x1 == y2 * w + x2,
    ;
}

/// How many entries of `s` equal `v`.
pub open spec fn count_eq<T>(s: Seq<T>, v: T) -> nat
    decreases s.len(),
{
    if s.len() == 0 {
        0
    } else {
        count_eq(s.drop_last(), v) + (if s.last() == v {
            1nat
        } else {
            0nat
        })
    }
}

/// Overwriting one entry changes the count of `v` by exactly the difference
/// between what leaves and what arrives.
pub proof fn lemma_count_eq_update<T>(s: Seq<T>, i: int, c: T, v: T)
    requires
        0 <= i < s.len(),
    ensures
        count_eq(s.update(i, c), v) == count_eq(s, v) - (if s[i] == v {
            1int
        } else {
            0int
        }) + (if c == v {
            1int
        } else {
            0int
        }),
    decreases s.len(),
{
    let t = s.update(i, c);
    if i == s.len() - 1 {
        assert(t.drop_last() =~= s.drop_last());
        assert(t.last() == c);
    } else {
        assert(t.drop_last() =~= s.drop_last().update(i, c));
        assert(t.last() == s.last());
        lemma_count_eq_update(s.drop_last(), i, c, v);
    }
}

/// A rectangular maze grid, stored densely in row-major order:
/// the cell at `(x, y)` lives at linear index `y * width + x`.
#[derive(Clone, Debug, PartialEq, Eq)]
pub struct Grid {
    pub width: usize,
    pub height: usize,
    pub grid: Vec<Cell>,
}

impl Grid {
    /// The addressing invariant: the cell vector covers exactly
    /// `width * height` row-major slots.
    pub open spec fn wf(self) -> bool {
        self.grid@.len() == self.width * self.height
    }

    /// The linear index of coordinate `(x, y)`.
    pub open spec fn idx(self, x: int, y: int) -> int {
        y * self.width + x
    }

    pub open spec fn in_bounds(self, x: int, y: int) -> bool {
        0 <= x < self.width && 0 <= y < self.height
    }

    /// The cell stored at `(x, y)`.
    pub open spec fn cell(self, x: int, y: int) -> Cell {
        self.grid@[self.idx(x, y)]
    }

    /// Both stored dimensions agree with the other grid's.
    pub open spec fn same_dims(self, other: Grid) -> bool {
        self.width == other.width && self.height == other.height
    }

    /// A grid as `new` hands it out, ready for a full carve: odd dimensions
    /// of at least five, every cell still a wall.
    pub open spec fn fresh_for_carving(self) -> bool {
        &&& self.width % 2 == 1
        &&& self.height % 2 == 1
        &&& self.width >= 5
        &&& self.height >= 5
        &&& forall|i: int| 0 <= i < self.grid@.len() ==> self.grid@[i] == Cell::Wall
    }

    /// Creates a grid filled with walls. An even requested dimension is
    /// decremented by one, so the stored dimensions are always odd.
    pub fn new(width: usize, height: usize) -> (r: Grid)
        requires
            1 <= width,
            1 <= height,
            width * height <= usize::MAX,
        ensures
            r.wf(),
            r.width == (if width % 2 == 1 { width as int } else { width - 1 }),
            r.height == (if height % 2 == 1 { height as int } else { height - 1 }),
            r.width % 2 == 1,
            r.height % 2 == 1,
            forall|x: int, y: int| r.in_bounds(x, y) ==> r.cell(x, y) == Cell::Wall,
            forall|i: int| 0 <= i < r.grid@.len() ==> r.grid@[i] == Cell::Wall,
    {
        let w: usize = if width % 2 == 1 { width } else { width - 1 };
        let h: usize = if height % 2 == 1 { height } else { height - 1 };
        proof {
            assert(w * h <= width * height) by (nonlinear_arith)
                requires
                    0 <= w <= width,
                    0 <= h <= height,
            ;
        }
        let n: usize = w * h;
        let mut grid: Vec<Cell> = Vec::new();
        let mut i: usize = 0;
        while i < n
            invariant
                i <= n,
                grid@.len() == i,
                forall|j: int| 0 <= j < i ==> grid@[j] == Cell::Wall,
            decreases n - i,
        {
            grid.push(Cell::Wall);
            i = i + 1;
        }
        let r = Grid { width: w, height: h, grid };
        proof {
            assert forall|x: int, y: int| r.in_bounds(x, y) implies r.cell(x, y) == Cell::Wall by {
                lemma_row_major_bounds(x, y, w as int, h as int);
            }
        }
        r
    }

    /// Reads the cell at `(x, y)`; out-of-range coordinates are absent,
    /// never a panic.
    pub fn get(&self, x: usize, y: usize) -> (r: Option<Cell>)
        requires
            self.wf(),
        ensures
            r == (if self.in_bounds(x as int, y as int) {
                Some(self.cell(x as int, y as int))
            } else {
                None::<Cell>
            }),
    {
        if x < self.width && y < self.height {
            let _len = self.grid.len();
            proof {
                lemma_row_major_bounds(x as int, y as int, self.width as int, self.height as int);
            }
            Some(self.grid[y * self.width + x])
        } else {
            None
        }
    }

    /// Writes the cell at `(x, y)`; out-of-range coordinates are silently
    /// ignored, never a panic.
    pub fn set(&mut self, x: usize, y: usize, cell: Cell)
        requires
            old(self).wf(),
        ensures
            final(self).wf(),
            final(self).same_dims(*old(self)),
            old(self).in_bounds(x as int, y as int) ==> final(self).grid@ == old(self).grid@.update(
                old(self).idx(x as int, y as int),
                cell,
            ),
            !old(self).in_bounds(x as int, y as int) ==> *final(self) == *old(self),
    {
        if x < self.width && y < self.height {
            let _len = self.grid.len();
            proof {
                lemma_row_major_bounds(x as int, y as int, self.width as int, self.height as int);
            }
            let i: usize = y * self.width + x;
            self.grid[i] = cell;
        }
    }

    /// The generator's candidate list at `(x, y)`: exactly those of the four
    /// cells two steps away along one axis - left, right, up, down, in that
    /// order - that are in bounds and still walls.
    pub open spec fn spec_neighbors(self, x: int, y: int) -> Seq<(usize, usize)> {
        (if x - 2 >= 0 && self.cell(x - 2, y) == Cell::Wall {
            seq![((x - 2) as usize, y as usize)]
        } else {
            Seq::<(usize, usize)>::empty()
        }) + (if x + 2 < self.width && self.cell(x + 2, y) == Cell::Wall {
            seq![((x + 2) as usize, y as usize)]
        } else {
            Seq::<(usize, usize)>::empty()
        }) + (if y - 2 >= 0 && self.cell(x, y - 2) == Cell::Wall {
            seq![(x as usize, (y - 2) as usize)]
        } else {
            Seq::<(usize, usize)>::empty()
        }) + (if y + 2 < self.height && self.cell(x, y + 2) == Cell::Wall {
            seq![(x as usize, (y + 2) as usize)]
        } else {
            Seq::<(usize, usize)>::empty()
        })
    }

    /// The unvisited chamber neighbors of `(x, y)`: exactly the cells two
    /// steps away along one axis that are in bounds and still walls, per
    /// `spec_neighbors`.
    fn get_neighbors(&self, x: usize, y: usize) -> (r: Vec<(usize, usize)>)
        requires
            self.wf(),
            self.in_bounds(x as int, y as int),
        ensures
            r@ == self.spec_neighbors(x as int, y as int),
            forall|i: int|
                0 <= i < r@.len() ==> {
                    let nx = #[trigger] r@[i].0 as int;
                    let ny = r@[i].1 as int;
                    self.in_bounds(nx, ny) && self.cell(nx, ny) == Cell::Wall && ((ny == y && (nx
                        == x + 2 || nx + 2 == x)) || (nx == x && (ny == y + 2 || ny + 2 == y)))
                },
    {
        let ghost gx = x as int;
        let ghost gy = y as int;
        let ghost c1 = (if gx - 2 >= 0 && self.cell(gx - 2, gy) == Cell::Wall {
            seq![((gx - 2) as usize, gy as usize)]
        } else {
            Seq::<(usize, usize)>::empty()
        });
        let ghost c2 = (if gx + 2 < self.width && self.cell(gx + 2, gy) == Cell::Wall {
            seq![((gx + 2) as usize, gy as usize)]
        } else {
            Seq::<(usize, usize)>::empty()
        });
        let ghost c3 = (if gy - 2 >= 0 && self.cell(gx, gy - 2) == Cell::Wall {
            seq![(gx as usize, (gy - 2) as usize)]
        } else {
            Seq::<(usize, usize)>::empty()
        });
        let ghost c4 = (if gy + 2 < self.height && self.cell(gx, gy + 2) == Cell::Wall {
            seq![(gx as usize, (gy + 2) as usize)]
        } else {
            Seq::<(usize, usize)>::empty()
        });
        let mut neighbors: Vec<(usize, usize)> = Vec::new();
        if x >= 2 {
            if let Some(c) = self.get(x - 2, y) {
                if c == Cell::Wall {
                    neighbors.push((x - 2, y));
                }
            }
        }
        proof {
            assert(neighbors@ =~= c1);
        }
        if self.width >= 2 && x < self.width - 2 {
            if let Some(c) = self.get(x + 2, y) {
                if c == Cell::Wall {
                    neighbors.push((x + 2, y));
                }
            }
        }
        proof {
            assert(neighbors@ =~= c1 + c2);
        }
        if y >= 2 {
            if let Some(c) = self.get(x, y - 2) {
                if c == Cell::Wall {
                    neighbors.push((x, y - 2));
                }
            }
        }
        proof {
            assert(neighbors@ =~= c1 + c2 + c3);
        }
        if self.height >= 2 && y < self.height - 2 {
            if let Some(c) = self.get(x, y + 2) {
                if c == Cell::Wall {
                    neighbors.push((x, y + 2));
                }
            }
        }
        proof {
            assert(neighbors@ =~= c1 + c2 + c3 + c4);
            assert(neighbors@ =~= self.spec_neighbors(x as int, y as int));
        }
        neighbors
    }

    /// Carves a maze by randomized recursive backtracking from the generator
    /// state that `seed` determines - the same seed recarves the same maze -
    /// then force-opens the entrance `(1, 0)` and the exit
    /// `(width - 2, height - 1)`.
    ///
    /// Cells only ever change to `Path`; the dimensions are untouched. On a
    /// grid as `new` hands it out - all walls, odd dimensions of at least
    /// five - every even/even chamber is carved and every open cell of the
    /// result is connected to the entrance, whatever the seed: the maze is
    /// fully explorable.
    pub fn generate_maze(&mut self, seed: u64)
        requires
            old(self).wf(),
            old(self).width >= 2,
            old(self).height >= 2,
        ensures
            final(self).wf(),
            final(self).same_dims(*old(self)),
            final(self).cell(1, 0) == Cell::Path,
            final(self).cell(final(self).width - 2, final(self).height - 1) == Cell::Path,
            forall|i: int|
                0 <= i < final(self).grid@.len() ==> #[trigger] final(self).grid@[i] == old(self).grid@[i]
                    || final(self).grid@[i] == Cell::Path,
            (exists|start: (int, int)|
                0 <= start.0 < final(self).width && 0 <= start.1 < final(self).height
                    && final(self).cell(start.0, start.1) == Cell::Path && (forall|cx: int, cy: int|
                    0 <= cx < final(self).width && 0 <= cy < final(self).height && final(self).cell(
                        cx,
                        cy,
                    ) != old(self).cell(cx, cy) && !(cx == 1 && cy == 0) && !(cx
                        == final(self).width - 2 && cy == final(self).height - 1)
                        ==> #[trigger] connected(
                        final(self).grid@,
                        final(self).width as int,
                        final(self).height as int,
                        start,
                        (cx, cy),
                    ))),
            old(self).fresh_for_carving() ==> (forall|x: int, y: int|
                0 <= x < final(self).width && 0 <= y < final(self).height && x % 2 == 0 && y % 2
                    == 0 ==> final(self).cell(x, y) == Cell::Path),
            old(self).fresh_for_carving() ==> (forall|x: int, y: int|
                0 <= x < final(self).width && 0 <= y < final(self).height && final(self).cell(x, y)
                    != Cell::Wall ==> connected(
                    final(self).grid@,
                    final(self).width as int,
                    final(self).height as int,
                    (1, 0),
                    (x, y),
                )),
    {
        let mut rng = rng_from_seed(seed);
        self.generate_with(&mut rng);
    }

    #[verifier::rlimit(100)]
    #[verifier::spinoff_prover]
    fn generate_with(&mut self, rng: &mut rand::rngs::StdRng)
        requires
            old(self).wf(),
            old(self).width >= 2,
            old(self).height >= 2,
        ensures
            final(self).wf(),
            final(self).same_dims(*old(self)),
            final(self).cell(1, 0) == Cell::Path,
            final(self).cell(final(self).width - 2, final(self).height - 1) == Cell::Path,
            forall|i: int|
                0 <= i < final(self).grid@.len() ==> #[trigger] final(self).grid@[i] == old(self).grid@[i]
                    || final(self).grid@[i] == Cell::Path,
            (exists|start: (int, int)|
                0 <= start.0 < final(self).width && 0 <= start.1 < final(self).height
                    && final(self).cell(start.0, start.1) == Cell::Path && (forall|cx: int, cy: int|
                    0 <= cx < final(self).width && 0 <= cy < final(self).height && final(self).cell(
                        cx,
                        cy,
                    ) != old(self).cell(cx, cy) && !(cx == 1 && cy == 0) && !(cx
                        == final(self).width - 2 && cy == final(self).height - 1)
                        ==> #[trigger] connected(
                        final(self).grid@,
                        final(self).width as int,
                        final(self).height as int,
                        start,
                        (cx, cy),
                    ))),
            old(self).fresh_for_carving() ==> (forall|x: int, y: int|
                0 <= x < final(self).width && 0 <= y < final(self).height && x % 2 == 0 && y % 2
                    == 0 ==> final(self).cell(x, y) == Cell::Path),
            old(self).fresh_for_carving() ==> (forall|x: int, y: int|
                0 <= x < final(self).width && 0 <= y < final(self).height && final(self).cell(x, y)
                    != Cell::Wall ==> connected(
                    final(self).grid@,
                    final(self).width as int,
                    final(self).height as int,
                    (1, 0),
                    (x, y),
                )),
    {
        let w = self.width;
        let h = self.height;
        // A random chamber start: both coordinates forced even by rounding
        // a sample of 1..width (resp. 1..height) down.
        let mut start_x = 1 + rand_below(rng, w - 1);
        let mut start_y = 1 + rand_below(rng, h - 1);
        start_x = start_x - start_x % 2;
        start_y = start_y - start_y % 2;

        proof {
            lemma_row_major_bounds(start_x as int, start_y as int, w as int, h as int);
        }
        self.set(start_x, start_y, Cell::Path);
        let ghost start = (start_x as int, start_y as int);
        proof {
            lemma_connected_refl(self.grid@, w as int, h as int, start);
            assert forall|cx: int, cy: int|
                0 <= cx < w && 0 <= cy < h && self.cell(cx, cy) != old(self).cell(
                    cx,
                    cy,
                ) implies #[trigger] connected(self.grid@, w as int, h as int, start, (cx, cy)) by {
                lemma_row_major_bounds(cx, cy, w as int, h as int);
                if cy * (w as int) + cx == start.1 * (w as int) + start.0 {
                    lemma_row_major_injective(cx, cy, start.0, start.1, w as int);
                }
            }
        }
        let mut open_cells: Vec<(usize, usize)> = Vec::new();
        open_cells.push((start_x, start_y));
        proof {
            if old(self).fresh_for_carving() {
                assert forall|px: int, py: int|
                    0 <= px < w && 0 <= py < h && px % 2 == 0 && py % 2 == 0 && self.cell(px, py)
                        == Cell::Path && !on_stack(open_cells@, px, py) implies #[trigger] chamber_closed(
                    self.grid@,
                    w as int,
                    h as int,
                    px,
                    py,
                ) by {
                    lemma_row_major_bounds(px, py, w as int, h as int);
                    if px == start.0 && py == start.1 {
                        assert(open_cells@[0] == ((px as usize), (py as usize)));
                        assert(on_stack(open_cells@, px, py));
                    } else {
                        if py * (w as int) + px == start.1 * (w as int) + start.0 {
                            lemma_row_major_injective(px, py, start.0, start.1, w as int);
                        }
                        assert(self.grid@[py * (w as int) + px] == Cell::Wall);
                        assert(false);
                    }
                }
            }
        }

        while open_cells.len() > 0
            invariant
                self.wf(),
                self.same_dims(*old(self)),
                w == self.width,
                h == self.height,
                w >= 2,
                h >= 2,
                0 <= start.0 < w,
                0 <= start.1 < h,
                old(self).grid@.len() == w as int * h as int,
                self.cell(start.0, start.1) == Cell::Path,
                forall|i: int|
                    0 <= i < self.grid@.len() ==> #[trigger] self.grid@[i] == old(self).grid@[i]
                        || self.grid@[i] == Cell::Path,
                start.0 % 2 == 0,
                start.1 % 2 == 0,
                forall|k: int|
                    0 <= k < open_cells@.len() ==> {
                        let e = #[trigger] open_cells@[k];
                        self.in_bounds(e.0 as int, e.1 as int) && e.0 % 2 == 0 && e.1 % 2 == 0
                            && connected(
                            self.grid@,
                            w as int,
                            h as int,
                            start,
                            (e.0 as int, e.1 as int),
                        )
                    },
                forall|cx: int, cy: int|
                    0 <= cx < w && 0 <= cy < h && self.cell(cx, cy) != old(self).cell(cx, cy)
                        ==> #[trigger] connected(self.grid@, w as int, h as int, start, (cx, cy)),
                old(self).fresh_for_carving() ==> (forall|px: int, py: int|
                    0 <= px < w && 0 <= py < h && px % 2 == 0 && py % 2 == 0 && self.cell(px, py)
                        == Cell::Path && !on_stack(open_cells@, px, py)
                        ==> #[trigger] chamber_closed(self.grid@, w as int, h as int, px, py)),
            decreases 2 * count_eq(self.grid@, Cell::Wall) + open_cells@.len(),
        {
            let ghost g_entry = self.grid@;
            let ghost stack_entry = open_cells@;
            let top = open_cells.pop().unwrap();
            let x = top.0;
            let y = top.1;
            let neighbors = self.get_neighbors(x, y);
            if neighbors.len() > 0 {
                let pick = rand_below(rng, neighbors.len());
                let chosen = neighbors[pick];
                let nx = chosen.0;
                let ny = chosen.1;
                open_cells.push((x, y));
                proof {
                    lemma_row_major_bounds(nx as int, ny as int, w as int, h as int);
                    lemma_count_eq_update(
                        self.grid@,
                        self.idx(nx as int, ny as int),
                        Cell::Path,
                        Cell::Wall,
                    );
                }
                self.set(nx, ny, Cell::Path);
                // The connector between the two chambers: the midpoint,
                // computed without overflow since it lies strictly between.
                let mx = if nx > x {
                    x + 1
                } else if nx < x {
                    x - 1
                } else {
                    x
                };
                let my = if ny > y {
                    y + 1
                } else if ny < y {
                    y - 1
                } else {
                    y
                };
                proof {
                    lemma_row_major_bounds(mx as int, my as int, w as int, h as int);
                    lemma_count_eq_update(
                        self.grid@,
                        self.idx(mx as int, my as int),
                        Cell::Path,
                        Cell::Wall,
                    );
                }
                self.set(mx, my, Cell::Path);
                open_cells.push((nx, ny));
                proof {
                    lemma_row_major_bounds(start.0, start.1, w as int, h as int);
                    assert(adjacent((x as int, y as int), (mx as int, my as int)));
                    assert(adjacent((mx as int, my as int), (nx as int, ny as int)));
                    assert(top == stack_entry.last());
                    assert(self.grid@ == g_entry.update(
                        ny as int * w as int + nx as int,
                        Cell::Path,
                    ).update(my as int * w as int + mx as int, Cell::Path));
                    lemma_carve_connectivity(
                        old(self).grid@,
                        g_entry,
                        self.grid@,
                        w as int,
                        h as int,
                        start,
                        stack_entry,
                        open_cells@,
                        x,
                        y,
                        mx,
                        my,
                        nx,
                        ny,
                    );
                    // the connector sits between two even coordinates, so
                    // exactly one of its own is odd
                    assert(mx as int % 2 == 1 || my as int % 2 == 1);
                    if old(self).fresh_for_carving() {
                        lemma_carve_closure(
                            g_entry,
                            self.grid@,
                            w as int,
                            h as int,
                            stack_entry,
                            open_cells@,
                            x,
                            y,
                            mx,
                            my,
                            nx,
                            ny,
                        );
                    }
                }
            } else {
                proof {
                    if old(self).fresh_for_carving() {
                        assert(self.spec_neighbors(x as int, y as int).len() == 0);
                        assert(!(x as int - 2 >= 0 && self.cell(x as int - 2, y as int)
                            == Cell::Wall));
                        assert(!(x as int + 2 < w && self.cell(x as int + 2, y as int)
                            == Cell::Wall));
                        assert(!(y as int - 2 >= 0 && self.cell(x as int, y as int - 2)
                            == Cell::Wall));
                        assert(!(y as int + 2 < h && self.cell(x as int, y as int + 2)
                            == Cell::Wall));
                        assert(chamber_closed(self.grid@, w as int, h as int, x as int, y as int));
                        lemma_pop_closure(
                            self.grid@,
                            w as int,
                            h as int,
                            stack_entry,
                            open_cells@,
                            x,
                            y,
                        );
                    }
                }
            }
        }

        let ghost g_loop = self.grid@;
        proof {
            if old(self).fresh_for_carving() {
                // the stack is empty, so every open chamber is closed
                assert forall|px: int, py: int|
                    0 <= px < w && 0 <= py < h && px % 2 == 0 && py % 2 == 0 && g_loop[py * (
                w as int) + px] == Cell::Path implies #[trigger] chamber_closed(
                    g_loop,
                    w as int,
                    h as int,
                    px,
                    py,
                ) by {
                    assert(!on_stack(open_cells@, px, py));
                }
            }
        }
        // Openings at the top and bottom, forced regardless of the carve.
        self.set(1, 0, Cell::Path);
        let ex = self.width - 2;
        let ey = self.height - 1;
        proof {
            lemma_row_major_bounds(1, 0, w as int, h as int);
            lemma_row_major_bounds(ex as int, ey as int, w as int, h as int);
            assert(ey as int * w as int >= w as int) by (nonlinear_arith)
                requires
                    ey >= 1,
                    w >= 2,
            ;
        }
        self.set(ex, ey, Cell::Path);
        proof {
            let gw = w as int;
            let gh = h as int;
            lemma_row_major_bounds(1, 0, gw, gh);
            lemma_row_major_bounds(ex as int, ey as int, gw, gh);
            assert(forall|j: int|
                0 <= j < g_loop.len() && g_loop[j] != Cell::Wall ==> #[trigger] self.grid@[j]
                    != Cell::Wall);
            assert forall|cx: int, cy: int|
                0 <= cx < gw && 0 <= cy < gh && self.cell(cx, cy) != old(self).cell(cx, cy) && !(cx
                    == 1 && cy == 0) && !(cx == gw - 2 && cy == gh - 1) implies #[trigger] connected(
                self.grid@,
                gw,
                gh,
                start,
                (cx, cy),
            ) by {
                lemma_row_major_bounds(cx, cy, gw, gh);
                if cy * gw + cx == 1 {
                    lemma_row_major_injective(cx, cy, 1, 0, gw);
                }
                if cy * gw + cx == ey as int * gw + ex as int {
                    lemma_row_major_injective(cx, cy, ex as int, ey as int, gw);
                }
                assert(self.grid@[cy * gw + cx] == g_loop[cy * gw + cx]);
                lemma_connected_mono(g_loop, self.grid@, gw, gh, start, (cx, cy));
            }
            assert(0 <= start.0 < gw && 0 <= start.1 < gh && self.cell(start.0, start.1)
                == Cell::Path);
            if old(self).fresh_for_carving() {
                assert(self.grid@ == g_loop.update(1, Cell::Path).update(
                    (gh - 1) * gw + (gw - 2),
                    Cell::Path,
                ));
                lemma_full_carve(old(self).grid@, g_loop, self.grid@, gw, gh, start);
            }
        }
    }

    /// One breadth-first-search step: if `(nx, ny)` is walkable and not yet
    /// visited, record `(fx, fy)` as its predecessor and put it on the
    /// frontier. Every visit trades one unvisited cell for one queue entry,
    /// which is what bounds the search.
    fn bfs_visit(
        &self,
        nx: usize,
        ny: usize,
        fx: usize,
        fy: usize,
        visited: &mut Vec<bool>,
        came_from: &mut Vec<Option<(usize, usize)>>,
        queue: &mut Vec<(usize, usize)>,
    )
        requires
            self.wf(),
            self.in_bounds(nx as int, ny as int),
            self.in_bounds(fx as int, fy as int),
            old(visited)@.len() == self.grid@.len(),
            old(came_from)@.len() == self.grid@.len(),
        ensures
            final(visited)@.len() == old(visited)@.len(),
            final(came_from)@.len() == old(came_from)@.len(),
            ({
                let t = self.idx(nx as int, ny as int);
                (final(visited)@ == old(visited)@ && final(came_from)@ == old(came_from)@
                    && final(queue)@ == old(queue)@) || (final(visited)@ == old(
                    visited,
                )@.update(t, true) && final(came_from)@ == old(came_from)@.update(
                    t,
                    Some((fx, fy)),
                ) && final(queue)@ == old(queue)@.push((nx, ny)) && self.grid@[t] != Cell::Wall
                    && old(visited)@[t] == false && 0 <= t < old(came_from)@.len())
            }),
            2 * count_eq(final(visited)@, false) + final(queue)@.len() <= 2 * count_eq(
                old(visited)@,
                false,
            ) + old(queue)@.len(),
            ({
                let s = spec_visit(
                    wall_mask(self.grid@),
                    self.width as int,
                    old(visited)@,
                    old(came_from)@,
                    old(queue)@,
                    nx as int,
                    ny as int,
                    fx as int,
                    fy as int,
                );
                final(visited)@ == s.0 && final(came_from)@ == s.1 && final(queue)@ == s.2
            }),
    {
        let _len = self.grid.len();
        proof {
            lemma_row_major_bounds(nx as int, ny as int, self.width as int, self.height as int);
            assert(wall_mask(self.grid@)[ny as int * self.width as int + nx as int] == (self.grid@[
                ny as int * self.width as int + nx as int] == Cell::Wall));
        }
        let t = ny * self.width + nx;
        if !visited[t] {
            match self.get(nx, ny) {
                Some(Cell::Path) | Some(Cell::Solution) => {
                    proof {
                        lemma_count_eq_update(visited@, t as int, true, false);
                    }
                    visited[t] = true;
                    came_from[t] = Some((fx, fy));
                    queue.push((nx, ny));
                }
                _ => {},
            }
        }
    }

    /// Finds the shortest route from the entrance `(1, 0)` to the exit
    /// `(width - 2, height - 1)` by breadth-first search over the walkable
    /// cells and upgrades the route's interior from `Path` to `Solution`.
    ///
    /// Cells only ever change from `Path` to `Solution`, and never the
    /// entrance or the exit themselves, so which cells are walls - and with
    /// it walkability - is untouched. When the exit is unreachable nothing
    /// is marked.
    ///
    /// The whole effect on the cells is pinned down as `spec_solve` of the
    /// previous cells, which depends on the grid only through its wall mask;
    /// `lemma_solve_idempotent` builds on that to show that solving twice
    /// yields the same cells as solving once.
    #[verifier::rlimit(60)]
    pub fn solve_maze(&mut self)
        requires
            old(self).wf(),
            old(self).width >= 2,
            old(self).height >= 1,
        ensures
            final(self).wf(),
            final(self).same_dims(*old(self)),
            forall|i: int|
                0 <= i < final(self).grid@.len() ==> #[trigger] final(self).grid@[i] == old(
                    self,
                ).grid@[i] || (old(self).grid@[i] == Cell::Path && final(self).grid@[i]
                    == Cell::Solution && i != old(self).idx(1, 0) && i != old(self).idx(
                    old(self).width - 2,
                    old(self).height - 1,
                )),
            forall|i: int|
                0 <= i < final(self).grid@.len() ==> ((#[trigger] final(self).grid@[i]
                    == Cell::Wall) <==> old(self).grid@[i] == Cell::Wall),
            final(self).grid@ == spec_solve(
                old(self).width as int,
                old(self).height as int,
                old(self).grid@,
            ),
    {
        let w = self.width;
        let h = self.height;
        let n = self.grid.len();
        let ex = w - 2;
        let ey = h - 1;

        let mut visited: Vec<bool> = Vec::new();
        let mut came_from: Vec<Option<(usize, usize)>> = Vec::new();
        let mut i: usize = 0;
        while i < n
            invariant
                i <= n,
                visited@.len() == i,
                came_from@.len() == i,
                forall|j: int| 0 <= j < i ==> came_from@[j] is None,
                forall|j: int| 0 <= j < i ==> visited@[j] == false,
            decreases n - i,
        {
            visited.push(false);
            came_from.push(None);
            i = i + 1;
        }

        proof {
            lemma_row_major_bounds(1, 0, w as int, h as int);
        }
        let mut queue: Vec<(usize, usize)> = Vec::new();
        queue.push((1, 0));
        // The entrance's linear index is 0 * width + 1.
        visited[1] = true;

        let ghost mask = wall_mask(self.grid@);
        let ghost v0 = visited@;
        let ghost c0 = came_from@;
        let ghost q0 = queue@;
        let ghost answer = spec_bfs(
            mask,
            w as int,
            h as int,
            ex as int,
            ey as int,
            v0,
            c0,
            q0,
            0,
        );

        let mut head: usize = 0;
        while head < queue.len()
            invariant_except_break
                spec_bfs(
                    mask,
                    w as int,
                    h as int,
                    ex as int,
                    ey as int,
                    visited@,
                    came_from@,
                    queue@,
                    head as int,
                ) == answer,
            invariant
                self.wf(),
                *self == *old(self),
                w == self.width,
                h == self.height,
                n == self.grid@.len(),
                w >= 2,
                h >= 1,
                ex == w - 2,
                ey == h - 1,
                visited@.len() == n,
                came_from@.len() == n,
                head <= queue@.len(),
                forall|k: int|
                    0 <= k < queue@.len() ==> self.in_bounds(
                        #[trigger] queue@[k].0 as int,
                        queue@[k].1 as int,
                    ),
                forall|j: int|
                    0 <= j < n ==> (#[trigger] came_from@[j] matches Some(p) ==> (self.in_bounds(
                        p.0 as int,
                        p.1 as int,
                    ) && self.grid@[j] != Cell::Wall)),
                mask == wall_mask(self.grid@),
            ensures
                came_from@ == answer,
                self.wf(),
                *self == *old(self),
                n == self.grid@.len(),
                came_from@.len() == n,
                forall|j: int|
                    0 <= j < n ==> (#[trigger] came_from@[j] matches Some(p) ==> (self.in_bounds(
                        p.0 as int,
                        p.1 as int,
                    ) && self.grid@[j] != Cell::Wall)),
            decreases 2 * count_eq(visited@, false) + (queue@.len() - head),
        {
            let ghost v_in = visited@;
            let ghost c_in = came_from@;
            let ghost q_in = queue@;
            let ghost h_in = head as int;
            let cur = queue[head];
            head = head + 1;
            let x = cur.0;
            let y = cur.1;
            if x == ex && y == ey {
                proof {
                    assert(spec_bfs(
                        mask,
                        w as int,
                        h as int,
                        ex as int,
                        ey as int,
                        v_in,
                        c_in,
                        q_in,
                        h_in,
                    ) == c_in);
                }
                break ;
            }
            // Probe the four axis neighbors: down, right, up, left.
            if y + 1 < h {
                self.bfs_visit(x, y + 1, x, y, &mut visited, &mut came_from, &mut queue);
            }
            proof {
                assert((visited@, came_from@, queue@) == (if y as int + 1 < h as int {
                    spec_visit(
                        mask,
                        w as int,
                        v_in,
                        c_in,
                        q_in,
                        x as int,
                        y as int + 1,
                        x as int,
                        y as int,
                    )
                } else {
                    (v_in, c_in, q_in)
                }));
            }
            let ghost s1 = (visited@, came_from@, queue@);
            if x + 1 < w {
                self.bfs_visit(x + 1, y, x, y, &mut visited, &mut came_from, &mut queue);
            }
            proof {
                assert((visited@, came_from@, queue@) == (if x as int + 1 < w as int {
                    spec_visit(
                        mask,
                        w as int,
                        s1.0,
                        s1.1,
                        s1.2,
                        x as int + 1,
                        y as int,
                        x as int,
                        y as int,
                    )
                } else {
                    s1
                }));
            }
            let ghost s2 = (visited@, came_from@, queue@);
            if y >= 1 {
                self.bfs_visit(x, y - 1, x, y, &mut visited, &mut came_from, &mut queue);
            }
            proof {
                assert((visited@, came_from@, queue@) == (if y as int >= 1 {
                    spec_visit(
                        mask,
                        w as int,
                        s2.0,
                        s2.1,
                        s2.2,
                        x as int,
                        y as int - 1,
                        x as int,
                        y as int,
                    )
                } else {
                    s2
                }));
            }
            let ghost s3 = (visited@, came_from@, queue@);
            if x >= 1 {
                self.bfs_visit(x - 1, y, x, y, &mut visited, &mut came_from, &mut queue);
            }
            proof {
                assert((visited@, came_from@, queue@) == (if x as int >= 1 {
                    spec_visit(
                        mask,
                        w as int,
                        s3.0,
                        s3.1,
                        s3.2,
                        x as int - 1,
                        y as int,
                        x as int,
                        y as int,
                    )
                } else {
                    s3
                }));
                assert((visited@, came_from@, queue@) == spec_bfs_step(
                    mask,
                    w as int,
                    h as int,
                    v_in,
                    c_in,
                    q_in,
                    h_in,
                ));
                assert(spec_bfs(
                    mask,
                    w as int,
                    h as int,
                    ex as int,
                    ey as int,
                    v_in,
                    c_in,
                    q_in,
                    h_in,
                ) == spec_bfs(
                    mask,
                    w as int,
                    h as int,
                    ex as int,
                    ey as int,
                    visited@,
                    came_from@,
                    queue@,
                    h_in + 1,
                ));
            }
        }

        // Walk the predecessor chain backward from the exit; every cell
        // strictly between the endpoints is upgraded to the overlay. The
        // chain visits distinct cells, so `n` steps always suffice; the
        // counter only makes that bound evident.
        let ghost parents = came_from@;
        let ghost walk_answer = spec_walk(
            parents,
            self.grid@,
            w as int,
            ex as int,
            ey as int,
            ex as int,
            ey as int,
            n as int,
        );
        let mut cx = ex;
        let mut cy = ey;
        let mut steps: usize = 0;
        while steps < n
            invariant
                self.wf(),
                self.same_dims(*old(self)),
                w == self.width,
                h == self.height,
                n == self.grid@.len(),
                w >= 2,
                h >= 1,
                ex == w - 2,
                ey == h - 1,
                came_from@.len() == n,
                cx < w,
                cy < h,
                forall|j: int|
                    0 <= j < n ==> (#[trigger] came_from@[j] matches Some(p) ==> (p.0 < w && p.1
                        < h && old(self).grid@[j] != Cell::Wall)),
                forall|i: int|
                    0 <= i < n ==> #[trigger] self.grid@[i] == old(self).grid@[i] || (old(
                        self,
                    ).grid@[i] == Cell::Path && self.grid@[i] == Cell::Solution && i != old(
                        self,
                    ).idx(1, 0) && i != old(self).idx(ex as int, ey as int)),
                came_from@ == parents,
                steps <= n,
                spec_walk(
                    parents,
                    self.grid@,
                    w as int,
                    ex as int,
                    ey as int,
                    cx as int,
                    cy as int,
                    n as int - steps as int,
                ) == walk_answer,
            ensures
                self.grid@ == walk_answer,
                self.wf(),
                self.same_dims(*old(self)),
                n == self.grid@.len(),
                forall|i: int|
                    0 <= i < n ==> #[trigger] self.grid@[i] == old(self).grid@[i] || (old(
                        self,
                    ).grid@[i] == Cell::Path && self.grid@[i] == Cell::Solution && i != old(
                        self,
                    ).idx(1, 0) && i != old(self).idx(ex as int, ey as int)),
            decreases n - steps,
        {
            let ghost g_in = self.grid@;
            let ghost cx_in = cx as int;
            let ghost cy_in = cy as int;
            let ghost fuel_in = n as int - steps as int;
            proof {
                lemma_row_major_bounds(cx as int, cy as int, w as int, h as int);
            }
            let ci = cy * w + cx;
            match came_from[ci] {
                None => {
                    proof {
                        assert(spec_walk(
                            parents,
                            g_in,
                            w as int,
                            ex as int,
                            ey as int,
                            cx_in,
                            cy_in,
                            fuel_in,
                        ) == g_in);
                    }
                    break ;
                },
                Some(prev) => {
                    if !(cx == ex && cy == ey) && !(cx == 1 && cy == 0) {
                        proof {
                            if ci as int == old(self).idx(1, 0) {
                                lemma_row_major_injective(cx as int, cy as int, 1, 0, w as int);
                            }
                            if ci as int == old(self).idx(ex as int, ey as int) {
                                lemma_row_major_injective(
                                    cx as int,
                                    cy as int,
                                    ex as int,
                                    ey as int,
                                    w as int,
                                );
                            }
                        }
                        self.set(cx, cy, Cell::Solution);
                    }
                    proof {
                        assert(spec_walk(
                            parents,
                            g_in,
                            w as int,
                            ex as int,
                            ey as int,
                            cx_in,
                            cy_in,
                            fuel_in,
                        ) == spec_walk(
                            parents,
                            self.grid@,
                            w as int,
                            ex as int,
                            ey as int,
                            prev.0 as int,
                            prev.1 as int,
                            fuel_in - 1,
                        ));
                    }
                    cx = prev.0;
                    cy = prev.1;
                    steps = steps + 1;
                },
            }
        }
        proof {
            assert(v0 =~= init_visited(n as int));
            assert(c0 =~= init_came(n as int));
            assert(q0 =~= seq![(1usize, 0usize)]);
            assert(self.grid@ == spec_solve(
                old(self).width as int,
                old(self).height as int,
                old(self).grid@,
            ));
        }
    }
}

} // verus!
