use vstd::prelude::*;
use vstd::arithmetic::div_mod::lemma_fundamental_div_mod_converse;
use vstd::set_lib::{lemma_int_range, lemma_len_subset, set_int_range};

verus! {

/// A grid cell, as (column, row).
pub type Cell = (usize, usize);

/// Position of cell `c` in the row-major cell array of a grid `w` cells wide.
pub open spec fn cell_index(w: int, c: Cell) -> int {
    c.1 * w + c.0
}

/// The cell stored at row-major position `i` of a grid `w` cells wide.
pub open spec fn cell_at(w: int, i: int) -> Cell {
    ((i % w) as usize, (i / w) as usize)
}

/// Two cells are 4-neighbours: they share a row or a column and lie one step apart.
pub open spec fn adjacent(a: Cell, b: Cell) -> bool {
    (a.1 == b.1 && (a.0 + 1 == b.0 || b.0 + 1 == a.0)) || (a.0 == b.0 && (a.1 + 1 == b.1 || b.1
        + 1 == a.1))
}

/// Two cells share a row or a column, so the segment between them is not diagonal.
pub open spec fn aligned(a: Cell, b: Cell) -> bool {
    a.0 == b.0 || a.1 == b.1
}

/// Whether two cells are the same cell.
pub fn same_cell(a: Cell, b: Cell) -> (r: bool)
    ensures
        r == (a == b),
{
    a.0 == b.0 && a.1 == b.1
}

/// Row-major positions determine cells: the cell at `c`'s position is `c`.
pub broadcast proof fn lemma_cell_index_inverse(w: int, c: Cell)
    requires
        w > 0,
        c.0 < w,
    ensures
        cell_at(w, #[trigger] cell_index(w, c)) == c,
{
    lemma_fundamental_div_mod_converse(cell_index(w, c), w, c.1 as int, c.0 as int);
}

proof fn lemma_cell_index_bound(w: int, h: int, c: Cell)
    requires
        0 <= c.0 < w,
        0 <= c.1 < h,
    ensures
        0 <= cell_index(w, c) < w * h,
{
    assert(0 <= c.1 * w + c.0 < w * h) by (nonlinear_arith)
        requires
            0 <= c.0 < w,
            0 <= c.1 < h,
    ;
}

/// The routing grid: `width` × `height` cells, each free or an obstacle.
/// `obstacles` holds the flags row by row.
#[derive(Debug)]
pub struct Grid {
    pub width: usize,
    pub height: usize,
    pub obstacles: Vec<bool>,
}

/// What a grid holds: its size in cells and, row by row, which cells are obstacles.
pub struct GridView {
    pub width: int,
    pub height: int,
    pub cells: Seq<bool>,
}

impl GridView {
    pub open spec fn contains(self, c: Cell) -> bool {
        c.0 < self.width && c.1 < self.height
    }

    pub open spec fn blocked(self, c: Cell) -> bool {
        self.cells[cell_index(self.width, c)]
    }

    pub open spec fn free(self, c: Cell) -> bool {
        self.contains(c) && !self.blocked(c)
    }

    /// The same grid with cell `c` marked as an obstacle (`b`) or as free.
    pub open spec fn with_cell(self, c: Cell, b: bool) -> GridView {
        GridView { cells: self.cells.update(cell_index(self.width, c), b), ..self }
    }

    /// A route through the grid: cells inside it, each a 4-neighbour of the next,
    /// and none but the first an obstacle.
    pub open spec fn is_path(self, p: Seq<Cell>) -> bool {
        &&& p.len() >= 1
        &&& forall|i: int| 0 <= i < p.len() ==> self.contains(#[trigger] p[i])
        &&& forall|i: int| 1 <= i < p.len() ==> !self.blocked(#[trigger] p[i])
        &&& forall|i: int| 0 <= i < p.len() - 1 ==> adjacent(#[trigger] p[i], p[i + 1])
    }

    pub open spec fn reachable(self, a: Cell, b: Cell) -> bool {
        exists|p: Seq<Cell>| #[trigger] self.is_path(p) && p[0] == a && p.last() == b
    }
}

impl View for Grid {
    type V = GridView;

    open spec fn view(&self) -> GridView {
        GridView { width: self.width as int, height: self.height as int, cells: self.obstacles@ }
    }
}

impl Grid {
    pub open spec fn wf(&self) -> bool {
        &&& self.width >= 1
        &&& self.height >= 1
        &&& self.width * self.height <= usize::MAX
        &&& self.obstacles@.len() == self.width * self.height
    }

    pub open spec fn contains(&self, c: Cell) -> bool {
        self@.contains(c)
    }

    pub open spec fn idx(&self, c: Cell) -> int {
        cell_index(self.width as int, c)
    }

    pub open spec fn blocked(&self, c: Cell) -> bool {
        self@.blocked(c)
    }

    pub open spec fn free(&self, c: Cell) -> bool {
        self@.free(c)
    }

    pub open spec fn is_path(&self, p: Seq<Cell>) -> bool {
        self@.is_path(p)
    }

    pub open spec fn reachable(&self, a: Cell, b: Cell) -> bool {
        self@.reachable(a, b)
    }

    /// `[c]` when `ok` holds and `c` is free, else nothing.
    pub open spec fn step_to(&self, ok: bool, c: Cell) -> Seq<Cell> {
        if ok && !self.blocked(c) {
            seq![c]
        } else {
            seq![]
        }
    }

    /// The free 4-neighbours of `c`, in the order left, right, up, down.
    pub open spec fn neighbor_cells(&self, c: Cell) -> Seq<Cell> {
        self.step_to(c.0 > 0, ((c.0 - 1) as usize, c.1)) + self.step_to(
            c.0 + 1 < self.width,
            ((c.0 + 1) as usize, c.1),
        ) + self.step_to(c.1 > 0, (c.0, (c.1 - 1) as usize)) + self.step_to(
            c.1 + 1 < self.height,
            (c.0, (c.1 + 1) as usize),
        )
    }

    /// A grid of `width` × `height` cells, all free.
    pub fn new(width: usize, height: usize) -> (g: Grid)
        requires
            width >= 1,
            height >= 1,
            width * height <= usize::MAX,
        ensures
            g.wf(),
            g.width == width,
            g.height == height,
            forall|c: Cell| g.contains(c) ==> !g.blocked(c),
    {
        let n = width * height;
        let mut obstacles: Vec<bool> = Vec::new();
        while obstacles.len() < n
            invariant
                obstacles.len() <= n,
                forall|i: int| 0 <= i < obstacles.len() ==> !obstacles@[i],
            decreases n - obstacles.len(),
        {
            obstacles.push(false);
        }
        let g = Grid { width, height, obstacles };
        assert forall|c: Cell| g.contains(c) implies !g.blocked(c) by {
            lemma_cell_index_bound(width as int, height as int, c);
        }
        g
    }

    /// Row-major position of an in-grid cell.
    pub fn index(&self, c: Cell) -> (i: usize)
        requires
            self.wf(),
            self.contains(c),
        ensures
            i == cell_index(self.width as int, c),
            i < self.obstacles@.len(),
    {
        proof {
            lemma_cell_index_bound(self.width as int, self.height as int, c);
            assert(c.1 * self.width <= c.1 * self.width + c.0);
        }
        c.1 * self.width + c.0
    }

    pub fn is_obstacle(&self, c: Cell) -> (r: bool)
        requires
            self.wf(),
            self.contains(c),
        ensures
            r == self.blocked(c),
    {
        let i = self.index(c);
        self.obstacles[i]
    }

    /// Marks cell `c` as an obstacle (`blocked`) or as free.
    pub fn set_obstacle(&mut self, c: Cell, blocked: bool)
        requires
            old(self).wf(),
            old(self).contains(c),
        ensures
            final(self).wf(),
            final(self).width == old(self).width,
            final(self).height == old(self).height,
            final(self).blocked(c) == blocked,
            final(self)@ == old(self)@.with_cell(c, blocked),
            forall|d: Cell|
                final(self).contains(d) && d != c ==> final(self).blocked(d) == old(self).blocked(d),
    {
        let i = self.index(c);
        self.obstacles.set(i, blocked);
        proof {
            assert(self@.cells =~= old(self)@.with_cell(c, blocked).cells);
            broadcast use lemma_cell_index_inverse;

            assert forall|d: Cell| self.contains(d) && d != c implies self.blocked(d) == old(
                self,
            ).blocked(d) by {
                lemma_cell_index_bound(self.width as int, self.height as int, d);
                assert(cell_at(self.width as int, cell_index(self.width as int, d)) == d);
                assert(cell_at(self.width as int, cell_index(self.width as int, c)) == c);
            }
        }
    }

    /// Marks as obstacles the cells with column in `[x1, x2)` and row in `[y1, y2)`;
    /// the part of the rectangle outside the grid is ignored.
    pub fn block_rect(&mut self, x1: usize, y1: usize, x2: usize, y2: usize)
        requires
            old(self).wf(),
        ensures
            final(self).wf(),
            final(self).width == old(self).width,
            final(self).height == old(self).height,
            forall|d: Cell|
                final(self).contains(d) ==> (final(self).blocked(d) == (old(self).blocked(d) || (x1
                    <= d.0 < x2 && y1 <= d.1 < y2))),
    {
        let xe = if x2 < self.width {
            x2
        } else {
            self.width
        };
        let ye = if y2 < self.height {
            y2
        } else {
            self.height
        };
        let mut y = y1;
        while y < ye
            invariant
                self.wf(),
                self.width == old(self).width,
                self.height == old(self).height,
                xe <= self.width,
                ye <= self.height,
                xe == x2 || xe == self.width,
                ye == y2 || ye == self.height,
                xe <= x2,
                ye <= y2,
                y1 <= ye ==> y1 <= y <= ye,
                y1 > ye ==> y == y1,
                forall|d: Cell|
                    self.contains(d) ==> (self.blocked(d) == (old(self).blocked(d) || (x1 <= d.0 < x2 && y1
                        <= d.1 < y && d.1 < y2))),
            decreases ye - y,
        {
            let mut x = x1;
            while x < xe
                invariant
                    self.wf(),
                    self.width == old(self).width,
                    self.height == old(self).height,
                    xe <= self.width,
                    ye <= self.height,
                    xe == x2 || xe == self.width,
                    ye == y2 || ye == self.height,
                    xe <= x2,
                    ye <= y2,
                    y1 <= y < ye,
                    x1 <= xe ==> x1 <= x <= xe,
                    x1 > xe ==> x == x1,
                    forall|d: Cell|
                        self.contains(d) ==> (self.blocked(d) == (old(self).blocked(d) || (x1 <= d.0 < x2
                            && y1 <= d.1 < y && d.1 < y2) || (d.1 == y && x1 <= d.0 < x))),
                decreases xe - x,
            {
                self.set_obstacle((x, y), true);
                x = x + 1;
            }
            assert forall|d: Cell| self.contains(d) implies (self.blocked(d) == (old(self).blocked(d)
                || (x1 <= d.0 < x2 && y1 <= d.1 < y + 1 && d.1 < y2))) by {
                if d.1 == y && x1 <= d.0 < x2 {
                    assert(d.0 < xe);
                }
            }
            y = y + 1;
        }
    }

    /// The free 4-neighbours of `c` (left, right, up, down).
    pub fn neighbors(&self, c: Cell) -> (r: Vec<Cell>)
        requires
            self.wf(),
            self.contains(c),
        ensures
            r@ == self.neighbor_cells(c),
            forall|i: int| 0 <= i < r@.len() ==> adjacent(c, #[trigger] r@[i]) && self.free(r@[i]),
            forall|d: Cell| adjacent(c, d) && self.free(d) ==> r@.contains(d),
    {
        let (x, y) = c;
        let mut r: Vec<Cell> = Vec::new();
        if x > 0 && !self.is_obstacle((x - 1, y)) {
            r.push((x - 1, y));
        }
        let ghost r0 = r@;
        if x + 1 < self.width && !self.is_obstacle((x + 1, y)) {
            r.push((x + 1, y));
        }
        let ghost r1 = r@;
        if y > 0 && !self.is_obstacle((x, y - 1)) {
            r.push((x, y - 1));
        }
        let ghost r2 = r@;
        if y + 1 < self.height && !self.is_obstacle((x, y + 1)) {
            r.push((x, y + 1));
        }
        proof {
            assert(r0 == self.step_to(c.0 > 0, ((c.0 - 1) as usize, c.1)));
            assert(r1 =~= r0 + self.step_to(c.0 + 1 < self.width, ((c.0 + 1) as usize, c.1)));
            assert(r2 =~= r1 + self.step_to(c.1 > 0, (c.0, (c.1 - 1) as usize)));
            assert(r@ =~= r2 + self.step_to(c.1 + 1 < self.height, (c.0, (c.1 + 1) as usize)));
            assert forall|d: Cell| adjacent(c, d) && self.free(d) implies r@.contains(d) by {
                if d.1 == y && d.0 + 1 == x {
                    assert(r@[0] == d);
                } else if d.1 == y && x + 1 == d.0 {
                    assert(r@[r0.len() as int] == d);
                } else if d.0 == x && d.1 + 1 == y {
                    assert(r@[r1.len() as int] == d);
                } else {
                    assert(r@[r2.len() as int] == d);
                }
            }
        }
        r
    }

    /// Every queued cell is in the grid and marked seen, at its recorded queue
    /// position; every seen cell sits in the queue at that position.
    spec fn queue_ok(&self, seen: Seq<bool>, pos: Seq<int>, queue: Seq<Cell>) -> bool {
        &&& forall|k: int|
            0 <= k < queue.len() ==> self.contains(#[trigger] queue[k]) && seen[self.idx(queue[k])]
                && pos[self.idx(queue[k])] == k
        &&& forall|c: Cell|
            self.contains(c) && #[trigger] seen[self.idx(c)] ==> 0 <= pos[self.idx(c)] < queue.len()
                && queue[pos[self.idx(c)]] == c
    }

    /// Every seen cell but `start` is free and was reached, one step further, from
    /// a seen 4-neighbour that was queued before it.
    spec fn parents_ok(
        &self,
        start: Cell,
        seen: Seq<bool>,
        parent: Seq<Cell>,
        pos: Seq<int>,
        dist: Seq<int>,
    ) -> bool {
        forall|c: Cell|
            self.contains(c) && c != start && #[trigger] seen[self.idx(c)] ==> {
                let p = parent[self.idx(c)];
                &&& self.contains(p)
                &&& seen[self.idx(p)]
                &&& adjacent(p, c)
                &&& !self.blocked(c)
                &&& pos[self.idx(p)] < pos[self.idx(c)]
                &&& dist[self.idx(c)] == dist[self.idx(p)] + 1
            }
    }

    /// Queued cells come in order of their step counts.
    spec fn layered(&self, dist: Seq<int>, queue: Seq<Cell>) -> bool {
        forall|k1: int, k2: int|
            0 <= k1 <= k2 < queue.len() ==> dist[self.idx(#[trigger] queue[k1])] <= dist[self.idx(
                #[trigger] queue[k2],
            )]
    }

    /// The free 4-neighbours of the first `head` queued cells are all seen, at most
    /// one step further than the queued cell.
    spec fn closed_upto(&self, seen: Seq<bool>, dist: Seq<int>, queue: Seq<Cell>, head: int) -> bool {
        forall|k: int, d: Cell|
            0 <= k < head && #[trigger] adjacent(queue[k], d) && self.free(d) ==> seen[self.idx(d)]
                && dist[self.idx(d)] <= dist[self.idx(queue[k])] + 1
    }

    proof fn lemma_closed_path(
        &self,
        seen: Seq<bool>,
        pos: Seq<int>,
        dist: Seq<int>,
        queue: Seq<Cell>,
        p: Seq<Cell>,
        i: int,
    )
        requires
            self.wf(),
            seen.len() == self.obstacles@.len(),
            self.queue_ok(seen, pos, queue),
            self.closed_upto(seen, dist, queue, queue.len() as int),
            self.is_path(p),
            seen[self.idx(p[0])],
            0 <= i < p.len(),
        ensures
            seen[self.idx(p[i])],
        decreases i,
    {
        if i > 0 {
            self.lemma_closed_path(seen, pos, dist, queue, p, i - 1);
            let c = p[i - 1];
            assert(self.contains(c));
            let k = pos[self.idx(c)];
            assert(queue[k] == c);
            assert(adjacent(queue[k], p[i]));
            assert(self.contains(p[i]));
        }
    }

    /// Along any route from `start`, the `i`-th cell is seen within `i` steps, as
    /// long as `i` is below every step count from queue position `h` on.
    proof fn lemma_short_path(
        &self,
        seen: Seq<bool>,
        pos: Seq<int>,
        dist: Seq<int>,
        queue: Seq<Cell>,
        h: int,
        bound: int,
        p: Seq<Cell>,
        i: int,
    )
        requires
            self.wf(),
            seen.len() == self.obstacles@.len(),
            self.queue_ok(seen, pos, queue),
            0 <= h <= queue.len(),
            self.closed_upto(seen, dist, queue, h),
            forall|k: int| h <= k < queue.len() ==> dist[self.idx(#[trigger] queue[k])] >= bound,
            self.is_path(p),
            seen[self.idx(p[0])],
            dist[self.idx(p[0])] == 0,
            0 <= i < p.len(),
            i < bound,
        ensures
            seen[self.idx(p[i])],
            dist[self.idx(p[i])] <= i,
        decreases i,
    {
        if i > 0 {
            self.lemma_short_path(seen, pos, dist, queue, h, bound, p, i - 1);
            let c = p[i - 1];
            assert(self.contains(c));
            let k = pos[self.idx(c)];
            assert(queue[k] == c);
            if k >= h {
                assert(dist[self.idx(queue[k])] >= bound);
            }
            assert(adjacent(queue[k], p[i]));
            assert(self.contains(p[i]));
        }
    }

    proof fn lemma_queue_bound(&self, vis: Set<int>, n: int)
        requires
            vis.finite(),
            forall|i: int| vis.contains(i) ==> 0 <= i < n,
            0 <= n,
        ensures
            vis.len() <= n,
    {
        lemma_int_range(0, n);
        assert(vis.subset_of(set_int_range(0, n)));
        lemma_len_subset(vis, set_int_range(0, n));
    }

    /// A route from `start` to `end` by breadth-first search over free cells,
    /// following 4-neighbour steps; no route between them is shorter. When the two
    /// cells coincide, or when no route exists, the result is the direct pair
    /// `[start, end]`.
    pub fn find_path(&self, start: Cell, end: Cell) -> (r: Vec<Cell>)
        requires
            self.wf(),
            self.contains(start),
            self.contains(end),
        ensures
            r@.len() >= 2,
            r@[0] == start,
            r@.last() == end,
            start == end ==> r@ == seq![start, end],
            start != end && self.reachable(start, end) ==> self.is_path(r@),
            start != end ==> forall|p: Seq<Cell>|
                #[trigger] self@.is_path(p) && p[0] == start && p.last() == end ==> r@.len()
                    <= p.len(),
            !self.reachable(start, end) ==> r@ == seq![start, end],
    {
        if same_cell(start, end) {
            return vec![start, end];
        }
        let mut s = Search::begin(self, start);
        let mut head: usize = 0;
        let mut found = false;
        while !found && head < s.queue.len()
            invariant
                s.inv(*self, start),
                self.contains(end),
                start != end,
                head <= s.queue@.len(),
                found ==> head >= 1 && s.queue@[head - 1] == end,
                found ==> self.closed_upto(s.seen@, s.dist@, s.queue@, head - 1),
                !found ==> forall|k: int| 0 <= k < head ==> s.queue@[k] != end,
                !found ==> self.closed_upto(s.seen@, s.dist@, s.queue@, head as int),
                !found && head < s.queue@.len() ==> forall|k: int|
                    0 <= k < s.queue@.len() ==> s.dist@[self.idx(#[trigger] s.queue@[k])]
                        <= s.dist@[self.idx(s.queue@[head as int])] + 1,
            decreases self.obstacles@.len() - head,
        {
            proof {
                s.lemma_inv_facts(*self, start);
            }
            let cur = s.queue[head];
            head = head + 1;
            if same_cell(cur, end) {
                found = true;
            } else {
                let ghost s0 = s;
                s.expand(self, start, cur);
                proof {
                    s.lemma_inv_facts(*self, start);
                    s0.lemma_inv_facts(*self, start);
                    s.lemma_grows_closed(s0, *self, head - 1);
                    assert(s.queue@[head - 1] == cur);
                    lemma_cell_index_bound(self.width as int, self.height as int, cur);
                    assert(s0.seen@[self.idx(cur)]);
                    assert(s.dist@[self.idx(cur)] == s0.dist@[self.idx(cur)]);
                    assert forall|k: int, d: Cell|
                        0 <= k < head && #[trigger] adjacent(s.queue@[k], d) && self.free(
                            d,
                        ) implies s.seen@[self.idx(d)] && s.dist@[self.idx(d)] <= s.dist@[self.idx(
                        s.queue@[k],
                    )] + 1 by {
                        if k == head - 1 {
                            assert(adjacent(cur, d));
                        }
                    }
                    assert forall|k: int| 0 <= k < head implies s.queue@[k] != end by {
                        if k < head - 1 {
                            assert(s.queue@[k] == s0.queue@[k]);
                        }
                    }
                    if head < s.queue@.len() {
                        let nxt = s.queue@[head as int];
                        assert(s.dist@[self.idx(s.queue@[head - 1])] <= s.dist@[self.idx(nxt)]);
                    }
                }
            }
        }
        proof {
            s.lemma_inv_facts(*self, start);
        }
        if !found {
            proof {
                assert forall|p: Seq<Cell>| #[trigger]
                    self@.is_path(p) && p[0] == start implies p.last() != end by {
                    assert(s.seen@[self.idx(start)]);
                    self.lemma_closed_path(s.seen@, s.pos@, s.dist@, s.queue@, p, p.len() - 1);
                    lemma_cell_index_bound(self.width as int, self.height as int, end);
                    if p.last() == end {
                        let k = s.pos@[self.idx(end)];
                        assert(s.queue@[k] == end);
                    }
                }
            }
            return vec![start, end];
        }
        let r = s.trace_back(self, start, end);
        proof {
            let bound = s.dist@[self.idx(end)];
            assert forall|k: int| head - 1 <= k < s.queue@.len() implies s.dist@[self.idx(
                #[trigger] s.queue@[k],
            )] >= bound by {
                assert(s.dist@[self.idx(s.queue@[head - 1])] <= s.dist@[self.idx(s.queue@[k])]);
            }
            assert forall|p: Seq<Cell>| #[trigger]
                self@.is_path(p) && p[0] == start && p.last() == end implies r@.len()
                <= p.len() by {
                assert(s.seen@[self.idx(start)]);
                if p.len() - 1 < bound {
                    self.lemma_short_path(
                        s.seen@,
                        s.pos@,
                        s.dist@,
                        s.queue@,
                        head - 1,
                        bound,
                        p,
                        p.len() - 1,
                    );
                }
            }
        }
        r
    }
}

/// The bookkeeping of a breadth-first search: which cells were reached, the
/// cell each was reached from, the queue of reached cells in order, and, for the
/// proof, each reached cell's queue position and step count from the start.
struct Search {
    seen: Vec<bool>,
    parent: Vec<Cell>,
    queue: Vec<Cell>,
    pos: Ghost<Seq<int>>,
    dist: Ghost<Seq<int>>,
    vis: Ghost<Set<int>>,
}

impl Search {
    #[verifier::opaque]
    spec fn inv(&self, g: Grid, start: Cell) -> bool {
        let n = g.obstacles@.len();
        &&& g.wf()
        &&& g.contains(start)
        &&& self.seen@.len() == n
        &&& self.parent@.len() == n
        &&& self.pos@.len() == n
        &&& self.dist@.len() == n
        &&& 1 <= self.queue@.len() <= n
        &&& self.queue@[0] == start
        &&& self.dist@[g.idx(start)] == 0
        &&& self.vis@.finite()
        &&& self.vis@.len() == self.queue@.len()
        &&& forall|i: int| self.vis@.contains(i) <==> 0 <= i < n && self.seen@[i]
        &&& g.queue_ok(self.seen@, self.pos@, self.queue@)
        &&& g.parents_ok(start, self.seen@, self.parent@, self.pos@, self.dist@)
        &&& g.layered(self.dist@, self.queue@)
    }

    proof fn lemma_inv_facts(&self, g: Grid, start: Cell)
        requires
            self.inv(g, start),
        ensures
            g.wf(),
            g.contains(start),
            self.seen@.len() == g.obstacles@.len(),
            self.dist@.len() == g.obstacles@.len(),
            1 <= self.queue@.len() <= g.obstacles@.len(),
            self.queue@[0] == start,
            self.dist@[g.idx(start)] == 0,
            g.queue_ok(self.seen@, self.pos@, self.queue@),
            g.layered(self.dist@, self.queue@),
    {
        reveal(Search::inv);
    }

    /// `self` extends `prev`: the queue only grew at its end, no cell was unseen,
    /// and no seen cell's step count changed.
    spec fn grows_from(&self, prev: Search) -> bool {
        &&& prev.queue@.len() <= self.queue@.len()
        &&& forall|k: int| 0 <= k < prev.queue@.len() ==> self.queue@[k] == prev.queue@[k]
        &&& self.seen@.len() == prev.seen@.len()
        &&& forall|i: int| 0 <= i < prev.seen@.len() && prev.seen@[i] ==> self.seen@[i]
        &&& forall|i: int|
            0 <= i < prev.seen@.len() && prev.seen@[i] ==> self.dist@[i] == prev.dist@[i]
    }

    proof fn lemma_grows_trans(&self, mid: Search, first: Search)
        requires
            self.grows_from(mid),
            mid.grows_from(first),
        ensures
            self.grows_from(first),
    {
    }

    proof fn lemma_grows_closed(&self, prev: Search, g: Grid, head: int)
        requires
            self.grows_from(prev),
            0 <= head <= prev.queue@.len(),
            g.wf(),
            prev.seen@.len() == g.obstacles@.len(),
            g.queue_ok(prev.seen@, prev.pos@, prev.queue@),
            g.closed_upto(prev.seen@, prev.dist@, prev.queue@, head),
        ensures
            g.closed_upto(self.seen@, self.dist@, self.queue@, head),
    {
        assert forall|k: int, d: Cell|
            0 <= k < head && #[trigger] adjacent(self.queue@[k], d) && g.free(d) implies self.seen@[g.idx(
            d)] && self.dist@[g.idx(d)] <= self.dist@[g.idx(self.queue@[k])] + 1 by {
            assert(self.queue@[k] == prev.queue@[k]);
            lemma_cell_index_bound(g.width as int, g.height as int, d);
            lemma_cell_index_bound(g.width as int, g.height as int, prev.queue@[k]);
        }
    }

    /// A search that has reached `start` only.
    fn begin(g: &Grid, start: Cell) -> (s: Search)
        requires
            g.wf(),
            g.contains(start),
        ensures
            s.inv(*g, start),
            s.queue@.len() == 1,
    {
        reveal(Search::inv);
        let n = g.obstacles.len();
        let mut seen: Vec<bool> = Vec::new();
        let mut parent: Vec<Cell> = Vec::new();
        while seen.len() < n
            invariant
                seen@.len() == parent@.len(),
                seen@.len() <= n,
                forall|i: int| 0 <= i < seen@.len() ==> !seen@[i],
            decreases n - seen.len(),
        {
            seen.push(false);
            parent.push((0, 0));
        }
        let si = g.index(start);
        seen.set(si, true);
        let s = Search {
            seen,
            parent,
            queue: vec![start],
            pos: Ghost(Seq::new(n as nat, |i: int| 0)),
            dist: Ghost(Seq::new(n as nat, |i: int| 0)),
            vis: Ghost(Set::empty().insert(si as int)),
        };
        proof {
            broadcast use lemma_cell_index_inverse;

            assert forall|c: Cell| g.contains(c) && #[trigger] s.seen@[g.idx(c)] implies c
                == start by {
                lemma_cell_index_bound(g.width as int, g.height as int, c);
                if g.idx(c) != si as int {
                    assert(!s.seen@[g.idx(c)]);
                }
            }
            assert(g.queue_ok(s.seen@, s.pos@, s.queue@));
            assert(s.vis@ =~= Set::empty().insert(si as int));
        }
        s
    }

    proof fn lemma_visit_new(prev: Search, next: Search, g: Grid, start: Cell, cur: Cell, nb: Cell)
        requires
            prev.inv(g, start),
            g.contains(cur),
            prev.seen@[g.idx(cur)],
            adjacent(cur, nb),
            g.free(nb),
            !prev.seen@[g.idx(nb)],
            forall|k: int|
                0 <= k < prev.queue@.len() ==> prev.dist@[g.idx(#[trigger] prev.queue@[k])]
                    <= prev.dist@[g.idx(cur)] + 1,
            prev.vis@.len() + 1 <= g.obstacles@.len(),
            next.seen@ == prev.seen@.update(g.idx(nb), true),
            next.parent@ == prev.parent@.update(g.idx(nb), cur),
            next.pos@ == prev.pos@.update(g.idx(nb), prev.queue@.len() as int),
            next.dist@ == prev.dist@.update(g.idx(nb), prev.dist@[g.idx(cur)] + 1),
            next.vis@ == prev.vis@.insert(g.idx(nb)),
            next.queue@ == prev.queue@.push(nb),
        ensures
            next.inv(g, start),
            next.grows_from(prev),
            next.seen@[g.idx(nb)],
            next.dist@[g.idx(nb)] <= prev.dist@[g.idx(cur)] + 1,
            forall|k: int|
                0 <= k < next.queue@.len() ==> next.dist@[g.idx(#[trigger] next.queue@[k])]
                    <= prev.dist@[g.idx(cur)] + 1,
    {
        reveal(Search::inv);
        broadcast use lemma_cell_index_inverse;

        lemma_cell_index_bound(g.width as int, g.height as int, cur);
        lemma_cell_index_bound(g.width as int, g.height as int, nb);
        let seen = next.seen@;
        let pos = next.pos@;
        let dist = next.dist@;
        let queue = next.queue@;
        let dc = prev.dist@[g.idx(cur)];
        assert forall|k: int| 0 <= k < queue.len() implies g.contains(#[trigger] queue[k])
            && seen[g.idx(queue[k])] && pos[g.idx(queue[k])] == k && (k < prev.queue@.len()
            ==> dist[g.idx(queue[k])] == prev.dist@[g.idx(prev.queue@[k])]) by {
            if k < prev.queue@.len() {
                assert(prev.queue@[k] == queue[k]);
                lemma_cell_index_bound(g.width as int, g.height as int, queue[k]);
            }
        }
        assert forall|c: Cell| g.contains(c) && #[trigger] seen[g.idx(c)] implies 0 <= pos[g.idx(c)]
            < queue.len() && queue[pos[g.idx(c)]] == c by {
            lemma_cell_index_bound(g.width as int, g.height as int, c);
            if c != nb {
                assert(prev.seen@[g.idx(c)]);
            }
        }
        assert(g.queue_ok(seen, pos, queue));
        assert forall|c: Cell| g.contains(c) && c != start && #[trigger] seen[g.idx(c)] implies ({
            let p = next.parent@[g.idx(c)];
            &&& g.contains(p)
            &&& seen[g.idx(p)]
            &&& adjacent(p, c)
            &&& !g.blocked(c)
            &&& pos[g.idx(p)] < pos[g.idx(c)]
            &&& dist[g.idx(c)] == dist[g.idx(p)] + 1
        }) by {
            lemma_cell_index_bound(g.width as int, g.height as int, c);
            if c != nb {
                assert(prev.seen@[g.idx(c)]);
                let p = prev.parent@[g.idx(c)];
                lemma_cell_index_bound(g.width as int, g.height as int, p);
                assert(prev.seen@[g.idx(p)]);
            }
        }
        assert(g.parents_ok(start, seen, next.parent@, pos, dist));
        assert forall|k: int| 0 <= k < queue.len() implies dist[g.idx(#[trigger] queue[k])] <= dc
            + 1 by {
            if k < prev.queue@.len() {
                assert(prev.dist@[g.idx(prev.queue@[k])] <= dc + 1);
            }
        }
        assert forall|k1: int, k2: int|
            0 <= k1 <= k2 < queue.len() implies dist[g.idx(#[trigger] queue[k1])] <= dist[g.idx(
            #[trigger] queue[k2],
        )] by {
            if k2 < prev.queue@.len() {
                assert(prev.dist@[g.idx(prev.queue@[k1])] <= prev.dist@[g.idx(prev.queue@[k2])]);
            } else if k1 < prev.queue@.len() {
                assert(prev.dist@[g.idx(prev.queue@[k1])] <= dc + 1);
            }
        }
        assert(g.layered(dist, queue));
        assert(dist[g.idx(start)] == 0) by {
            lemma_cell_index_bound(g.width as int, g.height as int, start);
            assert(prev.queue@[0] == start);
            assert(prev.seen@[g.idx(prev.queue@[0])]);
            assert(g.idx(nb) != g.idx(start));
        }
    }

    /// Records that `nb`, a free 4-neighbour of the reached cell `cur`, is reached,
    /// one step further than `cur`, and queues it if it was not reached before.
    fn visit(&mut self, g: &Grid, start: Cell, cur: Cell, nb: Cell)
        requires
            old(self).inv(*g, start),
            g.contains(cur),
            old(self).seen@[g.idx(cur)],
            adjacent(cur, nb),
            g.free(nb),
            forall|k: int|
                0 <= k < old(self).queue@.len() ==> old(self).dist@[g.idx(#[trigger] old(self).queue@[k])]
                    <= old(self).dist@[g.idx(cur)] + 1,
        ensures
            final(self).inv(*g, start),
            final(self).grows_from(*old(self)),
            final(self).seen@[g.idx(nb)],
            final(self).dist@[g.idx(nb)] <= old(self).dist@[g.idx(cur)] + 1,
            forall|k: int|
                0 <= k < final(self).queue@.len() ==> final(self).dist@[g.idx(
                    #[trigger] final(self).queue@[k],
                )] <= old(self).dist@[g.idx(cur)] + 1,
    {
        proof {
            self.lemma_inv_facts(*g, start);
        }
        let ni = g.index(nb);
        if self.seen[ni] {
            proof {
                let k = self.pos@[g.idx(nb)];
                assert(self.queue@[k] == nb);
            }
            return;
        }
        let ghost prev = *self;
        proof {
            reveal(Search::inv);
            g.lemma_queue_bound(self.vis@.insert(ni as int), g.obstacles@.len() as int);
        }
        self.seen.set(ni, true);
        self.parent.set(ni, cur);
        proof {
            self.pos@ = self.pos@.update(ni as int, self.queue@.len() as int);
            self.dist@ = self.dist@.update(ni as int, prev.dist@[g.idx(cur)] + 1);
            self.vis@ = self.vis@.insert(ni as int);
        }
        self.queue.push(nb);
        proof {
            Search::lemma_visit_new(prev, *self, *g, start, cur, nb);
        }
    }

    /// Reaches every free 4-neighbour of the reached cell `cur`, within one step of it.
    fn expand(&mut self, g: &Grid, start: Cell, cur: Cell)
        requires
            old(self).inv(*g, start),
            g.contains(cur),
            old(self).seen@[g.idx(cur)],
            forall|k: int|
                0 <= k < old(self).queue@.len() ==> old(self).dist@[g.idx(#[trigger] old(self).queue@[k])]
                    <= old(self).dist@[g.idx(cur)] + 1,
        ensures
            final(self).inv(*g, start),
            final(self).grows_from(*old(self)),
            forall|d: Cell|
                adjacent(cur, d) && g.free(d) ==> final(self).seen@[g.idx(d)] && final(self).dist@[g.idx(
                    d,
                )] <= old(self).dist@[g.idx(cur)] + 1,
            forall|k: int|
                0 <= k < final(self).queue@.len() ==> final(self).dist@[g.idx(
                    #[trigger] final(self).queue@[k],
                )] <= old(self).dist@[g.idx(cur)] + 1,
    {
        proof {
            self.lemma_inv_facts(*g, start);
            lemma_cell_index_bound(g.width as int, g.height as int, cur);
        }
        let ns = g.neighbors(cur);
        let ghost s0 = *self;
        let ghost dc = self.dist@[g.idx(cur)];
        let mut j: usize = 0;
        while j < ns.len()
            invariant
                self.inv(*g, start),
                g.wf(),
                self.seen@.len() == g.obstacles@.len(),
                self.grows_from(s0),
                s0.seen@[g.idx(cur)],
                s0.seen@.len() == g.obstacles@.len(),
                dc == s0.dist@[g.idx(cur)],
                g.contains(cur),
                self.seen@[g.idx(cur)],
                self.dist@[g.idx(cur)] == dc,
                j <= ns@.len(),
                forall|i: int|
                    0 <= i < ns@.len() ==> adjacent(cur, #[trigger] ns@[i]) && g.free(ns@[i]),
                forall|i: int|
                    0 <= i < j ==> self.seen@[g.idx(#[trigger] ns@[i])] && self.dist@[g.idx(ns@[i])]
                        <= dc + 1,
                forall|k: int|
                    0 <= k < self.queue@.len() ==> self.dist@[g.idx(#[trigger] self.queue@[k])] <= dc
                        + 1,
            decreases ns.len() - j,
        {
            let nb = ns[j];
            let ghost s1 = *self;
            self.visit(g, start, cur, nb);
            proof {
                self.lemma_grows_trans(s1, s0);
                lemma_cell_index_bound(g.width as int, g.height as int, cur);
                assert forall|i: int| 0 <= i < j + 1 implies self.seen@[g.idx(#[trigger] ns@[i])]
                    && self.dist@[g.idx(ns@[i])] <= dc + 1 by {
                    lemma_cell_index_bound(g.width as int, g.height as int, ns@[i]);
                }
            }
            j = j + 1;
        }
        proof {
            assert forall|d: Cell| adjacent(cur, d) && g.free(d) implies self.seen@[g.idx(d)]
                && self.dist@[g.idx(d)] <= dc + 1 by {
                assert(ns@.contains(d));
            }
        }
    }

    /// Follows the recorded steps back from the reached cell `end` to `start`, and
    /// returns the route from `start` to `end`, one cell per step.
    fn trace_back(&self, g: &Grid, start: Cell, end: Cell) -> (r: Vec<Cell>)
        requires
            self.inv(*g, start),
            g.contains(end),
            end != start,
            self.seen@[g.idx(end)],
        ensures
            g.is_path(r@),
            r@.len() >= 2,
            r@[0] == start,
            r@.last() == end,
            r@.len() == self.dist@[g.idx(end)] + 1,
    {
        reveal(Search::inv);
        let mut rev: Vec<Cell> = vec![end];
        let mut cur = end;
        while !same_cell(cur, start)
            invariant
                self.inv(*g, start),
                g.wf(),
                g.contains(start),
                self.seen@.len() == g.obstacles@.len(),
                self.parent@.len() == g.obstacles@.len(),
                self.pos@.len() == g.obstacles@.len(),
                self.dist@[g.idx(start)] == 0,
                g.queue_ok(self.seen@, self.pos@, self.queue@),
                g.parents_ok(start, self.seen@, self.parent@, self.pos@, self.dist@),
                rev@.len() >= 1,
                rev@[0] == end,
                rev@.last() == cur,
                end != start,
                g.contains(cur),
                self.seen@[g.idx(cur)],
                rev@.len() + self.dist@[g.idx(cur)] == self.dist@[g.idx(end)] + 1,
                forall|i: int| 0 <= i < rev@.len() ==> g.contains(#[trigger] rev@[i]),
                forall|i: int|
                    0 <= i < rev@.len() - 1 ==> !g.blocked(#[trigger] rev@[i]) && rev@[i] != start,
                forall|i: int|
                    0 <= i < rev@.len() - 1 ==> adjacent(rev@[i + 1], #[trigger] rev@[i]),
            decreases self.pos@[g.idx(cur)],
        {
            let ci = g.index(cur);
            let p = self.parent[ci];
            rev.push(p);
            cur = p;
        }
        let mut r: Vec<Cell> = Vec::new();
        let mut k = rev.len();
        while k > 0
            invariant
                k <= rev@.len(),
                r@.len() == rev@.len() - k,
                forall|t: int| 0 <= t < r@.len() ==> r@[t] == rev@[rev@.len() - 1 - t],
            decreases k,
        {
            k = k - 1;
            r.push(rev[k]);
        }
        proof {
            let len = rev@.len() as int;
            assert(len >= 2);
            assert forall|t: int| 0 <= t < r@.len() - 1 implies adjacent(
                #[trigger] r@[t],
                r@[t + 1],
            ) by {
                assert(r@[t] == rev@[len - 1 - t]);
                assert(r@[t + 1] == rev@[len - 2 - t]);
            }
            assert forall|t: int| 1 <= t < r@.len() implies !g.blocked(#[trigger] r@[t]) by {
                assert(r@[t] == rev@[len - 1 - t]);
            }
            assert forall|t: int| 0 <= t < r@.len() implies g.contains(#[trigger] r@[t]) by {
                assert(r@[t] == rev@[len - 1 - t]);
            }
        }
        r
    }
}

} // verus!
