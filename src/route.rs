use vstd::prelude::*;
use crate::grid::{adjacent, aligned, Cell, Grid, GridView};

verus! {

/// The side of its node that an anchor sits on; a route leaves the node that way.
#[derive(Debug, Clone, Copy, PartialEq, Eq, Structural)]
pub enum Side {
    Left,
    Right,
    Top,
    Bottom,
}

/// Length, in cells, of the stub used when the walk outward from an anchor leaves
/// the grid before it meets a free cell (25 world units on 5-unit cells).
pub const FALLBACK_STEPS: usize = 5;

/// The point `k` cells away from `c` in the direction of `side`.
pub open spec fn outward(c: Cell, side: Side, k: int) -> (int, int) {
    match side {
        Side::Left => (c.0 - k, c.1 as int),
        Side::Right => (c.0 + k, c.1 as int),
        Side::Top => (c.0 as int, c.1 - k),
        Side::Bottom => (c.0 as int, c.1 + k),
    }
}

/// Point `p` is a cell of the grid.
pub open spec fn in_grid(v: GridView, p: (int, int)) -> bool {
    0 <= p.0 < v.width && 0 <= p.1 < v.height
}

/// Point `p` as a cell, for a point with non-negative coordinates.
pub open spec fn to_cell(p: (int, int)) -> Cell {
    (p.0 as usize, p.1 as usize)
}

/// `x` kept within `[0, hi]`.
pub open spec fn clamp(x: int, hi: int) -> int {
    if x < 0 {
        0
    } else if x > hi {
        hi
    } else {
        x
    }
}

/// The grid cell nearest to point `p`.
pub open spec fn clamp_into(v: GridView, p: (int, int)) -> Cell {
    (clamp(p.0, v.width - 1) as usize, clamp(p.1, v.height - 1) as usize)
}

/// The first free cell at distance `k` or more from `c` in the direction of `side`,
/// if one is met before the walk leaves the grid.
pub open spec fn first_free(v: GridView, c: Cell, side: Side, k: int) -> Option<Cell>
    decreases v.width + v.height - k,
{
    if k >= v.width + v.height || !in_grid(v, outward(c, side, k)) {
        None
    } else if !v.blocked(to_cell(outward(c, side, k))) {
        Some(to_cell(outward(c, side, k)))
    } else {
        first_free(v, c, side, k + 1)
    }
}

/// Where a route leaving anchor `c` towards `side` starts its search: the first
/// free cell outward, or the fallback stub end when the walk leaves the grid.
pub open spec fn extension_of(v: GridView, c: Cell, side: Side) -> Cell {
    match first_free(v, c, side, 1) {
        Some(e) => e,
        None => clamp_into(v, outward(c, side, FALLBACK_STEPS as int)),
    }
}

proof fn lemma_first_free_aligned(v: GridView, c: Cell, side: Side, k: int)
    requires
        k >= 1,
    ensures
        first_free(v, c, side, k) matches Some(e) ==> aligned(c, e) && v.contains(e),
    decreases v.width + v.height - k,
{
    if k < v.width + v.height && in_grid(v, outward(c, side, k)) && v.blocked(
        to_cell(outward(c, side, k)),
    ) {
        lemma_first_free_aligned(v, c, side, k + 1);
    }
}

/// The extension cell lies in the grid, in the anchor's row or column.
pub proof fn lemma_extension_aligned(v: GridView, c: Cell, side: Side)
    requires
        v.contains(c),
        v.width >= 1,
        v.height >= 1,
    ensures
        aligned(c, extension_of(v, c, side)),
        v.contains(extension_of(v, c, side)),
{
    lemma_first_free_aligned(v, c, side, 1);
}

/// The cell where a route leaving anchor `c` towards `side` begins its search: walks
/// outward from `c` until a free cell is found, or takes a stub of
/// `FALLBACK_STEPS` cells (kept inside the grid) when the walk leaves the grid first.
pub fn extension(g: &Grid, c: Cell, side: Side) -> (r: Cell)
    requires
        g.wf(),
        g.contains(c),
    ensures
        r == extension_of(g@, c, side),
        g.contains(r),
        aligned(c, r),
{
    proof {
        lemma_extension_aligned(g@, c, side);
    }
    let mut k: usize = 1;
    loop
        invariant
            g.wf(),
            g.contains(c),
            1 <= k,
            in_grid(g@, outward(c, side, k - 1)),
            first_free(g@, c, side, 1) == first_free(g@, c, side, k as int),
        decreases g.width + g.height - k,
    {
        let next: Option<Cell> = match side {
            Side::Left => if k <= c.0 {
                Some((c.0 - k, c.1))
            } else {
                None
            },
            Side::Right => if k < g.width - c.0 {
                Some((c.0 + k, c.1))
            } else {
                None
            },
            Side::Top => if k <= c.1 {
                Some((c.0, c.1 - k))
            } else {
                None
            },
            Side::Bottom => if k < g.height - c.1 {
                Some((c.0, c.1 + k))
            } else {
                None
            },
        };
        match next {
            None => {
                let w = g.width;
                let h = g.height;
                let s = FALLBACK_STEPS;
                let r: Cell = match side {
                    Side::Left => (if c.0 >= s {
                        c.0 - s
                    } else {
                        0
                    }, c.1),
                    Side::Right => (if w - 1 - c.0 >= s {
                        c.0 + s
                    } else {
                        w - 1
                    }, c.1),
                    Side::Top => (c.0, if c.1 >= s {
                        c.1 - s
                    } else {
                        0
                    }),
                    Side::Bottom => (c.0, if h - 1 - c.1 >= s {
                        c.1 + s
                    } else {
                        h - 1
                    }),
                };
                return r;
            },
            Some(cell) => {
                assert(cell == to_cell(outward(c, side, k as int)));
                if !g.is_obstacle(cell) {
                    return cell;
                }
                k = k + 1;
            },
        }
    }
}

/// Routes one edge between the anchor cells `src` and `dst`. Both anchors are
/// cleared, the route leaves each anchor towards its side up to its extension cell,
/// the extension cells are cleared, and a breadth-first search joins them. The
/// route is `[src] + search result + [dst]`; the search result is a shortest route
/// between the extension cells, or their direct pair when no route joins them.
pub fn route_cells(grid: &mut Grid, src: Cell, src_side: Side, dst: Cell, dst_side: Side) -> (r:
    Vec<Cell>)
    requires
        old(grid).wf(),
        old(grid).contains(src),
        old(grid).contains(dst),
    ensures
        final(grid).wf(),
        final(grid).width == old(grid).width,
        final(grid).height == old(grid).height,
        ({
            let v1 = old(grid)@.with_cell(src, false).with_cell(dst, false);
            let se = extension_of(v1, src, src_side);
            let de = extension_of(v1, dst, dst_side);
            let v2 = v1.with_cell(se, false).with_cell(de, false);
            &&& final(grid)@ == v2
            &&& r@.len() >= 4
            &&& r@[0] == src
            &&& r@[1] == se
            &&& r@[r@.len() - 2] == de
            &&& r@.last() == dst
            &&& forall|i: int| 0 <= i < r@.len() ==> final(grid).contains(#[trigger] r@[i])
            &&& se != de && v2.reachable(se, de) ==> v2.is_path(r@.subrange(1, r@.len() - 1))
            &&& se != de ==> forall|p: Seq<Cell>|
                #[trigger] v2.is_path(p) && p[0] == se && p.last() == de ==> r@.len() - 2 <= p.len()
            &&& se == de || !v2.reachable(se, de) ==> r@ == seq![src, se, de, dst]
            &&& se == de || v2.reachable(se, de) ==> forall|i: int|
                0 <= i < r@.len() - 1 ==> aligned(#[trigger] r@[i], r@[i + 1])
            &&& se != de && v2.reachable(se, de) && se != src && de != dst ==> forall|i: int|
                0 <= i < r@.len() - 1 ==> #[trigger] r@[i] != r@[i + 1]
        }),
{
    grid.set_obstacle(src, false);
    grid.set_obstacle(dst, false);
    let se = extension(grid, src, src_side);
    let de = extension(grid, dst, dst_side);
    grid.set_obstacle(se, false);
    grid.set_obstacle(de, false);
    let mid = grid.find_path(se, de);
    let mut r: Vec<Cell> = vec![src];
    let mut i: usize = 0;
    while i < mid.len()
        invariant
            i <= mid@.len(),
            r@ == seq![src] + mid@.subrange(0, i as int),
        decreases mid.len() - i,
    {
        r.push(mid[i]);
        i = i + 1;
        assert(r@ =~= seq![src] + mid@.subrange(0, i as int));
    }
    r.push(dst);
    proof {
        let n = r@.len() as int;
        assert(mid@.subrange(0, mid@.len() as int) =~= mid@);
        assert(r@ =~= seq![src] + mid@ + seq![dst]);
        assert(r@.subrange(1, n - 1) =~= mid@);
        let v2 = grid@;
        if se == de || v2.reachable(se, de) {
            assert forall|i: int| 0 <= i < n - 1 implies aligned(#[trigger] r@[i], r@[i + 1]) by {
                if i == 0 {
                } else if i == n - 2 {
                } else {
                    if se != de {
                        assert(adjacent(mid@[i - 1], mid@[i]));
                    } else {
                        assert(mid@ == seq![se, de]);
                    }
                }
            }
        }
        if se == de || !v2.reachable(se, de) {
            assert(r@ =~= seq![src, se, de, dst]);
        }
        if se != de && v2.reachable(se, de) && se != src && de != dst {
            assert forall|i: int| 0 <= i < n - 1 implies #[trigger] r@[i] != r@[i + 1] by {
                if 0 < i < n - 2 {
                    assert(adjacent(mid@[i - 1], mid@[i]));
                }
            }
        }
        assert forall|i: int| 0 <= i < n implies grid.contains(#[trigger] r@[i]) by {
            if 0 < i < n - 1 {
                if se != de && v2.reachable(se, de) {
                    assert(v2.is_path(mid@));
                    assert(r@[i] == mid@[i - 1]);
                } else {
                    assert(mid@ == seq![se, de]);
                }
            }
        }
    }
    r
}

} // verus!
