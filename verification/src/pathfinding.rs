//! Grid pathfinding: A* search over a walkability grid with octile
//! heuristic, deterministic tie-breaking, no corner-cutting on diagonal
//! moves, and an optional node-expansion budget.

use vstd::prelude::*;
use vstd::arithmetic::div_mod::lemma_fundamental_div_mod_converse;
use vstd::set::{axiom_set_remove_finite, axiom_set_remove_len};
use vstd::set_lib::{lemma_int_range, lemma_len_subset, set_int_range};
use crate::errors::CoreError;
use crate::grid::Grid;

verus! {

/// Upper bound on grid dimensions, so that flat indices and step costs fit
/// comfortably in the machine integers.
pub const MAX_GRID_DIM: usize = 1_000_000;

/// Cost of an orthogonal step, in thousandths of a cell.
pub const ORTHO_COST: u64 = 1000;

/// Cost of a diagonal step: a thousand times the square root of two,
/// rounded, in thousandths of a cell.
pub const DIAG_COST: u64 = 1414;

/// The cell is inside the grid and marked walkable (`true`).
pub open spec fn cell_walkable(g: Grid, c: (usize, usize)) -> bool {
    &&& c.0 < g.spec_width()
    &&& c.1 < g.spec_height()
    &&& g.cells()[c.1 as int][c.0 as int]
}

/// The two cells are distinct and differ by at most one in each coordinate.
pub open spec fn adjacent8(a: (usize, usize), b: (usize, usize)) -> bool {
    let dx = if a.0 >= b.0 { a.0 - b.0 } else { b.0 - a.0 };
    let dy = if a.1 >= b.1 { a.1 - b.1 } else { b.1 - a.1 };
    dx <= 1 && dy <= 1 && dx + dy != 0
}

/// A legal move: 8-adjacent, into a walkable cell, and a diagonal move only
/// when both orthogonal neighbors forming the corner are walkable.
pub open spec fn step_allowed(g: Grid, a: (usize, usize), b: (usize, usize)) -> bool {
    &&& adjacent8(a, b)
    &&& cell_walkable(g, b)
    &&& (a.0 != b.0 && a.1 != b.1 ==> cell_walkable(g, (a.0, b.1)) && cell_walkable(
        g,
        (b.0, a.1),
    ))
}

/// A path from `s` to `e`: nonempty, endpoints as stated, every cell
/// walkable, every consecutive pair a legal move.
pub open spec fn valid_path(
    g: Grid,
    s: (usize, usize),
    e: (usize, usize),
    p: Seq<(usize, usize)>,
) -> bool {
    &&& p.len() >= 1
    &&& p[0] == s
    &&& p[p.len() - 1] == e
    &&& cell_walkable(g, s)
    &&& forall|i: int| 0 <= i < p.len() - 1 ==> step_allowed(g, #[trigger] p[i], p[i + 1])
}

/// Chebyshev distance: the least number of 8-directional steps between two
/// cells on an unobstructed grid.
pub open spec fn chebyshev(a: (usize, usize), b: (usize, usize)) -> int {
    let dx = if a.0 >= b.0 { a.0 - b.0 } else { b.0 - a.0 };
    let dy = if a.1 >= b.1 { a.1 - b.1 } else { b.1 - a.1 };
    if dx >= dy {
        dx
    } else {
        dy
    }
}

/// The cell a flat row-major index denotes.
pub open spec fn idx_cell(width: int, i: int) -> (usize, usize) {
    (((i % width) as usize), ((i / width) as usize))
}

/// An entry of the open set: priority key (`f`, `h`, insertion order) and
/// the cell it proposes to expand.
struct OpenNode {
    f: u128,
    h: u128,
    order: u128,
    x: usize,
    y: usize,
}

/// Every recorded node (finite g-score) is a walkable cell whose parent
/// link, when present, is a strictly cheaper recorded node one legal move
/// away; the only node without a parent is the start.
spec fn nodes_inv(
    g: Grid,
    gs: Seq<u64>,
    par: Seq<usize>,
    width: int,
    area: int,
    sidx: int,
) -> bool {
    &&& gs.len() == area
    &&& par.len() == area
    &&& forall|i: int|
        0 <= i < area && (#[trigger] gs[i]) < u64::MAX ==> {
            &&& cell_walkable(g, idx_cell(width, i))
            &&& (par[i] == area ==> i == sidx)
            &&& (par[i] != area ==> par[i] < area && gs[par[i] as int] < gs[i] && step_allowed(
                g,
                idx_cell(width, par[i] as int),
                idx_cell(width, i),
            ))
        }
}

/// Every open-set entry points at an in-bounds cell with a recorded g-score.
spec fn open_inv(open: Seq<OpenNode>, gs: Seq<u64>, width: int, height: int) -> bool {
    forall|k: int|
        0 <= k < open.len() ==> {
            let e = #[trigger] open[k];
            &&& e.x < width
            &&& e.y < height
            &&& 0 <= e.y * width + e.x < gs.len()
            &&& gs[e.y * width + e.x] < u64::MAX
        }
}

/// Some open-set entry points at flat index `i`.
spec fn open_has_entry(open: Seq<OpenNode>, width: int, i: int) -> bool {
    exists|k: int| 0 <= k < open.len() && (#[trigger] open[k]).y * width + open[k].x == i
}

/// Every recorded node (finite g-score) that is not yet closed still has an
/// open-set entry: the frontier never silently drops a reachable node.
spec fn unclosed_covered(
    open: Seq<OpenNode>,
    gs: Seq<u64>,
    closed: Seq<bool>,
    width: int,
    area: int,
) -> bool {
    forall|i: int|
        0 <= i < area && (#[trigger] gs[i]) < u64::MAX && !closed[i] ==> open_has_entry(
            open,
            width,
            i,
        )
}

/// Every legal move out of a closed cell leads to a recorded node: closed
/// cells have been fully expanded.
spec fn closed_expanded(g: Grid, gs: Seq<u64>, closed: Seq<bool>, width: int) -> bool {
    forall|a: (usize, usize), b: (usize, usize)|
        a.0 < g.spec_width() && a.1 < g.spec_height() && closed[(a.1 as int) * width + a.0 as int]
            && #[trigger] step_allowed(g, a, b) ==> gs[(b.1 as int) * width + b.0 as int]
            < u64::MAX
}

/// In a saturated search state (every recorded cell has had all its legal
/// moves recorded), every cell a valid path reaches from a recorded start is
/// itself recorded.
proof fn lemma_reachable_recorded(
    g: Grid,
    gs: Seq<u64>,
    width: int,
    s: (usize, usize),
    e: (usize, usize),
    p: Seq<(usize, usize)>,
)
    requires
        valid_path(g, s, e, p),
        gs[(s.1 as int) * width + s.0 as int] < u64::MAX,
        forall|a: (usize, usize), b: (usize, usize)|
            a.0 < g.spec_width() && a.1 < g.spec_height() && gs[(a.1 as int) * width + a.0 as int]
                < u64::MAX && #[trigger] step_allowed(g, a, b) ==> gs[(b.1 as int) * width
                + b.0 as int] < u64::MAX,
    ensures
        gs[(e.1 as int) * width + e.0 as int] < u64::MAX,
    decreases p.len(),
{
    if p.len() == 1 {
        assert(p[0] == s && p[p.len() - 1] == e);
    } else {
        let q = p.drop_last();
        let m = p[p.len() - 2];
        assert forall|i: int| 0 <= i < q.len() - 1 implies step_allowed(
            g,
            #[trigger] q[i],
            q[i + 1],
        ) by {
            assert(q[i] == p[i]);
            assert(q[i + 1] == p[i + 1]);
            assert(step_allowed(g, p[i], p[i + 1]));
        }
        assert(q[q.len() - 1] == m);
        assert(valid_path(g, s, m, q));
        lemma_reachable_recorded(g, gs, width, s, m, q);
        lemma_path_cells_walkable(g, s, e, p);
        assert(cell_walkable(g, m));
        assert(step_allowed(g, p[p.len() - 2], p[(p.len() - 2) + 1]));
        assert(step_allowed(g, m, e));
    }
}

/// After one neighbor-relaxation: the improved cell's new entry covers it,
/// and every other unclosed recorded node keeps its old entry.
proof fn lemma_covered_after_improve(
    open_old: Seq<OpenNode>,
    open_new: Seq<OpenNode>,
    gs_old: Seq<u64>,
    gs_new: Seq<u64>,
    closed: Seq<bool>,
    width: int,
    area: int,
    nidx: int,
    entry: OpenNode,
)
    requires
        unclosed_covered(open_old, gs_old, closed, width, area),
        open_new == open_old.push(entry),
        entry.y * width + entry.x == nidx,
        0 <= nidx < area,
        forall|i: int| 0 <= i < area && i != nidx ==> gs_new[i] == gs_old[i],
    ensures
        unclosed_covered(open_new, gs_new, closed, width, area),
{
    assert forall|i: int|
        0 <= i < area && (#[trigger] gs_new[i]) < u64::MAX && !closed[i] implies open_has_entry(
        open_new,
        width,
        i,
    ) by {
        if i == nidx {
            assert(open_new[open_new.len() - 1] == entry);
            assert(open_new[open_new.len() - 1].y * width + open_new[open_new.len() - 1].x == i);
        } else {
            assert(gs_new[i] == gs_old[i]);
            let k0 = choose|k: int|
                0 <= k < open_old.len() && (#[trigger] open_old[k]).y * width + open_old[k].x
                    == i;
            assert(open_new[k0] == open_old[k0]);
        }
    }
}

/// The legality-to-recorded fact one relaxation gives: if the displaced cell
/// is a legal move target, its cost is recorded in `gs`.
spec fn tstep_fact(
    g: Grid,
    gs: Seq<u64>,
    width: int,
    height: int,
    cx: usize,
    cy: usize,
    dx: int,
    dy: int,
) -> bool {
    let tx = cx as int + dx;
    let ty = cy as int + dy;
    (0 <= tx < width && 0 <= ty < height && step_allowed(
        g,
        (cx, cy),
        ((tx as usize), (ty as usize)),
    )) ==> gs[ty * width + tx] < u64::MAX
}

/// After relaxing all eight displacements of a cell in turn (costs only ever
/// decreasing), every legal move out of that cell leads to a recorded node
/// in the final state.
#[allow(clippy::too_many_arguments)]
proof fn lemma_expansion_records_neighbors(
    g: Grid,
    width: int,
    height: int,
    area: int,
    cx: usize,
    cy: usize,
    gs1: Seq<u64>,
    gs2: Seq<u64>,
    gs3: Seq<u64>,
    gs4: Seq<u64>,
    gs5: Seq<u64>,
    gs6: Seq<u64>,
    gs7: Seq<u64>,
    gs8: Seq<u64>,
    gs9: Seq<u64>,
)
    requires
        g.wf(),
        width == g.spec_width(),
        height == g.spec_height(),
        area == width * height,
        cx < width,
        cy < height,
        forall|i: int| 0 <= i < area ==> #[trigger] gs2[i] <= gs1[i],
        forall|i: int| 0 <= i < area ==> #[trigger] gs3[i] <= gs2[i],
        forall|i: int| 0 <= i < area ==> #[trigger] gs4[i] <= gs3[i],
        forall|i: int| 0 <= i < area ==> #[trigger] gs5[i] <= gs4[i],
        forall|i: int| 0 <= i < area ==> #[trigger] gs6[i] <= gs5[i],
        forall|i: int| 0 <= i < area ==> #[trigger] gs7[i] <= gs6[i],
        forall|i: int| 0 <= i < area ==> #[trigger] gs8[i] <= gs7[i],
        forall|i: int| 0 <= i < area ==> #[trigger] gs9[i] <= gs8[i],
        tstep_fact(g, gs2, width, height, cx, cy, -1, -1),
        tstep_fact(g, gs3, width, height, cx, cy, 0, -1),
        tstep_fact(g, gs4, width, height, cx, cy, 1, -1),
        tstep_fact(g, gs5, width, height, cx, cy, -1, 0),
        tstep_fact(g, gs6, width, height, cx, cy, 1, 0),
        tstep_fact(g, gs7, width, height, cx, cy, -1, 1),
        tstep_fact(g, gs8, width, height, cx, cy, 0, 1),
        tstep_fact(g, gs9, width, height, cx, cy, 1, 1),
    ensures
        forall|i: int| 0 <= i < area ==> #[trigger] gs9[i] <= gs1[i],
        forall|b: (usize, usize)|
            #[trigger] step_allowed(g, (cx, cy), b) ==> gs9[(b.1 as int) * width + b.0 as int]
                < u64::MAX,
{
    assert forall|i: int| 0 <= i < area implies #[trigger] gs9[i] <= gs8[i] by {}
    assert forall|i: int| 0 <= i < area implies #[trigger] gs9[i] <= gs7[i] by {
        assert(gs8[i] <= gs7[i]);
    }
    assert forall|i: int| 0 <= i < area implies #[trigger] gs9[i] <= gs6[i] by {
        assert(gs9[i] <= gs7[i]);
    }
    assert forall|i: int| 0 <= i < area implies #[trigger] gs9[i] <= gs5[i] by {
        assert(gs9[i] <= gs6[i]);
    }
    assert forall|i: int| 0 <= i < area implies #[trigger] gs9[i] <= gs4[i] by {
        assert(gs9[i] <= gs5[i]);
    }
    assert forall|i: int| 0 <= i < area implies #[trigger] gs9[i] <= gs3[i] by {
        assert(gs9[i] <= gs4[i]);
    }
    assert forall|i: int| 0 <= i < area implies #[trigger] gs9[i] <= gs2[i] by {
        assert(gs9[i] <= gs3[i]);
    }
    assert forall|i: int| 0 <= i < area implies #[trigger] gs9[i] <= gs1[i] by {
        assert(gs9[i] <= gs2[i]);
    }
    assert forall|b: (usize, usize)| #[trigger] step_allowed(g, (cx, cy), b) implies gs9[(
    b.1 as int) * width + b.0 as int] < u64::MAX by {
        assert(cell_walkable(g, b));
        lemma_flat_cell(width, height, b.0 as int, b.1 as int);
        let bi = (b.1 as int) * width + b.0 as int;
        let ddx = b.0 as int - cx as int;
        let ddy = b.1 as int - cy as int;
        assert(-1 <= ddx <= 1 && -1 <= ddy <= 1 && !(ddx == 0 && ddy == 0));
        assert(b == (((cx as int + ddx) as usize), ((cy as int + ddy) as usize)));
        if ddx == -1 && ddy == -1 {
            assert(gs2[bi] < u64::MAX);
        } else if ddx == 0 && ddy == -1 {
            assert(gs3[bi] < u64::MAX);
        } else if ddx == 1 && ddy == -1 {
            assert(gs4[bi] < u64::MAX);
        } else if ddx == -1 && ddy == 0 {
            assert(gs5[bi] < u64::MAX);
        } else if ddx == 1 && ddy == 0 {
            assert(gs6[bi] < u64::MAX);
        } else if ddx == -1 && ddy == 1 {
            assert(gs7[bi] < u64::MAX);
        } else if ddx == 0 && ddy == 1 {
            assert(gs8[bi] < u64::MAX);
        } else {
            assert(ddx == 1 && ddy == 1);
            assert(gs9[bi] < u64::MAX);
        }
    }
}

/// After popping the entry at `best` for an already-closed cell, every
/// unclosed recorded node keeps an open-set entry.
proof fn lemma_covered_after_pop(
    open_before: Seq<OpenNode>,
    open_after: Seq<OpenNode>,
    gs: Seq<u64>,
    closed: Seq<bool>,
    width: int,
    area: int,
    best: int,
    curidx: int,
)
    requires
        unclosed_covered(open_before, gs, closed, width, area),
        0 <= best < open_before.len(),
        open_after == open_before.update(best, open_before[open_before.len() - 1]).drop_last(),
        open_before[best].y * width + open_before[best].x == curidx,
        0 <= curidx < area,
        closed[curidx],
    ensures
        unclosed_covered(open_after, gs, closed, width, area),
{
    assert forall|i: int|
        0 <= i < area && (#[trigger] gs[i]) < u64::MAX && !closed[i] implies open_has_entry(
        open_after,
        width,
        i,
    ) by {
        let k0 = choose|k: int|
            0 <= k < open_before.len() && (#[trigger] open_before[k]).y * width
                + open_before[k].x == i;
        assert(k0 != best);
        if k0 == open_before.len() - 1 {
            assert(open_after[best] == open_before[k0]);
        } else {
            assert(open_after[k0] == open_before[k0]);
        }
    }
}

proof fn lemma_mul_le(a: int, b: int, c: int, d: int)
    by (nonlinear_arith)
    requires
        0 <= a <= c,
        0 <= b <= d,
    ensures
        a * b <= c * d,
{
}

proof fn lemma_flat_cell(width: int, height: int, x: int, y: int)
    requires
        0 < width,
        0 <= x < width,
        0 <= y < height,
    ensures
        0 <= y * width + x < width * height,
        (y * width + x) % width == x,
        (y * width + x) / width == y,
        idx_cell(width, y * width + x) == (x as usize, y as usize),
{
    lemma_fundamental_div_mod_converse(y * width + x, width, y, x);
    assert(0 <= y * width + x < width * height) by (nonlinear_arith)
        requires
            0 < width,
            0 <= x < width,
            0 <= y < height,
    ;
}

/// Recording an improved cost and parent for one reachable neighbor keeps
/// every recorded node on a strictly-cheaper parent chain.
proof fn lemma_update_nodes_inv(
    g: Grid,
    gs_old: Seq<u64>,
    par_old: Seq<usize>,
    gs_new: Seq<u64>,
    par_new: Seq<usize>,
    width: int,
    area: int,
    sidx: int,
    cur: usize,
    nidx: usize,
    ng: u64,
)
    requires
        nodes_inv(g, gs_old, par_old, width, area, sidx),
        0 <= cur < area,
        0 <= nidx < area,
        cur != nidx,
        gs_old[cur as int] < u64::MAX,
        ng < u64::MAX,
        gs_old[cur as int] < ng,
        ng < gs_old[nidx as int],
        cell_walkable(g, idx_cell(width, nidx as int)),
        step_allowed(g, idx_cell(width, cur as int), idx_cell(width, nidx as int)),
        gs_new == gs_old.update(nidx as int, ng),
        par_new == par_old.update(nidx as int, cur),
    ensures
        nodes_inv(g, gs_new, par_new, width, area, sidx),
        forall|i: int| 0 <= i < area ==> gs_new[i] <= gs_old[i],
{
    assert forall|i: int|
        0 <= i < area && (#[trigger] gs_new[i]) < u64::MAX implies {
        &&& cell_walkable(g, idx_cell(width, i))
        &&& (par_new[i] == area ==> i == sidx)
        &&& (par_new[i] != area ==> par_new[i] < area && gs_new[par_new[i] as int] < gs_new[i]
            && step_allowed(g, idx_cell(width, par_new[i] as int), idx_cell(width, i)))
    } by {
        if i == nidx as int {
            assert(par_new[i] == cur);
            assert(gs_new[cur as int] == gs_old[cur as int]);
        } else {
            assert(gs_new[i] == gs_old[i]);
            assert(par_new[i] == par_old[i]);
            if par_old[i] != area {
                assert(gs_new[par_old[i] as int] <= gs_old[par_old[i] as int]);
            }
        }
    }
}

/// Pushing an entry whose cell has a recorded cost, onto an open set whose
/// cells all have recorded costs, keeps the open set sound when costs only
/// improve.
proof fn lemma_open_inv_push(
    open_old: Seq<OpenNode>,
    open_new: Seq<OpenNode>,
    gs_old: Seq<u64>,
    gs_new: Seq<u64>,
    width: int,
    height: int,
    e: OpenNode,
)
    requires
        open_inv(open_old, gs_old, width, height),
        open_new == open_old.push(e),
        gs_new.len() == gs_old.len(),
        forall|i: int| 0 <= i < gs_old.len() ==> gs_new[i] <= gs_old[i],
        e.x < width,
        e.y < height,
        0 <= e.y * width + e.x < gs_new.len(),
        gs_new[e.y * width + e.x] < u64::MAX,
    ensures
        open_inv(open_new, gs_new, width, height),
{
    assert forall|k: int| 0 <= k < open_new.len() implies {
        let q = #[trigger] open_new[k];
        &&& q.x < width
        &&& q.y < height
        &&& 0 <= q.y * width + q.x < gs_new.len()
        &&& gs_new[q.y * width + q.x] < u64::MAX
    } by {
        if k < open_old.len() {
            let q = open_old[k];
            assert(open_new[k] == q);
            assert(gs_old[q.y * width + q.x] < u64::MAX);
            assert(gs_new[q.y * width + q.x] <= gs_old[q.y * width + q.x]);
        } else {
            assert(open_new[k] == e);
        }
    }
}

/// Builds a vector of `n` copies of `val`.
fn filled<T: Copy>(n: usize, val: T) -> (r: Vec<T>)
    ensures
        r@.len() == n,
        forall|i: int| 0 <= i < n ==> r@[i] == val,
{
    let mut v: Vec<T> = Vec::new();
    let mut i: usize = 0;
    while i < n
        invariant
            i <= n,
            v@.len() == i,
            forall|j: int| 0 <= j < i ==> v@[j] == val,
        decreases n - i,
    {
        v.push(val);
        i = i + 1;
    }
    v
}

/// Octile heuristic: diagonal cost along the shorter axis difference,
/// orthogonal cost for the remainder.
fn octile(ax: usize, ay: usize, bx: usize, by: usize) -> (r: u128)
    requires
        ax <= MAX_GRID_DIM,
        ay <= MAX_GRID_DIM,
        bx <= MAX_GRID_DIM,
        by <= MAX_GRID_DIM,
    ensures
        r <= 2_500_000_000,
{
    let dx = if ax >= bx {
        ax - bx
    } else {
        bx - ax
    };
    let dy = if ay >= by {
        ay - by
    } else {
        by - ay
    };
    let lo = if dx <= dy {
        dx
    } else {
        dy
    };
    let hi = if dx <= dy {
        dy
    } else {
        dx
    };
    proof {
        lemma_mul_le(DIAG_COST as int, lo as int, 1414, 1_000_000);
        lemma_mul_le(ORTHO_COST as int, hi - lo, 1000, 1_000_000);
    }
    (DIAG_COST as u128) * (lo as u128) + (ORTHO_COST as u128) * ((hi - lo) as u128)
}

/// Considers the neighbor of `(cx, cy)` displaced by `(dx, dy)`: if the move
/// is legal and improves on the neighbor's recorded cost, records the new
/// cost and parent and inserts the neighbor into the open set.
#[allow(clippy::too_many_arguments)]
#[verifier::rlimit(100)]
#[verifier::spinoff_prover]
fn try_step(
    grid: &Grid,
    g_score: &mut Vec<u64>,
    parent: &mut Vec<usize>,
    open: &mut Vec<OpenNode>,
    next_order: &mut u128,
    width: usize,
    height: usize,
    area: usize,
    sidx: usize,
    cx: usize,
    cy: usize,
    dx: i64,
    dy: i64,
    end_x: usize,
    end_y: usize,
    closed: Ghost<Seq<bool>>,
    gbound: Ghost<int>,
)
    requires
        grid.wf(),
        width == grid.spec_width(),
        height == grid.spec_height(),
        width <= MAX_GRID_DIM,
        height <= MAX_GRID_DIM,
        area == width * height,
        nodes_inv(*grid, old(g_score)@, old(parent)@, width as int, area as int, sidx as int),
        open_inv(old(open)@, old(g_score)@, width as int, height as int),
        unclosed_covered(old(open)@, old(g_score)@, closed@, width as int, area as int),
        cx < width,
        cy < height,
        end_x < width,
        end_y < height,
        old(g_score)@[cy * width + cx] < u64::MAX,
        old(g_score)@[cy * width + cx] + 1414 <= gbound@,
        gbound@ < u64::MAX,
        forall|i: int|
            0 <= i < area && (#[trigger] old(g_score)@[i]) < u64::MAX ==> old(g_score)@[i]
                <= gbound@,
        -1 <= dx <= 1,
        -1 <= dy <= 1,
        !(dx == 0 && dy == 0),
    ensures
        final(g_score)@.len() == area,
        final(parent)@.len() == area,
        nodes_inv(*grid, final(g_score)@, final(parent)@, width as int, area as int, sidx as int),
        open_inv(final(open)@, final(g_score)@, width as int, height as int),
        unclosed_covered(final(open)@, final(g_score)@, closed@, width as int, area as int),
        final(open)@.len() <= old(open)@.len() + 1,
        forall|i: int| 0 <= i < area ==> final(g_score)@[i] <= old(g_score)@[i],
        forall|i: int|
            0 <= i < area && (#[trigger] final(g_score)@[i]) < u64::MAX ==> final(g_score)@[i]
                <= gbound@,
        tstep_fact(*grid, final(g_score)@, width as int, height as int, cx, cy, dx as int, dy as int),
{
    let nx_i: i64 = (cx as i64) + dx;
    let ny_i: i64 = (cy as i64) + dy;
    if !(0 <= nx_i && nx_i < width as i64 && 0 <= ny_i && ny_i < height as i64) {
        return ;
    }
    let nx = nx_i as usize;
    let ny = ny_i as usize;
    if !grid.get(nx, ny) {
        // The target is not walkable, so no legal step reaches it.
        proof {
            assert(!step_allowed(*grid, (cx, cy), (nx, ny)));
        }
        return ;
    }
    let diagonal = dx != 0 && dy != 0;
    if diagonal {
        // No corner-cutting: both orthogonal neighbors of the corner must be
        // walkable.
        if !grid.get(nx, cy) || !grid.get(cx, ny) {
            proof {
                assert(nx != cx && ny != cy);
                assert(!step_allowed(*grid, (cx, cy), (nx, ny)));
            }
            return ;
        }
    }
    proof {
        assert(step_allowed(*grid, (cx, cy), (nx, ny)));
    }
    relax_neighbor(
        grid,
        g_score,
        parent,
        open,
        next_order,
        width,
        height,
        area,
        sidx,
        cx,
        cy,
        nx,
        ny,
        diagonal,
        end_x,
        end_y,
        closed,
        gbound,
    );
}

/// Records the cheaper of the neighbor's old cost and the cost through
/// `(cx, cy)`, pushing a fresh open-set entry when it improves.
#[allow(clippy::too_many_arguments)]
#[verifier::rlimit(100)]
#[verifier::spinoff_prover]
fn relax_neighbor(
    grid: &Grid,
    g_score: &mut Vec<u64>,
    parent: &mut Vec<usize>,
    open: &mut Vec<OpenNode>,
    next_order: &mut u128,
    width: usize,
    height: usize,
    area: usize,
    sidx: usize,
    cx: usize,
    cy: usize,
    nx: usize,
    ny: usize,
    diagonal: bool,
    end_x: usize,
    end_y: usize,
    closed: Ghost<Seq<bool>>,
    gbound: Ghost<int>,
)
    requires
        grid.wf(),
        width == grid.spec_width(),
        height == grid.spec_height(),
        width <= MAX_GRID_DIM,
        height <= MAX_GRID_DIM,
        area == width * height,
        nodes_inv(*grid, old(g_score)@, old(parent)@, width as int, area as int, sidx as int),
        open_inv(old(open)@, old(g_score)@, width as int, height as int),
        unclosed_covered(old(open)@, old(g_score)@, closed@, width as int, area as int),
        cx < width,
        cy < height,
        nx < width,
        ny < height,
        end_x < width,
        end_y < height,
        step_allowed(*grid, (cx, cy), (nx, ny)),
        old(g_score)@[cy * width + cx] < u64::MAX,
        old(g_score)@[cy * width + cx] + 1414 <= gbound@,
        gbound@ < u64::MAX,
        forall|i: int|
            0 <= i < area && (#[trigger] old(g_score)@[i]) < u64::MAX ==> old(g_score)@[i]
                <= gbound@,
    ensures
        final(g_score)@.len() == area,
        final(parent)@.len() == area,
        nodes_inv(*grid, final(g_score)@, final(parent)@, width as int, area as int, sidx as int),
        open_inv(final(open)@, final(g_score)@, width as int, height as int),
        unclosed_covered(final(open)@, final(g_score)@, closed@, width as int, area as int),
        final(open)@.len() <= old(open)@.len() + 1,
        forall|i: int| 0 <= i < area ==> final(g_score)@[i] <= old(g_score)@[i],
        forall|i: int|
            0 <= i < area && (#[trigger] final(g_score)@[i]) < u64::MAX ==> final(g_score)@[i]
                <= gbound@,
        final(g_score)@[ny * width + nx] < u64::MAX,
{
    proof {
        lemma_flat_cell(width as int, height as int, cx as int, cy as int);
        lemma_flat_cell(width as int, height as int, nx as int, ny as int);
    }
    let cur = cy * width + cx;
    let nidx = ny * width + nx;
    let cost: u64 = if diagonal {
        DIAG_COST
    } else {
        ORTHO_COST
    };
    let g_cur = g_score[cur];
    let ng = match g_cur.checked_add(cost) {
        Some(v) => v,
        None => {
            // Unreachable: the recorded cost is bounded away from overflow.
            proof {
                assert(false);
            }
            return ;
        },
    };
    if ng < g_score[nidx] {
        proof {
            // The neighbor is a different cell, hence a different index.
            assert(cur != nidx);
            assert(ng < u64::MAX);
        }
        let ghost gs_old = g_score@;
        let ghost par_old = parent@;
        let ghost open_old = open@;
        g_score[nidx] = ng;
        parent[nidx] = cur;
        let h = octile(nx, ny, end_x, end_y);
        let f = (ng as u128) + h;
        let entry = OpenNode { f, h, order: *next_order, x: nx, y: ny };
        open.push(entry);
        *next_order = next_order.wrapping_add(1);
        proof {
            lemma_update_nodes_inv(
                *grid,
                gs_old,
                par_old,
                g_score@,
                parent@,
                width as int,
                area as int,
                sidx as int,
                cur,
                nidx,
                ng,
            );
            lemma_open_inv_push(
                open_old,
                open@,
                gs_old,
                g_score@,
                width as int,
                height as int,
                entry,
            );
            lemma_covered_after_improve(
                open_old,
                open@,
                gs_old,
                g_score@,
                closed@,
                width as int,
                area as int,
                nidx as int,
                entry,
            );
        }
    } else {
        proof {
            assert(g_score@[nidx as int] <= ng < u64::MAX);
        }
    }
}

/// Walks the parent links backward from the goal and reverses the result
/// into a path from start to goal.
#[allow(clippy::too_many_arguments)]
#[verifier::rlimit(100)]
#[verifier::spinoff_prover]
fn reconstruct(
    grid: &Grid,
    g_score: &Vec<u64>,
    parent: &Vec<usize>,
    width: usize,
    height: usize,
    area: usize,
    sidx: usize,
    eidx: usize,
    start: (usize, usize),
    end: (usize, usize),
) -> (r: Vec<(usize, usize)>)
    requires
        grid.wf(),
        width == grid.spec_width(),
        height == grid.spec_height(),
        area == width * height,
        nodes_inv(*grid, g_score@, parent@, width as int, area as int, sidx as int),
        eidx < area,
        g_score@[eidx as int] < u64::MAX,
        idx_cell(width as int, sidx as int) == start,
        idx_cell(width as int, eidx as int) == end,
        cell_walkable(*grid, start),
    ensures
        valid_path(*grid, start, end, r@),
{
    let mut rev: Vec<(usize, usize)> = Vec::new();
    let mut cur = eidx;
    rev.push((cur % width, cur / width));
    while parent[cur] != area
        invariant
            grid.wf(),
            width == grid.spec_width(),
            height == grid.spec_height(),
            area == width * height,
            nodes_inv(*grid, g_score@, parent@, width as int, area as int, sidx as int),
            cur < area,
            g_score@[cur as int] < u64::MAX,
            rev@.len() >= 1,
            rev@[0] == end,
            rev@[rev@.len() - 1] == idx_cell(width as int, cur as int),
            forall|k: int|
                0 <= k < rev@.len() - 1 ==> step_allowed(*grid, rev@[k + 1], #[trigger] rev@[k]),
        decreases g_score@[cur as int],
    {
        let p = parent[cur];
        rev.push((p % width, p / width));
        cur = p;
    }
    proof {
        assert(cur == sidx);
        assert(rev@[rev@.len() - 1] == start);
    }
    let n = rev.len();
    let mut path: Vec<(usize, usize)> = Vec::new();
    let mut k = n;
    while k > 0
        invariant
            k <= n,
            n == rev@.len(),
            path@.len() == n - k,
            forall|j: int| 0 <= j < path@.len() ==> path@[j] == rev@[n - 1 - j],
        decreases k,
    {
        k = k - 1;
        path.push(rev[k]);
    }
    proof {
        assert(path@.len() == n);
        assert(path@[0] == rev@[n - 1]);
        assert(path@[n - 1] == rev@[0]);
        assert forall|i: int| 0 <= i < path@.len() - 1 implies step_allowed(
            *grid,
            path@[i],
            #[trigger] path@[i + 1],
        ) by {
            assert(path@[i] == rev@[n - 1 - i]);
            assert(path@[i + 1] == rev@[n - 2 - i]);
            assert(step_allowed(*grid, rev@[(n - 2 - i) + 1], rev@[n - 2 - i]));
        }
    }
    path
}

/// A* search from `(start_x, start_y)` to `(end_x, end_y)` over a
/// walkability grid (`true` is walkable). Moves are 8-directional with unit
/// orthogonal cost and square-root-of-two diagonal cost; diagonal moves may
/// not cut corners. The open set is ordered by `f`, then `h`, then insertion
/// order, so results are deterministic. `max_explored` bounds the number of
/// nodes popped from the open set.
#[verifier::rlimit(100)]
pub fn calculate_pathfinding(
    start_x: usize,
    start_y: usize,
    end_x: usize,
    end_y: usize,
    grid: &Grid,
    max_explored: Option<usize>,
) -> (r: Result<Vec<(usize, usize)>, CoreError>)
    requires
        grid.wf(),
        grid.spec_width() <= MAX_GRID_DIM,
        grid.spec_height() <= MAX_GRID_DIM,
        grid.spec_width() * grid.spec_height() <= usize::MAX,
    ensures
        r == Err::<Vec<(usize, usize)>, CoreError>(CoreError::InvalidCoordinate) <==> !(start_x
            < grid.spec_width() && start_y < grid.spec_height() && end_x < grid.spec_width()
            && end_y < grid.spec_height()),
        (start_x < grid.spec_width() && start_y < grid.spec_height() && end_x < grid.spec_width()
            && end_y < grid.spec_height()) ==> (r == Err::<Vec<(usize, usize)>, CoreError>(
            CoreError::UnwalkableEndpoint,
        ) <==> !(cell_walkable(*grid, (start_x, start_y)) && cell_walkable(
            *grid,
            (end_x, end_y),
        ))),
        r matches Ok(p) ==> valid_path(*grid, (start_x, start_y), (end_x, end_y), p@),
        r matches Ok(p) ==> p@.len() >= chebyshev((start_x, start_y), (end_x, end_y)) + 1,
        cell_walkable(*grid, (start_x, start_y)) && start_x == end_x && start_y == end_y ==> (
        r matches Ok(p) && p@ =~= seq![(start_x, start_y)]),
        r matches Err(e) ==> (e == CoreError::InvalidCoordinate || e
            == CoreError::UnwalkableEndpoint || e == CoreError::NoPathFound || e
            == CoreError::SearchBudgetExceeded),
        r == Err::<Vec<(usize, usize)>, CoreError>(CoreError::SearchBudgetExceeded)
            ==> max_explored is Some,
        r == Err::<Vec<(usize, usize)>, CoreError>(CoreError::NoPathFound) ==> !(exists|
            p: Seq<(usize, usize)>,
        | valid_path(*grid, (start_x, start_y), (end_x, end_y), p)),
        (exists|p: Seq<(usize, usize)>| valid_path(*grid, (start_x, start_y), (end_x, end_y), p))
            ==> (r is Ok || r == Err::<Vec<(usize, usize)>, CoreError>(
            CoreError::SearchBudgetExceeded,
        )),
        (max_explored is None && (exists|p: Seq<(usize, usize)>|
            valid_path(*grid, (start_x, start_y), (end_x, end_y), p))) ==> r is Ok,
{
    let width = grid.width();
    let height = grid.height();
    if !(start_x < width && start_y < height && end_x < width && end_y < height) {
        proof {
            if exists|p: Seq<(usize, usize)>|
                valid_path(*grid, (start_x, start_y), (end_x, end_y), p) {
                let p = choose|p: Seq<(usize, usize)>|
                    valid_path(*grid, (start_x, start_y), (end_x, end_y), p);
                lemma_path_cells_walkable(*grid, (start_x, start_y), (end_x, end_y), p);
                assert(cell_walkable(*grid, p[0]));
                assert(cell_walkable(*grid, p[p.len() - 1]));
                assert(false);
            }
        }
        return Err(CoreError::InvalidCoordinate);
    }
    if !grid.get(start_x, start_y) || !grid.get(end_x, end_y) {
        proof {
            if exists|p: Seq<(usize, usize)>|
                valid_path(*grid, (start_x, start_y), (end_x, end_y), p) {
                let p = choose|p: Seq<(usize, usize)>|
                    valid_path(*grid, (start_x, start_y), (end_x, end_y), p);
                lemma_path_cells_walkable(*grid, (start_x, start_y), (end_x, end_y), p);
                assert(cell_walkable(*grid, p[0]));
                assert(cell_walkable(*grid, p[p.len() - 1]));
                assert(false);
            }
        }
        return Err(CoreError::UnwalkableEndpoint);
    }
    if start_x == end_x && start_y == end_y {
        let mut p: Vec<(usize, usize)> = Vec::new();
        p.push((start_x, start_y));
        return Ok(p);
    }
    proof {
        lemma_flat_cell(width as int, height as int, start_x as int, start_y as int);
        lemma_flat_cell(width as int, height as int, end_x as int, end_y as int);
    }
    let area = width * height;
    let sidx = start_y * width + start_x;
    let eidx = end_y * width + end_x;
    let mut g_score: Vec<u64> = filled(area, u64::MAX);
    let mut parent: Vec<usize> = filled(area, area);
    let mut closed: Vec<bool> = filled(area, false);
    let mut open: Vec<OpenNode> = Vec::new();
    g_score[sidx] = 0;
    let h0 = octile(start_x, start_y, end_x, end_y);
    open.push(OpenNode { f: h0, h: h0, order: 0, x: start_x, y: start_y });
    let mut next_order: u128 = 1;
    let mut pops: u128 = 0;
    let ghost mut unclosed: Set<int> = set_int_range(0, area as int);
    proof {
        lemma_int_range(0, area as int);
        lemma_mul_le(width as int, height as int, 1_000_000, 1_000_000);
        assert(area <= 1_000_000_000_000);
        assert forall|i: int|
            0 <= i < area && (#[trigger] g_score@[i]) < u64::MAX implies g_score@[i] <= 1414 * (
        area - unclosed.len()) by {
            assert(i == sidx as int);
            assert(g_score@[i] == 0);
        }
        assert(open@[0].y * (width as int) + open@[0].x == sidx as int);
        assert forall|i: int|
            0 <= i < area && (#[trigger] g_score@[i]) < u64::MAX && !closed@[i] implies open_has_entry(
            open@,
            width as int,
            i,
        ) by {
            assert(i == sidx as int);
            assert(open@[0].y * (width as int) + open@[0].x == i);
        }
        assert forall|a: (usize, usize), b: (usize, usize)|
            a.0 < grid.spec_width() && a.1 < grid.spec_height() && closed@[(a.1 as int) * (
        width as int) + a.0 as int] && #[trigger] step_allowed(*grid, a, b) implies g_score@[(
        b.1 as int) * (width as int) + b.0 as int] < u64::MAX by {
            lemma_flat_cell(width as int, height as int, a.0 as int, a.1 as int);
            assert(!closed@[(a.1 as int) * (width as int) + a.0 as int]);
            assert(false);
        }
        assert(closed_expanded(*grid, g_score@, closed@, width as int));
    }
    while open.len() > 0
        invariant
            grid.wf(),
            width == grid.spec_width(),
            height == grid.spec_height(),
            width <= MAX_GRID_DIM,
            height <= MAX_GRID_DIM,
            area == width * height,
            sidx < area,
            eidx < area,
            sidx == start_y * width + start_x,
            eidx == end_y * width + end_x,
            !(start_x == end_x && start_y == end_y),
            idx_cell(width as int, sidx as int) == (start_x, start_y),
            idx_cell(width as int, eidx as int) == (end_x, end_y),
            cell_walkable(*grid, (start_x, start_y)),
            cell_walkable(*grid, (end_x, end_y)),
            nodes_inv(*grid, g_score@, parent@, width as int, area as int, sidx as int),
            open_inv(open@, g_score@, width as int, height as int),
            closed@.len() == area,
            unclosed.finite(),
            forall|i: int| 0 <= i < area ==> (!closed@[i] <==> unclosed.contains(i)),
            pops + open@.len() + 9 * unclosed.len() <= 1 + 9 * (area as int),
            area <= 1_000_000_000_000,
            unclosed.subset_of(set_int_range(0, area as int)),
            forall|i: int|
                0 <= i < area && (#[trigger] g_score@[i]) < u64::MAX ==> g_score@[i] <= 1414 * (
                area - unclosed.len()),
            unclosed_covered(open@, g_score@, closed@, width as int, area as int),
            closed_expanded(*grid, g_score@, closed@, width as int),
            g_score@[sidx as int] < u64::MAX,
            !closed@[eidx as int],
        decreases open@.len() + 9 * unclosed.len(),
    {
        match max_explored {
            Some(m) => {
                if pops >= m as u128 {
                    return Err(CoreError::SearchBudgetExceeded);
                }
            },
            None => {},
        }
        // Deterministic pop: least (f, h, order).
        let mut best: usize = 0;
        let mut bi: usize = 1;
        while bi < open.len()
            invariant
                open@.len() > 0,
                best < open@.len(),
                bi <= open@.len(),
            decreases open@.len() - bi,
        {
            let better = open[bi].f < open[best].f || (open[bi].f == open[best].f && (open[bi].h
                < open[best].h || (open[bi].h == open[best].h && open[bi].order
                < open[best].order)));
            if better {
                best = bi;
            }
            bi = bi + 1;
        }
        let ghost open_before = open@;
        let node = open.swap_remove(best);
        pops = pops + 1;
        proof {
            assert forall|k: int| 0 <= k < open@.len() implies {
                let e = #[trigger] open@[k];
                &&& e.x < width as int
                &&& e.y < height as int
                &&& 0 <= e.y * (width as int) + e.x < g_score@.len()
                &&& g_score@[e.y * (width as int) + e.x] < u64::MAX
            } by {
                if k == best as int {
                    assert(open@[k] == open_before[open_before.len() - 1]);
                } else {
                    assert(open@[k] == open_before[k]);
                }
            }
            lemma_flat_cell(width as int, height as int, node.x as int, node.y as int);
        }
        let cur = node.y * width + node.x;
        if closed[cur] {
            proof {
                lemma_covered_after_pop(
                    open_before,
                    open@,
                    g_score@,
                    closed@,
                    width as int,
                    area as int,
                    best as int,
                    cur as int,
                );
            }
            continue ;
        }
        let ghost old_closed_snap = closed@;
        closed[cur] = true;
        proof {
            assert(unclosed.contains(cur as int));
            axiom_set_remove_len(unclosed, cur as int);
            axiom_set_remove_finite(unclosed, cur as int);
            unclosed = unclosed.remove(cur as int);
            assert(unclosed.subset_of(set_int_range(0, area as int)));
            lemma_int_range(0, area as int);
            lemma_len_subset(unclosed, set_int_range(0, area as int));
            assert(unclosed.len() <= area);
            assert forall|i: int|
                0 <= i < area && (#[trigger] g_score@[i]) < u64::MAX && !closed@[i] implies open_has_entry(
                open_before,
                width as int,
                i,
            ) by {
                assert(!old_closed_snap[i]);
            }
            lemma_covered_after_pop(
                open_before,
                open@,
                g_score@,
                closed@,
                width as int,
                area as int,
                best as int,
                cur as int,
            );
        }
        if node.x == end_x && node.y == end_y {
            proof {
                assert(cur == eidx);
            }
            let path = reconstruct(
                grid,
                &g_score,
                &parent,
                width,
                height,
                area,
                sidx,
                eidx,
                (start_x, start_y),
                (end_x, end_y),
            );
            proof {
                lemma_path_at_least_chebyshev(
                    *grid,
                    (start_x, start_y),
                    (end_x, end_y),
                    path@,
                );
            }
            return Ok(path);
        }
        proof {
            assert(cur != eidx);
            lemma_int_range(0, area as int);
            lemma_len_subset(unclosed, set_int_range(0, area as int));
            lemma_mul_le(1414, area - unclosed.len(), 1414, 1_000_000_000_000);
        }
        let ghost gb: int = 1414 * ((area as int) - unclosed.len());
        let ghost gs_s1 = g_score@;
        try_step(
            grid,
            &mut g_score,
            &mut parent,
            &mut open,
            &mut next_order,
            width,
            height,
            area,
            sidx,
            node.x,
            node.y,
            -1,
            -1,
            end_x,
            end_y,
            Ghost(closed@),
            Ghost(gb),
        );
        let ghost gs_s2 = g_score@;
        try_step(
            grid,
            &mut g_score,
            &mut parent,
            &mut open,
            &mut next_order,
            width,
            height,
            area,
            sidx,
            node.x,
            node.y,
            0,
            -1,
            end_x,
            end_y,
            Ghost(closed@),
            Ghost(gb),
        );
        let ghost gs_s3 = g_score@;
        try_step(
            grid,
            &mut g_score,
            &mut parent,
            &mut open,
            &mut next_order,
            width,
            height,
            area,
            sidx,
            node.x,
            node.y,
            1,
            -1,
            end_x,
            end_y,
            Ghost(closed@),
            Ghost(gb),
        );
        let ghost gs_s4 = g_score@;
        try_step(
            grid,
            &mut g_score,
            &mut parent,
            &mut open,
            &mut next_order,
            width,
            height,
            area,
            sidx,
            node.x,
            node.y,
            -1,
            0,
            end_x,
            end_y,
            Ghost(closed@),
            Ghost(gb),
        );
        let ghost gs_s5 = g_score@;
        try_step(
            grid,
            &mut g_score,
            &mut parent,
            &mut open,
            &mut next_order,
            width,
            height,
            area,
            sidx,
            node.x,
            node.y,
            1,
            0,
            end_x,
            end_y,
            Ghost(closed@),
            Ghost(gb),
        );
        let ghost gs_s6 = g_score@;
        try_step(
            grid,
            &mut g_score,
            &mut parent,
            &mut open,
            &mut next_order,
            width,
            height,
            area,
            sidx,
            node.x,
            node.y,
            -1,
            1,
            end_x,
            end_y,
            Ghost(closed@),
            Ghost(gb),
        );
        let ghost gs_s7 = g_score@;
        try_step(
            grid,
            &mut g_score,
            &mut parent,
            &mut open,
            &mut next_order,
            width,
            height,
            area,
            sidx,
            node.x,
            node.y,
            0,
            1,
            end_x,
            end_y,
            Ghost(closed@),
            Ghost(gb),
        );
        let ghost gs_s8 = g_score@;
        try_step(
            grid,
            &mut g_score,
            &mut parent,
            &mut open,
            &mut next_order,
            width,
            height,
            area,
            sidx,
            node.x,
            node.y,
            1,
            1,
            end_x,
            end_y,
            Ghost(closed@),
            Ghost(gb),
        );
        proof {
            let w = width as int;
            lemma_expansion_records_neighbors(
                *grid,
                w,
                height as int,
                area as int,
                node.x,
                node.y,
                gs_s1,
                gs_s2,
                gs_s3,
                gs_s4,
                gs_s5,
                gs_s6,
                gs_s7,
                gs_s8,
                g_score@,
            );
            assert forall|a: (usize, usize), b: (usize, usize)|
                a.0 < grid.spec_width() && a.1 < grid.spec_height() && closed@[(a.1 as int) * w
                    + a.0 as int] && #[trigger] step_allowed(*grid, a, b) implies g_score@[(
            b.1 as int) * w + b.0 as int] < u64::MAX by {
                lemma_flat_cell(w, height as int, a.0 as int, a.1 as int);
                assert(cell_walkable(*grid, b));
                lemma_flat_cell(w, height as int, b.0 as int, b.1 as int);
                let bi = (b.1 as int) * w + b.0 as int;
                if (a.1 as int) * w + a.0 as int == cur as int {
                    assert(a == (node.x, node.y));
                    assert(step_allowed(*grid, (node.x, node.y), b));
                } else {
                    assert(old_closed_snap[(a.1 as int) * w + a.0 as int]);
                    assert(gs_s1[bi] < u64::MAX);
                    assert(g_score@[bi] <= gs_s1[bi]);
                }
            }
            assert(closed_expanded(*grid, g_score@, closed@, width as int));
            assert(g_score@[sidx as int] <= gs_s1[sidx as int]);
        }
    }
    proof {
        let w = width as int;
        assert forall|a: (usize, usize), b: (usize, usize)|
            a.0 < grid.spec_width() && a.1 < grid.spec_height() && g_score@[(a.1 as int) * w
                + a.0 as int] < u64::MAX && #[trigger] step_allowed(*grid, a, b) implies g_score@[(
        b.1 as int) * w + b.0 as int] < u64::MAX by {
            lemma_flat_cell(w, height as int, a.0 as int, a.1 as int);
            let ai = (a.1 as int) * w + a.0 as int;
            if !closed@[ai] {
                assert(open_has_entry(open@, w, ai));
                let k = choose|k: int|
                    0 <= k < open@.len() && (#[trigger] open@[k]).y * w + open@[k].x == ai;
                assert(false);
            }
        }
        if exists|p: Seq<(usize, usize)>|
            valid_path(*grid, (start_x, start_y), (end_x, end_y), p) {
            let p = choose|p: Seq<(usize, usize)>|
                valid_path(*grid, (start_x, start_y), (end_x, end_y), p);
            lemma_reachable_recorded(
                *grid,
                g_score@,
                w,
                (start_x, start_y),
                (end_x, end_y),
                p,
            );
            assert(g_score@[eidx as int] < u64::MAX);
            assert(open_has_entry(open@, w, eidx as int));
            let k = choose|k: int|
                0 <= k < open@.len() && (#[trigger] open@[k]).y * w + open@[k].x == eidx as int;
            assert(false);
        }
    }
    Err(CoreError::NoPathFound)
}
/// Every cell of a valid path is inside the grid and walkable: the first by
/// assumption, each later one as the target of a legal move.
pub proof fn lemma_path_cells_walkable(
    g: Grid,
    s: (usize, usize),
    e: (usize, usize),
    p: Seq<(usize, usize)>,
)
    requires
        valid_path(g, s, e, p),
    ensures
        forall|i: int| 0 <= i < p.len() ==> cell_walkable(g, #[trigger] p[i]),
{
    assert forall|i: int| 0 <= i < p.len() implies cell_walkable(g, #[trigger] p[i]) by {
        if i == 0 {
            assert(p[0] == s);
        } else {
            assert(step_allowed(g, p[i - 1], p[(i - 1) + 1]));
        }
    }
}

/// Any path of 8-directional moves from `s` to `e` holds at least the
/// Chebyshev distance plus one cells: each step changes each coordinate by
/// at most one.
pub proof fn lemma_path_at_least_chebyshev(
    g: Grid,
    s: (usize, usize),
    e: (usize, usize),
    p: Seq<(usize, usize)>,
)
    requires
        valid_path(g, s, e, p),
    ensures
        p.len() >= chebyshev(s, e) + 1,
    decreases p.len(),
{
    if p.len() == 1 {
        assert(chebyshev(s, e) == 0);
    } else {
        let q = p.subrange(1, p.len() as int);
        assert(step_allowed(g, p[0], p[1]));
        assert(q[q.len() - 1] == p[p.len() - 1]);
        assert forall|i: int| 0 <= i < q.len() - 1 implies step_allowed(
            g,
            q[i],
            #[trigger] q[i + 1],
        ) by {
            assert(q[i] == p[i + 1]);
            assert(q[i + 1] == p[i + 2]);
            assert(step_allowed(g, p[i + 1], p[(i + 1) + 1]));
        }
        assert(valid_path(g, p[1], e, q));
        lemma_path_at_least_chebyshev(g, p[1], e, q);
        assert(chebyshev(s, e) <= chebyshev(p[1], e) + 1);
    }
}

} // verus!
