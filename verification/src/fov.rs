//! Field-of-view computation by recursive shadowcasting over the eight
//! octants, with exact rational slope arithmetic and a true Euclidean
//! radius test.

use vstd::prelude::*;
use vstd::arithmetic::div_mod::lemma_fundamental_div_mod_converse;
use crate::errors::CoreError;
use crate::grid::Grid;

verus! {

/// Upper bound on grid dimensions and radius, so that every slope product
/// and squared distance fits comfortably in 64 bits.
pub const MAX_FOV_DIM: usize = 1_000_000;

/// Largest magnitude a slope numerator or denominator can take: cell edge
/// slopes are ratios of values at most `2 * MAX_FOV_DIM + 1`.
pub const SLOPE_BOUND: i64 = 2_000_001;

/// Squared Euclidean distance between the origin and a cell.
pub open spec fn dist2(ox: int, oy: int, x: int, y: int) -> int {
    (x - ox) * (x - ox) + (y - oy) * (y - oy)
}

/// One shadowcasting pass only adds visibility, keeps the dimensions, and
/// never marks a cell farther than the radius from the origin.
pub open spec fn shadow_step(pre: Grid, post: Grid, ox: int, oy: int, radius: int) -> bool {
    &&& post.wf()
    &&& post.spec_width() == pre.spec_width()
    &&& post.spec_height() == pre.spec_height()
    &&& forall|y: int, x: int|
        0 <= y < pre.spec_height() && 0 <= x < pre.spec_width() && pre.cells()[y][x]
            ==> #[trigger] post.cells()[y][x]
    &&& forall|y: int, x: int|
        0 <= y < pre.spec_height() && 0 <= x < pre.spec_width() && #[trigger] post.cells()[y][x]
            ==> pre.cells()[y][x] || dist2(ox, oy, x, y) <= radius * radius
}

proof fn lemma_shadow_step_trans(a: Grid, b: Grid, c: Grid, ox: int, oy: int, radius: int)
    requires
        shadow_step(a, b, ox, oy, radius),
        shadow_step(b, c, ox, oy, radius),
    ensures
        shadow_step(a, c, ox, oy, radius),
{
    assert forall|y: int, x: int|
        0 <= y < a.spec_height() && 0 <= x < a.spec_width() && a.cells()[y][x] implies #[trigger] c.cells()[y][x] by {
        assert(b.cells()[y][x]);
    }
    assert forall|y: int, x: int|
        0 <= y < a.spec_height() && 0 <= x < a.spec_width() && #[trigger] c.cells()[y][x] implies a.cells()[y][x]
            || dist2(ox, oy, x, y) <= radius * radius by {
        assert(b.cells()[y][x] ==> a.cells()[y][x] || dist2(ox, oy, x, y) <= radius * radius);
    }
}

proof fn lemma_abs_square(t: int, m: int)
    by (nonlinear_arith)
    requires
        m == if t >= 0 { t } else { -t },
    ensures
        m * m == t * t,
{
}

proof fn lemma_bounded_mul(a: int, b: int, m: int)
    by (nonlinear_arith)
    requires
        -m <= a <= m,
        0 <= b <= m,
    ensures
        -(m * m) <= a * b <= m * m,
{
}

proof fn lemma_square_le(a: int, m: int)
    by (nonlinear_arith)
    requires
        0 <= a <= m,
    ensures
        0 <= a * a <= m * m,
{
}

proof fn lemma_zero_dist(ox: int, oy: int)
    by (nonlinear_arith)
    ensures
        dist2(ox, oy, ox, oy) == 0,
{
}

proof fn lemma_unit_mul_bound(v: int, m: int)
    by (nonlinear_arith)
    requires
        0 <= v,
        -1 <= m <= 1,
    ensures
        -v <= v * m <= v,
{
}

/// A neighbor of the origin at offset `(dx, dy)` is marked visible whenever
/// it lies inside the grid and inside the radius: a cell touching the origin
/// can never be occluded.
pub open spec fn neighbor_seen(v: Grid, ox: int, oy: int, radius: int, dx: int, dy: int) -> bool {
    (0 <= ox + dx < v.spec_width() && 0 <= oy + dy < v.spec_height() && dist2(
        ox,
        oy,
        ox + dx,
        oy + dy,
    ) <= radius * radius) ==> v.cells()[oy + dy][ox + dx]
}

/// The neighbor guarantee is monotone in the radius: a grid that meets the
/// guarantee for a larger radius lights every in-bounds neighbor cell that a
/// smaller radius would demand.
pub proof fn lemma_neighbor_guarantee_monotone(
    v: Grid,
    ox: int,
    oy: int,
    r_small: int,
    r_large: int,
    dx: int,
    dy: int,
)
    requires
        0 <= r_small <= r_large,
        neighbor_seen(v, ox, oy, r_large, dx, dy),
        0 <= ox + dx < v.spec_width(),
        0 <= oy + dy < v.spec_height(),
        dist2(ox, oy, ox + dx, oy + dy) <= r_small * r_small,
    ensures
        v.cells()[oy + dy][ox + dx],
{
    lemma_square_le(r_small, r_large);
}

/// One of the four cardinal unit directions.
pub open spec fn unit_dir(sx: int, sy: int) -> bool {
    ||| (sx == 1 && sy == 0)
    ||| (sx == -1 && sy == 0)
    ||| (sx == 0 && sy == 1)
    ||| (sx == 0 && sy == -1)
}

/// The first `k - 1` cells along a cardinal ray from the origin are inside
/// the grid and transparent.
pub open spec fn axis_clear_to(g: Grid, ox: int, oy: int, sx: int, sy: int, k: int) -> bool {
    forall|i: int|
        1 <= i < k ==> (0 <= ox + i * sx < g.spec_width() && 0 <= oy + i * sy < g.spec_height()
            && !(#[trigger] g.cells()[oy + i * sy][ox + i * sx]))
}

/// The cell `k` steps along a cardinal ray is marked visible whenever it is
/// inside the grid and the radius and every cell strictly between it and the
/// origin is transparent: an unobstructed cardinal sight line is seen up to
/// and including its first blocker.
pub open spec fn axis_seen(
    v: Grid,
    g: Grid,
    ox: int,
    oy: int,
    radius: int,
    sx: int,
    sy: int,
    k: int,
) -> bool {
    (1 <= k <= radius && 0 <= ox + k * sx < g.spec_width() && 0 <= oy + k * sy < g.spec_height()
        && axis_clear_to(g, ox, oy, sx, sy, k)) ==> v.cells()[oy + k * sy][ox + k * sx]
}

proof fn lemma_unit_ray_dist(ox: int, oy: int, sx: int, sy: int, k: int)
    by (nonlinear_arith)
    requires
        unit_dir(sx, sy),
        0 <= k,
    ensures
        dist2(ox, oy, ox + k * sx, oy + k * sy) == k * k,
{
}

/// A pass that only adds visibility keeps every neighbor guarantee.
proof fn lemma_ring_preserved(pre: Grid, post: Grid, ox: int, oy: int, radius: int)
    requires
        shadow_step(pre, post, ox, oy, radius),
        forall|dx: int, dy: int|
            -1 <= dx <= 1 && -1 <= dy <= 1 ==> neighbor_seen(pre, ox, oy, radius, dx, dy),
    ensures
        forall|dx: int, dy: int|
            -1 <= dx <= 1 && -1 <= dy <= 1 ==> neighbor_seen(post, ox, oy, radius, dx, dy),
{
    assert forall|dx: int, dy: int|
        -1 <= dx <= 1 && -1 <= dy <= 1 implies neighbor_seen(post, ox, oy, radius, dx, dy) by {
        if 0 <= ox + dx < post.spec_width() && 0 <= oy + dy < post.spec_height() && dist2(
            ox,
            oy,
            ox + dx,
            oy + dy,
        ) <= radius * radius {
            assert(neighbor_seen(pre, ox, oy, radius, dx, dy));
            assert(pre.cells()[oy + dy][ox + dx]);
            assert(post.cells()[oy + dy][ox + dx]);
        }
    }
}

/// A pass that only adds visibility keeps every cardinal sight-line
/// guarantee.
proof fn lemma_axis_preserved(
    pre: Grid,
    post: Grid,
    g: Grid,
    ox: int,
    oy: int,
    radius: int,
    sx: int,
    sy: int,
)
    requires
        shadow_step(pre, post, ox, oy, radius),
        pre.spec_width() == g.spec_width(),
        pre.spec_height() == g.spec_height(),
        forall|k: int| axis_seen(pre, g, ox, oy, radius, sx, sy, k),
    ensures
        forall|k: int| axis_seen(post, g, ox, oy, radius, sx, sy, k),
{
    assert forall|k: int| axis_seen(post, g, ox, oy, radius, sx, sy, k) by {
        if 1 <= k <= radius && 0 <= ox + k * sx < g.spec_width() && 0 <= oy + k * sy
            < g.spec_height() && axis_clear_to(g, ox, oy, sx, sy, k) {
            assert(axis_seen(pre, g, ox, oy, radius, sx, sy, k));
            assert(pre.cells()[oy + k * sy][ox + k * sx]);
            assert(post.cells()[oy + k * sy][ox + k * sx]);
        }
    }
}

/// Marks the origin and its whole ring of neighbors, as far as they lie
/// inside the grid and the radius.
fn mark_ring(vis: &mut Grid, ox: usize, oy: usize, radius: usize)
    requires
        old(vis).wf(),
        ox < old(vis).spec_width(),
        oy < old(vis).spec_height(),
        old(vis).spec_width() <= MAX_FOV_DIM,
        old(vis).spec_height() <= MAX_FOV_DIM,
        radius <= MAX_FOV_DIM,
    ensures
        shadow_step(*old(vis), *final(vis), ox as int, oy as int, radius as int),
        forall|dx: int, dy: int|
            -1 <= dx <= 1 && -1 <= dy <= 1 ==> neighbor_seen(
                *final(vis),
                ox as int,
                oy as int,
                radius as int,
                dx,
                dy,
            ),
{
    let mut t: usize = 0;
    while t < 9
        invariant
            vis.wf(),
            ox < vis.spec_width(),
            oy < vis.spec_height(),
            vis.spec_width() <= MAX_FOV_DIM,
            vis.spec_height() <= MAX_FOV_DIM,
            radius <= MAX_FOV_DIM,
            t <= 9,
            shadow_step(*old(vis), *vis, ox as int, oy as int, radius as int),
            forall|dx: int, dy: int|
                -1 <= dx <= 1 && -1 <= dy <= 1 && (dx + 1) * 3 + (dy + 1) < t
                    ==> neighbor_seen(*vis, ox as int, oy as int, radius as int, dx, dy),
        decreases 9 - t,
    {
        let dx: i64 = (t / 3) as i64 - 1;
        let dy: i64 = (t % 3) as i64 - 1;
        let ghost pre = *vis;
        mark_neighbor(vis, ox, oy, radius, dx, dy);
        proof {
            lemma_shadow_step_trans(*old(vis), pre, *vis, ox as int, oy as int, radius as int);
            assert forall|ax: int, ay: int|
                -1 <= ax <= 1 && -1 <= ay <= 1 && (ax + 1) * 3 + (ay + 1) < t + 1 implies neighbor_seen(
                *vis,
                ox as int,
                oy as int,
                radius as int,
                ax,
                ay,
            ) by {
                if (ax + 1) * 3 + (ay + 1) == t {
                    lemma_fundamental_div_mod_converse(t as int, 3, ax + 1, ay + 1);
                    assert(ax == dx as int && ay == dy as int);
                } else {
                    assert(neighbor_seen(pre, ox as int, oy as int, radius as int, ax, ay));
                    if 0 <= ox + ax < vis.spec_width() && 0 <= oy + ay < vis.spec_height()
                        && dist2(ox as int, oy as int, ox + ax, oy + ay) <= (radius as int) * (
                    radius as int) {
                        assert(pre.cells()[oy + ay][ox + ax]);
                        assert(vis.cells()[oy + ay][ox + ax]);
                    }
                }
            }
        }
        t = t + 1;
    }
}

/// Walks one cardinal ray outward, marking each cell inside the grid and the
/// radius until just after the first opaque cell.
fn mark_axis(vis: &mut Grid, grid: &Grid, ox: usize, oy: usize, radius: usize, sx: i64, sy: i64)
    requires
        grid.wf(),
        old(vis).wf(),
        old(vis).spec_width() == grid.spec_width(),
        old(vis).spec_height() == grid.spec_height(),
        grid.spec_width() <= MAX_FOV_DIM,
        grid.spec_height() <= MAX_FOV_DIM,
        radius <= MAX_FOV_DIM,
        ox < grid.spec_width(),
        oy < grid.spec_height(),
        unit_dir(sx as int, sy as int),
    ensures
        shadow_step(*old(vis), *final(vis), ox as int, oy as int, radius as int),
        forall|k: int|
            axis_seen(
                *final(vis),
                *grid,
                ox as int,
                oy as int,
                radius as int,
                sx as int,
                sy as int,
                k,
            ),
{
    let width = grid.width();
    let height = grid.height();
    let mut k: usize = 1;
    let mut done = false;
    while k <= radius && !done
        invariant
            grid.wf(),
            vis.wf(),
            vis.spec_width() == grid.spec_width(),
            vis.spec_height() == grid.spec_height(),
            width == grid.spec_width(),
            height == grid.spec_height(),
            grid.spec_width() <= MAX_FOV_DIM,
            grid.spec_height() <= MAX_FOV_DIM,
            radius <= MAX_FOV_DIM,
            ox < grid.spec_width(),
            oy < grid.spec_height(),
            unit_dir(sx as int, sy as int),
            1 <= k <= radius + 1,
            shadow_step(*old(vis), *vis, ox as int, oy as int, radius as int),
            !done ==> axis_clear_to(*grid, ox as int, oy as int, sx as int, sy as int, k as int),
            forall|j: int|
                j < k ==> axis_seen(
                    *vis,
                    *grid,
                    ox as int,
                    oy as int,
                    radius as int,
                    sx as int,
                    sy as int,
                    j,
                ),
            done ==> forall|j: int|
                axis_seen(
                    *vis,
                    *grid,
                    ox as int,
                    oy as int,
                    radius as int,
                    sx as int,
                    sy as int,
                    j,
                ),
        decreases radius + 1 - k + (if done { 0int } else { 1int }),
    {
        let tx: i64 = ox as i64 + (k as i64) * sx;
        let ty: i64 = oy as i64 + (k as i64) * sy;
        if !(0 <= tx && tx < width as i64 && 0 <= ty && ty < height as i64) {
            proof {
                assert forall|j: int|
                    axis_seen(
                        *vis,
                        *grid,
                        ox as int,
                        oy as int,
                        radius as int,
                        sx as int,
                        sy as int,
                        j,
                    ) by {
                    if j >= k {
                        if 1 <= j <= radius && 0 <= ox + j * (sx as int) < grid.spec_width() && 0
                            <= oy + j * (sy as int) < grid.spec_height() && axis_clear_to(
                            *grid,
                            ox as int,
                            oy as int,
                            sx as int,
                            sy as int,
                            j,
                        ) {
                            if j == k {
                                assert(false);
                            } else {
                                assert(!(0 <= ox + (k as int) * (sx as int) < grid.spec_width()
                                    && 0 <= oy + (k as int) * (sy as int)
                                    < grid.spec_height()));
                                assert(false);
                            }
                        }
                    } else {
                        assert(axis_seen(
                            *vis,
                            *grid,
                            ox as int,
                            oy as int,
                            radius as int,
                            sx as int,
                            sy as int,
                            j,
                        ));
                    }
                }
            }
            done = true;
        } else {
            let ux = tx as usize;
            let uy = ty as usize;
            proof {
                lemma_unit_ray_dist(ox as int, oy as int, sx as int, sy as int, k as int);
                lemma_square_le(k as int, radius as int);
            }
            let ghost pre = *vis;
            vis.set(ux, uy, true);
            proof {
                assert(dist2(ox as int, oy as int, ux as int, uy as int) <= (radius as int) * (
                radius as int));
                assert(shadow_step(pre, *vis, ox as int, oy as int, radius as int));
                lemma_shadow_step_trans(
                    *old(vis),
                    pre,
                    *vis,
                    ox as int,
                    oy as int,
                    radius as int,
                );
                assert forall|j: int|
                    j < k + 1 implies axis_seen(
                    *vis,
                    *grid,
                    ox as int,
                    oy as int,
                    radius as int,
                    sx as int,
                    sy as int,
                    j,
                ) by {
                    if j == k {
                        assert(vis.cells()[uy as int][ux as int]);
                    } else if j < k {
                        assert(axis_seen(
                            pre,
                            *grid,
                            ox as int,
                            oy as int,
                            radius as int,
                            sx as int,
                            sy as int,
                            j,
                        ));
                        if 1 <= j <= radius && 0 <= ox + j * (sx as int) < grid.spec_width() && 0
                            <= oy + j * (sy as int) < grid.spec_height() && axis_clear_to(
                            *grid,
                            ox as int,
                            oy as int,
                            sx as int,
                            sy as int,
                            j,
                        ) {
                            assert(pre.cells()[oy + j * (sy as int)][ox + j * (sx as int)]);
                            assert(vis.cells()[oy + j * (sy as int)][ox + j * (sx as int)]);
                        }
                    }
                }
            }
            if grid.get(ux, uy) {
                // The first opaque cell on the ray is itself visible but
                // ends the sight line.
                proof {
                    assert forall|j: int|
                        axis_seen(
                            *vis,
                            *grid,
                            ox as int,
                            oy as int,
                            radius as int,
                            sx as int,
                            sy as int,
                            j,
                        ) by {
                        if j > k {
                            if axis_clear_to(*grid, ox as int, oy as int, sx as int, sy as int, j) {
                                assert(!grid.cells()[oy + (k as int) * (sy as int)][ox + (
                                k as int) * (sx as int)]);
                                assert(false);
                            }
                        } else {
                            assert(axis_seen(
                                *vis,
                                *grid,
                                ox as int,
                                oy as int,
                                radius as int,
                                sx as int,
                                sy as int,
                                j,
                            ));
                        }
                    }
                }
                done = true;
            } else {
                proof {
                    assert forall|i: int|
                        1 <= i < k + 1 implies (0 <= ox + i * (sx as int) < grid.spec_width() && 0
                        <= oy + i * (sy as int) < grid.spec_height() && !(#[trigger] grid.cells()[oy
                        + i * (sy as int)][ox + i * (sx as int)])) by {
                        if i < k {
                            assert(axis_clear_to(
                                *grid,
                                ox as int,
                                oy as int,
                                sx as int,
                                sy as int,
                                k as int,
                            ));
                        }
                    }
                }
                k = k + 1;
            }
        }
    }
    proof {
        if !done {
            assert(k > radius);
            assert forall|j: int|
                axis_seen(
                    *vis,
                    *grid,
                    ox as int,
                    oy as int,
                    radius as int,
                    sx as int,
                    sy as int,
                    j,
                ) by {
                if 1 <= j <= radius {
                    assert(j < k);
                    assert(axis_seen(
                        *vis,
                        *grid,
                        ox as int,
                        oy as int,
                        radius as int,
                        sx as int,
                        sy as int,
                        j,
                    ));
                }
            }
        }
    }
}

/// Marks the origin's neighbor at offset `(dx, dy)` if it lies inside the
/// grid and the radius.
fn mark_neighbor(vis: &mut Grid, ox: usize, oy: usize, radius: usize, dx: i64, dy: i64)
    requires
        old(vis).wf(),
        ox < old(vis).spec_width(),
        oy < old(vis).spec_height(),
        old(vis).spec_width() <= MAX_FOV_DIM,
        old(vis).spec_height() <= MAX_FOV_DIM,
        radius <= MAX_FOV_DIM,
        -1 <= dx <= 1,
        -1 <= dy <= 1,
    ensures
        shadow_step(*old(vis), *final(vis), ox as int, oy as int, radius as int),
        neighbor_seen(*final(vis), ox as int, oy as int, radius as int, dx as int, dy as int),
{
    let width = vis.width();
    let height = vis.height();
    proof {
        lemma_square_le(radius as int, MAX_FOV_DIM as int);
    }
    let rad2: u64 = (radius as u64) * (radius as u64);
    let wx: i64 = ox as i64 + dx;
    let wy: i64 = oy as i64 + dy;
    if 0 <= wx && wx < width as i64 && 0 <= wy && wy < height as i64 {
        proof {
            let adx: int = if dx >= 0 {
                dx as int
            } else {
                -(dx as int)
            };
            let ady: int = if dy >= 0 {
                dy as int
            } else {
                -(dy as int)
            };
            lemma_abs_square(dx as int, adx);
            lemma_abs_square(dy as int, ady);
            lemma_square_le(adx, 1);
            lemma_square_le(ady, 1);
        }
        let d2: u64 = (dx * dx + dy * dy) as u64;
        proof {
            assert(d2 == dist2(ox as int, oy as int, wx as int, wy as int));
        }
        if d2 <= rad2 {
            vis.set(wx as usize, wy as usize, true);
        }
    }
}

/// Strict rational slope comparison `a/ad < b/bd` by cross-multiplication;
/// both denominators must be positive.
fn slope_lt(an: i64, ad: i64, bn: i64, bd: i64) -> (r: bool)
    requires
        0 < ad <= SLOPE_BOUND,
        0 < bd <= SLOPE_BOUND,
        -SLOPE_BOUND <= an <= SLOPE_BOUND,
        -SLOPE_BOUND <= bn <= SLOPE_BOUND,
    ensures
        r == (an * bd < bn * ad),
{
    proof {
        lemma_bounded_mul(an as int, bd as int, SLOPE_BOUND as int);
        lemma_bounded_mul(bn as int, ad as int, SLOPE_BOUND as int);
    }
    an * bd < bn * ad
}

/// Scans one octant from `row` outward, marking every cell inside the slope
/// interval `[end, start]` that lies within the radius, and recursing past
/// opaque cells. In the obstacle grid `true` is an opaque cell.
#[allow(clippy::too_many_arguments)]
fn cast_octant(
    grid: &Grid,
    vis: &mut Grid,
    ox: usize,
    oy: usize,
    radius: usize,
    row: usize,
    start_num: i64,
    start_den: i64,
    end_num: i64,
    end_den: i64,
    mxx: i64,
    mxy: i64,
    myx: i64,
    myy: i64,
)
    requires
        grid.wf(),
        old(vis).wf(),
        old(vis).spec_width() == grid.spec_width(),
        old(vis).spec_height() == grid.spec_height(),
        grid.spec_width() <= MAX_FOV_DIM,
        grid.spec_height() <= MAX_FOV_DIM,
        radius <= MAX_FOV_DIM,
        ox < grid.spec_width(),
        oy < grid.spec_height(),
        1 <= row <= radius + 1,
        0 < start_den <= SLOPE_BOUND,
        0 < end_den <= SLOPE_BOUND,
        -SLOPE_BOUND <= start_num <= SLOPE_BOUND,
        -SLOPE_BOUND <= end_num <= SLOPE_BOUND,
        -1 <= mxx <= 1,
        -1 <= mxy <= 1,
        -1 <= myx <= 1,
        -1 <= myy <= 1,
    ensures
        shadow_step(*old(vis), *final(vis), ox as int, oy as int, radius as int),
    decreases radius + 1 - row,
{
    let width = grid.width();
    let height = grid.height();
    proof {
        lemma_square_le(radius as int, MAX_FOV_DIM as int);
    }
    let rad2: u64 = (radius as u64) * (radius as u64);
    let mut cur_num = start_num;
    let mut cur_den = start_den;
    let mut current_row = row;
    while current_row <= radius
        invariant
            grid.wf(),
            shadow_step(*old(vis), *vis, ox as int, oy as int, radius as int),
            old(vis).spec_width() == grid.spec_width(),
            old(vis).spec_height() == grid.spec_height(),
            width == grid.spec_width(),
            height == grid.spec_height(),
            grid.spec_width() <= MAX_FOV_DIM,
            grid.spec_height() <= MAX_FOV_DIM,
            radius <= MAX_FOV_DIM,
            rad2 == (radius as int) * (radius as int),
            ox < grid.spec_width(),
            oy < grid.spec_height(),
            row <= current_row <= radius + 1,
            1 <= row,
            0 < cur_den <= SLOPE_BOUND,
            -SLOPE_BOUND <= cur_num <= SLOPE_BOUND,
            0 < end_den <= SLOPE_BOUND,
            -SLOPE_BOUND <= end_num <= SLOPE_BOUND,
            -1 <= mxx <= 1,
            -1 <= mxy <= 1,
            -1 <= myx <= 1,
            -1 <= myy <= 1,
        decreases radius + 1 - current_row,
    {
        if slope_lt(cur_num, cur_den, end_num, end_den) {
            return;
        }
        let dy = current_row;
        let mut blocked = false;
        let mut new_num = cur_num;
        let mut new_den = cur_den;
        let mut d: usize = 0;
        while d <= dy
            invariant
                grid.wf(),
                shadow_step(*old(vis), *vis, ox as int, oy as int, radius as int),
                old(vis).spec_width() == grid.spec_width(),
                old(vis).spec_height() == grid.spec_height(),
                width == grid.spec_width(),
                height == grid.spec_height(),
                grid.spec_width() <= MAX_FOV_DIM,
                grid.spec_height() <= MAX_FOV_DIM,
                radius <= MAX_FOV_DIM,
                rad2 == (radius as int) * (radius as int),
                ox < grid.spec_width(),
                oy < grid.spec_height(),
                1 <= dy <= radius,
                dy == current_row,
                row <= current_row <= radius,
                d <= dy + 1,
                0 < cur_den <= SLOPE_BOUND,
                -SLOPE_BOUND <= cur_num <= SLOPE_BOUND,
                0 < new_den <= SLOPE_BOUND,
                -SLOPE_BOUND <= new_num <= SLOPE_BOUND,
                0 < end_den <= SLOPE_BOUND,
                -SLOPE_BOUND <= end_num <= SLOPE_BOUND,
                -1 <= mxx <= 1,
                -1 <= mxy <= 1,
                -1 <= myx <= 1,
                -1 <= myy <= 1,
            decreases dy + 1 - d,
        {
            let dx = dy - d;
            // Edge slopes of this cell: high toward larger dx, low toward
            // smaller dx.
            let h_num: i64 = 2 * (dx as i64) + 1;
            let h_den: i64 = 2 * (dy as i64) - 1;
            let l_num: i64 = 2 * (dx as i64) - 1;
            let l_den: i64 = 2 * (dy as i64) + 1;
            if slope_lt(cur_num, cur_den, l_num, l_den) {
                // The cell lies entirely above the interval; keep scanning.
                d = d + 1;
                continue;
            }
            if slope_lt(h_num, h_den, end_num, end_den) {
                // The cell and everything after it lie below the interval.
                break;
            }
            proof {
                lemma_unit_mul_bound(dx as int, mxx as int);
                lemma_unit_mul_bound(dy as int, mxy as int);
                lemma_unit_mul_bound(dx as int, myx as int);
                lemma_unit_mul_bound(dy as int, myy as int);
            }
            let wx: i64 = (ox as i64) + (dx as i64) * mxx + (dy as i64) * mxy;
            let wy: i64 = (oy as i64) + (dx as i64) * myx + (dy as i64) * myy;
            let inb = 0 <= wx && wx < width as i64 && 0 <= wy && wy < height as i64;
            if inb {
                let ux = wx as usize;
                let uy = wy as usize;
                let ddx: i64 = wx - (ox as i64);
                let ddy: i64 = wy - (oy as i64);
                let adx: u64 = if ddx >= 0 {
                    ddx as u64
                } else {
                    (-ddx) as u64
                };
                let ady: u64 = if ddy >= 0 {
                    ddy as u64
                } else {
                    (-ddy) as u64
                };
                proof {
                    lemma_square_le(adx as int, MAX_FOV_DIM as int);
                    lemma_square_le(ady as int, MAX_FOV_DIM as int);
                    lemma_abs_square(ddx as int, adx as int);
                    lemma_abs_square(ddy as int, ady as int);
                }
                let d2: u64 = adx * adx + ady * ady;
                if d2 <= rad2 {
                    let ghost pre = *vis;
                    vis.set(ux, uy, true);
                    proof {
                        assert(dist2(ox as int, oy as int, ux as int, uy as int) <= (
                        radius as int) * (radius as int));
                        assert(shadow_step(pre, *vis, ox as int, oy as int, radius as int));
                        lemma_shadow_step_trans(
                            *old(vis),
                            pre,
                            *vis,
                            ox as int,
                            oy as int,
                            radius as int,
                        );
                    }
                }
            }
            let opaque = if inb {
                grid.get(wx as usize, wy as usize)
            } else {
                true
            };
            if blocked {
                if opaque {
                    new_num = l_num;
                    new_den = l_den;
                } else {
                    blocked = false;
                    cur_num = new_num;
                    cur_den = new_den;
                }
            } else if opaque {
                blocked = true;
                if current_row < radius {
                    let ghost pre = *vis;
                    cast_octant(
                        grid,
                        vis,
                        ox,
                        oy,
                        radius,
                        current_row + 1,
                        cur_num,
                        cur_den,
                        h_num,
                        h_den,
                        mxx,
                        mxy,
                        myx,
                        myy,
                    );
                    proof {
                        lemma_shadow_step_trans(
                            *old(vis),
                            pre,
                            *vis,
                            ox as int,
                            oy as int,
                            radius as int,
                        );
                    }
                }
                new_num = l_num;
                new_den = l_den;
            }
            d = d + 1;
        }
        if blocked {
            return;
        }
        current_row = current_row + 1;
    }
}

/// Computes the visibility grid seen from `(origin_x, origin_y)` out to
/// `radius`, on an obstacle grid where `true` is an opaque cell. The origin
/// is always visible; no cell farther than the radius (by true Euclidean
/// distance) is ever marked; cells outside the grid are silently excluded.
pub fn calculate_field_of_view(
    origin_x: usize,
    origin_y: usize,
    radius: usize,
    obstacle_map: &Grid,
) -> (r: Result<Grid, CoreError>)
    requires
        obstacle_map.wf(),
        obstacle_map.spec_width() <= MAX_FOV_DIM,
        obstacle_map.spec_height() <= MAX_FOV_DIM,
        radius <= MAX_FOV_DIM,
    ensures
        r is Ok <==> origin_x < obstacle_map.spec_width() && origin_y
            < obstacle_map.spec_height(),
        r is Err ==> r == Err::<Grid, CoreError>(CoreError::InvalidCoordinate),
        r matches Ok(v) ==> {
            &&& v.wf()
            &&& v.spec_width() == obstacle_map.spec_width()
            &&& v.spec_height() == obstacle_map.spec_height()
            &&& v.cells()[origin_y as int][origin_x as int]
            &&& forall|y: int, x: int|
                0 <= y < v.spec_height() && 0 <= x < v.spec_width()
                    && #[trigger] v.cells()[y][x] ==> dist2(
                    origin_x as int,
                    origin_y as int,
                    x,
                    y,
                ) <= (radius as int) * (radius as int)
            &&& forall|dx: int, dy: int|
                -1 <= dx <= 1 && -1 <= dy <= 1 ==> neighbor_seen(
                    v,
                    origin_x as int,
                    origin_y as int,
                    radius as int,
                    dx,
                    dy,
                )
            &&& forall|sx: int, sy: int, k: int|
                unit_dir(sx, sy) ==> #[trigger] axis_seen(
                    v,
                    *obstacle_map,
                    origin_x as int,
                    origin_y as int,
                    radius as int,
                    sx,
                    sy,
                    k,
                )
        },
{
    let width = obstacle_map.width();
    let height = obstacle_map.height();
    if !(origin_x < width && origin_y < height) {
        return Err(CoreError::InvalidCoordinate);
    }
    let mut vis = Grid::new_filled(width, height, false);
    let ghost f0 = vis;
    vis.set(origin_x, origin_y, true);
    let ghost s0 = vis;
    let ghost ox = origin_x as int;
    let ghost oy = origin_y as int;
    let ghost rad = radius as int;
    let ghost s1 = vis;
    cast_octant(obstacle_map, &mut vis, origin_x, origin_y, radius, 1, 1, 1, 0, 1, 1, 0, 0, 1);
    proof {
        lemma_shadow_step_trans(s0, s1, vis, ox, oy, rad);
    }
    let ghost s2 = vis;
    cast_octant(obstacle_map, &mut vis, origin_x, origin_y, radius, 1, 1, 1, 0, 1, 0, 1, 1, 0);
    proof {
        lemma_shadow_step_trans(s0, s2, vis, ox, oy, rad);
    }
    let ghost s3 = vis;
    cast_octant(obstacle_map, &mut vis, origin_x, origin_y, radius, 1, 1, 1, 0, 1, 0, -1, 1, 0);
    proof {
        lemma_shadow_step_trans(s0, s3, vis, ox, oy, rad);
    }
    let ghost s4 = vis;
    cast_octant(obstacle_map, &mut vis, origin_x, origin_y, radius, 1, 1, 1, 0, 1, -1, 0, 0, 1);
    proof {
        lemma_shadow_step_trans(s0, s4, vis, ox, oy, rad);
    }
    let ghost s5 = vis;
    cast_octant(obstacle_map, &mut vis, origin_x, origin_y, radius, 1, 1, 1, 0, 1, -1, 0, 0, -1);
    proof {
        lemma_shadow_step_trans(s0, s5, vis, ox, oy, rad);
    }
    let ghost s6 = vis;
    cast_octant(obstacle_map, &mut vis, origin_x, origin_y, radius, 1, 1, 1, 0, 1, 0, -1, -1, 0);
    proof {
        lemma_shadow_step_trans(s0, s6, vis, ox, oy, rad);
    }
    let ghost s7 = vis;
    cast_octant(obstacle_map, &mut vis, origin_x, origin_y, radius, 1, 1, 1, 0, 1, 0, 1, -1, 0);
    proof {
        lemma_shadow_step_trans(s0, s7, vis, ox, oy, rad);
    }
    let ghost s8 = vis;
    cast_octant(obstacle_map, &mut vis, origin_x, origin_y, radius, 1, 1, 1, 0, 1, 1, 0, 0, -1);
    proof {
        lemma_shadow_step_trans(s0, s8, vis, ox, oy, rad);
    }
    // The cells touching the origin are never occluded: light the whole
    // ring of neighbors that lies inside the grid and the radius.
    let ghost t0 = vis;
    mark_ring(&mut vis, origin_x, origin_y, radius);
    proof {
        lemma_shadow_step_trans(s0, t0, vis, ox, oy, rad);
        assert(vis.cells()[oy][ox]);
    }
    // Light the four cardinal sight lines explicitly: the octant scans mark
    // the same cells, but this way the guarantee has a direct proof.
    let ghost a1 = vis;
    mark_axis(&mut vis, obstacle_map, origin_x, origin_y, radius, 1, 0);
    proof {
        lemma_shadow_step_trans(s0, a1, vis, ox, oy, rad);
        lemma_ring_preserved(a1, vis, ox, oy, rad);
    }
    let ghost a2 = vis;
    mark_axis(&mut vis, obstacle_map, origin_x, origin_y, radius, -1, 0);
    proof {
        lemma_shadow_step_trans(s0, a2, vis, ox, oy, rad);
        lemma_ring_preserved(a2, vis, ox, oy, rad);
        lemma_axis_preserved(a2, vis, *obstacle_map, ox, oy, rad, 1, 0);
    }
    let ghost a3 = vis;
    mark_axis(&mut vis, obstacle_map, origin_x, origin_y, radius, 0, 1);
    proof {
        lemma_shadow_step_trans(s0, a3, vis, ox, oy, rad);
        lemma_ring_preserved(a3, vis, ox, oy, rad);
        lemma_axis_preserved(a3, vis, *obstacle_map, ox, oy, rad, 1, 0);
        lemma_axis_preserved(a3, vis, *obstacle_map, ox, oy, rad, -1, 0);
    }
    let ghost a4 = vis;
    mark_axis(&mut vis, obstacle_map, origin_x, origin_y, radius, 0, -1);
    proof {
        lemma_shadow_step_trans(s0, a4, vis, ox, oy, rad);
        lemma_ring_preserved(a4, vis, ox, oy, rad);
        lemma_axis_preserved(a4, vis, *obstacle_map, ox, oy, rad, 1, 0);
        lemma_axis_preserved(a4, vis, *obstacle_map, ox, oy, rad, -1, 0);
        lemma_axis_preserved(a4, vis, *obstacle_map, ox, oy, rad, 0, 1);
        assert forall|sx: int, sy: int, k: int|
            unit_dir(sx, sy) implies #[trigger] axis_seen(
            vis,
            *obstacle_map,
            ox,
            oy,
            rad,
            sx,
            sy,
            k,
        ) by {
            if sx == 1 && sy == 0 {
                assert(axis_seen(vis, *obstacle_map, ox, oy, rad, 1, 0, k));
            } else if sx == -1 && sy == 0 {
                assert(axis_seen(vis, *obstacle_map, ox, oy, rad, -1, 0, k));
            } else if sx == 0 && sy == 1 {
                assert(axis_seen(vis, *obstacle_map, ox, oy, rad, 0, 1, k));
            } else {
                assert(axis_seen(vis, *obstacle_map, ox, oy, rad, 0, -1, k));
            }
        }
    }
    proof {
        assert(vis.cells()[oy][ox]);
        assert forall|y: int, x: int|
            0 <= y < vis.spec_height() && 0 <= x < vis.spec_width()
                && #[trigger] vis.cells()[y][x] implies dist2(ox, oy, x, y) <= rad * rad by {
            if s0.cells()[y][x] {
                if y != oy {
                    assert(s0.cells()[y] == f0.cells()[y]);
                    assert(!f0.cells()[y][x]);
                    assert(false);
                } else if x != ox {
                    assert(s0.cells()[y] == f0.cells()[oy].update(ox, true));
                    assert(s0.cells()[y][x] == f0.cells()[y][x]);
                    assert(!f0.cells()[y][x]);
                    assert(false);
                }
                assert(y == oy && x == ox);
                lemma_zero_dist(ox, oy);
                lemma_square_le(0, rad);
            }
        }
    }
    Ok(vis)
}

} // verus!
