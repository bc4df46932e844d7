use vstd::prelude::*;
use crate::grid::{lemma_coords, lemma_index, lemma_index_injective, GridModel, VoxelGrid};
use crate::rng::{lcg_iter, seeded_random};

verus! {

/// The random choices that start one worm tunnel.
pub struct WormStart {
    pub x: usize,
    pub y: usize,
    pub z: usize,
    pub segments: usize,
    pub radius: usize,
}

/// Number of start depths a worm chooses from: the lower 60% of the height.
pub open spec fn start_span(height: int) -> int {
    height * 3 / 5
}

fn start_span_exec(height: usize) -> (r: usize)
    ensures
        r == start_span(height as int),
{
    let q = height / 5;
    let rem = height % 5;
    proof {
        vstd::arithmetic::div_mod::lemma_fundamental_div_mod_converse(
            height as int * 3,
            5,
            3 * q + (3 * rem) / 5,
            (3 * rem) % 5,
        );
    }
    q * 3 + rem * 3 / 5
}

/// Draws the start of one worm from the shared state, in this order: the
/// column x in `[0, width)`, the row y in `[0, depth)`, the layer
/// `5 + [0, start_span(height))`, the segment count in `[50, 100)` and the
/// radius in `[2, 4)`.
pub fn worm_start(state: &mut u64, width: usize, depth: usize, height: usize) -> (r: WormStart)
    requires
        width > 0,
        depth > 0,
        height >= 2,
    ensures
        *final(state) == lcg_iter(*old(state), 5),
        r.x == lcg_iter(*old(state), 1) as int % width as int,
        r.y == lcg_iter(*old(state), 2) as int % depth as int,
        r.z == 5 + lcg_iter(*old(state), 3) as int % start_span(height as int),
        r.segments == 50 + lcg_iter(*old(state), 4) as int % 50,
        r.radius == 2 + lcg_iter(*old(state), 5) as int % 2,
{
    let ghost s0 = *state;
    let span = start_span_exec(height);
    let x = seeded_random(state, width);
    let y = seeded_random(state, depth);
    let z = 5 + seeded_random(state, span);
    let segments = 50 + seeded_random(state, 50);
    let radius = 2 + seeded_random(state, 2);
    proof {
        reveal_with_fuel(lcg_iter, 6);
    }
    WormStart { x, y, z, segments, radius }
}

/// Whether `(a, b, c)` lies within Euclidean distance `r` of `(cx, cy, cz)`.
pub open spec fn in_ball(cx: int, cy: int, cz: int, r: int, a: int, b: int, c: int) -> bool {
    (a - cx) * (a - cx) + (b - cy) * (b - cy) + (c - cz) * (c - cz) <= r * r
}

/// The grid with every cell of the ball turned to air.
pub open spec fn ball_carved(m: GridModel, cx: int, cy: int, cz: int, r: int) -> GridModel {
    GridModel {
        cells: Seq::new(
            m.cells.len(),
            |i: int| m.cells[i] && !in_ball(cx, cy, cz, r, m.x_of(i), m.y_of(i), m.z_of(i)),
        ),
        ..m
    }
}

/// `(a, b, c)` comes before `(x, y, z)` in the order z, then y, then x.
pub open spec fn precedes(a: int, b: int, c: int, x: int, y: int, z: int) -> bool {
    c < z || (c == z && (b < y || (b == y && a < x)))
}

/// The range `[lo, hi)` of coordinates within `radius` of `center` and below `bound`.
fn axis_range(center: usize, radius: usize, bound: usize) -> (r: (usize, usize))
    ensures
        r.0 == if center >= radius {
            center - radius
        } else {
            0
        },
        r.1 == if center as int + radius as int + 1 <= bound as int {
            center as int + radius as int + 1
        } else {
            bound as int
        },
{
    let lo = if center >= radius {
        center - radius
    } else {
        0
    };
    let hi = if center < bound && radius < bound - center {
        center + radius + 1
    } else {
        bound
    };
    (lo, hi)
}

fn abs_diff(a: usize, b: usize) -> (r: u128)
    ensures
        r == if a >= b {
            a - b
        } else {
            b - a
        },
{
    if a >= b {
        (a - b) as u128
    } else {
        (b - a) as u128
    }
}

proof fn lemma_ball_axis(t: int, s: int, r: int)
    requires
        t * t + s <= r * r,
        s >= 0,
        r >= 0,
    ensures
        -r <= t <= r,
{
    assert(-r <= t <= r) by (nonlinear_arith)
        requires
            t * t + s <= r * r,
            s >= 0,
            r >= 0,
    ;
}

proof fn lemma_square_nonneg(t: int)
    ensures
        t * t >= 0,
{
    assert(t * t >= 0) by (nonlinear_arith);
}

/// Turns to air every cell of the grid within Euclidean distance `radius` of
/// `(cx, cy, cz)`, the bound included.
pub fn carve_sphere(grid: &mut VoxelGrid, cx: usize, cy: usize, cz: usize, radius: usize)
    requires
        old(grid).wf(),
        radius <= u32::MAX,
    ensures
        final(grid).wf(),
        final(grid)@ == ball_carved(old(grid)@, cx as int, cy as int, cz as int, radius as int),
{
    let ghost g = grid@;
    let ghost rr = radius as int;
    proof {
        grid.lemma_wf_view();
    }
    let dims = grid.dimensions();
    let (x_lo, x_hi) = axis_range(cx, radius, dims[0]);
    let (y_lo, y_hi) = axis_range(cy, radius, dims[2]);
    let (z_lo, z_hi) = axis_range(cz, radius, dims[1]);
    proof {
        assert(rr * rr <= 0x1_0000_0000_0000_0000) by (nonlinear_arith)
            requires
                0 <= rr <= u32::MAX,
        ;
    }
    let r2 = radius as u128 * radius as u128;
    let mut c = z_lo;
    while c < z_hi
        invariant
            grid.wf(),
            grid@.same_shape(g),
            rr == radius,
            r2 == rr * rr,
            rr <= u32::MAX,
            x_lo as int >= cx - rr,
            x_lo == 0 || x_lo == cx - rr,
            x_hi == g.width || x_hi == cx + rr + 1,
            y_lo == 0 || y_lo == cy - rr,
            y_hi == g.depth || y_hi == cy + rr + 1,
            z_lo == 0 || z_lo == cz - rr,
            z_hi == g.height || z_hi == cz + rr + 1,
            x_hi <= cx + rr + 1,
            x_hi <= g.width,
            y_lo as int >= cy - rr,
            y_hi <= cy + rr + 1,
            y_hi <= g.depth,
            z_lo as int >= cz - rr,
            z_hi <= cz + rr + 1,
            z_hi <= g.height,
            z_lo <= c,
            g.well_sized(),
            forall|i: int|
                0 <= i < g.volume() ==> #[trigger] grid@.cells[i] == (g.cells[i] && !(in_ball(
                    cx as int,
                    cy as int,
                    cz as int,
                    rr,
                    g.x_of(i),
                    g.y_of(i),
                    g.z_of(i),
                ) && x_lo <= g.x_of(i) < x_hi && y_lo <= g.y_of(i) < y_hi && z_lo <= g.z_of(i)
                    && precedes(g.x_of(i), g.y_of(i), g.z_of(i), x_lo as int, y_lo as int, c as int))),
        decreases z_hi - c,
    {
        let mut b = y_lo;
        while b < y_hi
            invariant
                grid.wf(),
                grid@.same_shape(g),
                rr == radius,
                r2 == rr * rr,
                rr <= u32::MAX,
                x_lo as int >= cx - rr,
            x_lo == 0 || x_lo == cx - rr,
            x_hi == g.width || x_hi == cx + rr + 1,
            y_lo == 0 || y_lo == cy - rr,
            y_hi == g.depth || y_hi == cy + rr + 1,
            z_lo == 0 || z_lo == cz - rr,
            z_hi == g.height || z_hi == cz + rr + 1,
                x_hi <= cx + rr + 1,
                x_hi <= g.width,
                y_lo as int >= cy - rr,
                y_hi <= cy + rr + 1,
                y_hi <= g.depth,
                z_lo as int >= cz - rr,
                z_hi <= cz + rr + 1,
                z_hi <= g.height,
                z_lo <= c < z_hi,
                y_lo <= b,
                g.well_sized(),
                forall|i: int|
                    0 <= i < g.volume() ==> #[trigger] grid@.cells[i] == (g.cells[i] && !(in_ball(
                        cx as int,
                        cy as int,
                        cz as int,
                        rr,
                        g.x_of(i),
                        g.y_of(i),
                        g.z_of(i),
                    ) && x_lo <= g.x_of(i) < x_hi && y_lo <= g.y_of(i) < y_hi && z_lo <= g.z_of(i)
                        && precedes(
                        g.x_of(i),
                        g.y_of(i),
                        g.z_of(i),
                        x_lo as int,
                        b as int,
                        c as int,
                    ))),
            decreases y_hi - b,
        {
            let mut a = x_lo;
            while a < x_hi
                invariant
                    grid.wf(),
                    grid@.same_shape(g),
                    rr == radius,
                    r2 == rr * rr,
                    rr <= u32::MAX,
                    x_lo as int >= cx - rr,
            x_lo == 0 || x_lo == cx - rr,
            x_hi == g.width || x_hi == cx + rr + 1,
            y_lo == 0 || y_lo == cy - rr,
            y_hi == g.depth || y_hi == cy + rr + 1,
            z_lo == 0 || z_lo == cz - rr,
            z_hi == g.height || z_hi == cz + rr + 1,
                    x_hi <= cx + rr + 1,
                    x_hi <= g.width,
                    y_lo as int >= cy - rr,
                    y_hi <= cy + rr + 1,
                    y_hi <= g.depth,
                    z_lo as int >= cz - rr,
                    z_hi <= cz + rr + 1,
                    z_hi <= g.height,
                    z_lo <= c < z_hi,
                    y_lo <= b < y_hi,
                    x_lo <= a,
                    g.well_sized(),
                    forall|i: int|
                        0 <= i < g.volume() ==> #[trigger] grid@.cells[i] == (g.cells[i] && !(
                        in_ball(
                            cx as int,
                            cy as int,
                            cz as int,
                            rr,
                            g.x_of(i),
                            g.y_of(i),
                            g.z_of(i),
                        ) && x_lo <= g.x_of(i) < x_hi && y_lo <= g.y_of(i) < y_hi && z_lo
                            <= g.z_of(i) && precedes(
                            g.x_of(i),
                            g.y_of(i),
                            g.z_of(i),
                            a as int,
                            b as int,
                            c as int,
                        ))),
                decreases x_hi - a,
            {
                let da = abs_diff(a, cx);
                let db = abs_diff(b, cy);
                let dc = abs_diff(c, cz);
                proof {
                    assert(da * da <= rr * rr && db * db <= rr * rr && dc * dc <= rr * rr
                        && rr * rr <= 0x1_0000_0000_0000_0000) by (nonlinear_arith)
                        requires
                            0 <= da <= rr,
                            0 <= db <= rr,
                            0 <= dc <= rr,
                            rr <= u32::MAX,
                    ;
                    assert(da * da == (a - cx) * (a - cx)) by (nonlinear_arith)
                        requires
                            da == a - cx || da == cx - a,
                    ;
                    assert(db * db == (b - cy) * (b - cy)) by (nonlinear_arith)
                        requires
                            db == b - cy || db == cy - b,
                    ;
                    assert(dc * dc == (c - cz) * (c - cz)) by (nonlinear_arith)
                        requires
                            dc == c - cz || dc == cz - c,
                    ;
                }
                let inside = da * da + db * db + dc * dc <= r2;
                let ghost before = grid@;
                if inside {
                    grid.set(a, b, c, false);
                }
                proof {
                    lemma_index(g, a as int, b as int, c as int);
                    assert(grid@.same_shape(g));
                    assert(inside == in_ball(
                        cx as int,
                        cy as int,
                        cz as int,
                        rr,
                        a as int,
                        b as int,
                        c as int,
                    ));
                    lemma_index(g, a as int, b as int, c as int);
                    assert forall|i: int| 0 <= i < g.volume() implies #[trigger] grid@.cells[i]
                        == (g.cells[i] && !(in_ball(
                        cx as int,
                        cy as int,
                        cz as int,
                        rr,
                        g.x_of(i),
                        g.y_of(i),
                        g.z_of(i),
                    ) && x_lo <= g.x_of(i) < x_hi && y_lo <= g.y_of(i) < y_hi && z_lo <= g.z_of(
                        i,
                    ) && precedes(
                        g.x_of(i),
                        g.y_of(i),
                        g.z_of(i),
                        a + 1,
                        b as int,
                        c as int,
                    ))) by {
                        lemma_coords(g, i);
                        if g.x_of(i) == a && g.y_of(i) == b && g.z_of(i) == c {
                            assert(i == g.index(a as int, b as int, c as int));
                        } else if i == g.index(a as int, b as int, c as int) {
                            lemma_index_injective(
                                g,
                                g.x_of(i),
                                g.y_of(i),
                                g.z_of(i),
                                a as int,
                                b as int,
                                c as int,
                            );
                        }
                    }
                }
                a = a + 1;
            }
            b = b + 1;
        }
        c = c + 1;
    }
    proof {
        assert forall|i: int| 0 <= i < g.volume() implies #[trigger] grid@.cells[i]
            == ball_carved(g, cx as int, cy as int, cz as int, rr).cells[i] by {
            lemma_coords(g, i);
            let ta = g.x_of(i) - cx;
            let tb = g.y_of(i) - cy;
            let tc = g.z_of(i) - cz;
            if in_ball(cx as int, cy as int, cz as int, rr, g.x_of(i), g.y_of(i), g.z_of(i)) {
                lemma_square_nonneg(ta);
                lemma_square_nonneg(tb);
                lemma_square_nonneg(tc);
                lemma_ball_axis(ta, tb * tb + tc * tc, rr);
                lemma_ball_axis(tb, ta * ta + tc * tc, rr);
                lemma_ball_axis(tc, ta * ta + tb * tb, rr);
            }
        }
        assert(grid@.cells =~= ball_carved(g, cx as int, cy as int, cz as int, rr).cells);
    }
}

/// Layers below this one are never hollowed by the cavern pass.
pub const CAVERN_FLOOR: usize = 3;

/// The grid with every cell turned to air that is marked hollow and lies in a
/// layer from `CAVERN_FLOOR` up to, but not including, `top`.
pub open spec fn caverns_carved(m: GridModel, top: int, hollow: Seq<bool>) -> GridModel {
    GridModel {
        cells: Seq::new(
            m.cells.len(),
            |i: int| m.cells[i] && !(CAVERN_FLOOR <= m.z_of(i) < top && hollow[i]),
        ),
        ..m
    }
}

/// The cavern pass over given marks: every solid cell in the layers from
/// `CAVERN_FLOOR` up to `top` (and below the grid's height) whose mark in
/// `hollow`, indexed like the cells, is set, becomes air.
pub fn carve_cavern_cells(grid: &mut VoxelGrid, top: usize, hollow: &[bool])
    requires
        old(grid).wf(),
        hollow@.len() == old(grid)@.volume(),
    ensures
        final(grid).wf(),
        final(grid)@ == caverns_carved(old(grid)@, top as int, hollow@),
{
    let ghost g = grid@;
    proof {
        grid.lemma_wf_view();
    }
    let dims = grid.dimensions();
    let width = dims[0];
    let height = dims[1];
    let depth = dims[2];
    let z_end = if top < height {
        top
    } else {
        height
    };
    let mut z = CAVERN_FLOOR;
    proof {
        assert forall|i: int| 0 <= i < g.volume() implies #[trigger] grid@.cells[i] == (
        g.cells[i] && !(hollow@[i] && CAVERN_FLOOR <= g.z_of(i) && precedes(
            g.x_of(i),
            g.y_of(i),
            g.z_of(i),
            0,
            0,
            z as int,
        ))) by {
            lemma_coords(g, i);
        }
    }
    while z < z_end
        invariant
            grid.wf(),
            grid@.same_shape(g),
            g.well_sized(),
            hollow@.len() == g.volume(),
            width == g.width,
            height == g.height,
            depth == g.depth,
            z_end <= height,
            z_end <= top,
            z_end == top || z_end == height,
            CAVERN_FLOOR <= z,
            z <= z_end || z == CAVERN_FLOOR,
            forall|i: int|
                0 <= i < g.volume() ==> #[trigger] grid@.cells[i] == (g.cells[i] && !(hollow@[i]
                    && CAVERN_FLOOR <= g.z_of(i) && precedes(
                    g.x_of(i),
                    g.y_of(i),
                    g.z_of(i),
                    0,
                    0,
                    z as int,
                ))),
        decreases z_end - z,
    {
        let mut y: usize = 0;
        while y < depth
            invariant
                grid.wf(),
                grid@.same_shape(g),
                g.well_sized(),
                hollow@.len() == g.volume(),
                width == g.width,
                height == g.height,
                depth == g.depth,
                z_end <= height,
                CAVERN_FLOOR <= z < z_end,
                y <= depth,
                forall|i: int|
                    0 <= i < g.volume() ==> #[trigger] grid@.cells[i] == (g.cells[i] && !(
                    hollow@[i] && CAVERN_FLOOR <= g.z_of(i) && precedes(
                        g.x_of(i),
                        g.y_of(i),
                        g.z_of(i),
                        0,
                        y as int,
                        z as int,
                    ))),
            decreases depth - y,
        {
            let mut x: usize = 0;
            while x < width
                invariant
                    grid.wf(),
                    grid@.same_shape(g),
                    g.well_sized(),
                    hollow@.len() == g.volume(),
                    width == g.width,
                    height == g.height,
                    depth == g.depth,
                    z_end <= height,
                    CAVERN_FLOOR <= z < z_end,
                    y < depth,
                    x <= width,
                    forall|i: int|
                        0 <= i < g.volume() ==> #[trigger] grid@.cells[i] == (g.cells[i] && !(
                        hollow@[i] && CAVERN_FLOOR <= g.z_of(i) && precedes(
                            g.x_of(i),
                            g.y_of(i),
                            g.z_of(i),
                            x as int,
                            y as int,
                            z as int,
                        ))),
                decreases width - x,
            {
                proof {
                    lemma_index(g, x as int, y as int, z as int);
                }
                if grid.get(x, y, z) {
                    let i = grid.index(x, y, z);
                    if hollow[i] {
                        grid.set(x, y, z, false);
                    }
                }
                proof {
                    assert(grid@.same_shape(g));
                    let idx = g.index(x as int, y as int, z as int);
                    assert forall|i: int| 0 <= i < g.volume() implies #[trigger] grid@.cells[i]
                        == (g.cells[i] && !(hollow@[i] && CAVERN_FLOOR <= g.z_of(i) && precedes(
                        g.x_of(i),
                        g.y_of(i),
                        g.z_of(i),
                        x + 1,
                        y as int,
                        z as int,
                    ))) by {
                        lemma_coords(g, i);
                        if g.x_of(i) == x && g.y_of(i) == y && g.z_of(i) == z {
                            assert(i == idx);
                        } else if i == idx {
                            lemma_index_injective(
                                g,
                                g.x_of(i),
                                g.y_of(i),
                                g.z_of(i),
                                x as int,
                                y as int,
                                z as int,
                            );
                        }
                    }
                }
                x = x + 1;
            }
            proof {
                assert forall|i: int| 0 <= i < g.volume() implies #[trigger] grid@.cells[i] == (
                g.cells[i] && !(hollow@[i] && CAVERN_FLOOR <= g.z_of(i) && precedes(
                    g.x_of(i),
                    g.y_of(i),
                    g.z_of(i),
                    0,
                    y + 1,
                    z as int,
                ))) by {
                    lemma_coords(g, i);
                }
            }
            y = y + 1;
        }
        proof {
            assert forall|i: int| 0 <= i < g.volume() implies #[trigger] grid@.cells[i] == (
            g.cells[i] && !(hollow@[i] && CAVERN_FLOOR <= g.z_of(i) && precedes(
                g.x_of(i),
                g.y_of(i),
                g.z_of(i),
                0,
                0,
                z + 1,
            ))) by {
                lemma_coords(g, i);
            }
        }
        z = z + 1;
    }
    proof {
        assert forall|i: int| 0 <= i < g.volume() implies #[trigger] grid@.cells[i]
            == caverns_carved(g, top as int, hollow@).cells[i] by {
            lemma_coords(g, i);
        }
        assert(grid@.cells =~= caverns_carved(g, top as int, hollow@).cells);
    }
}

/// One sphere of a worm tunnel: its centre and its radius.
#[derive(Clone, Copy, Debug, PartialEq, Eq)]
pub struct Sphere {
    pub x: usize,
    pub y: usize,
    pub z: usize,
    pub radius: usize,
}

/// The grid after carving the spheres in order.
pub open spec fn spheres_carved(m: GridModel, spheres: Seq<Sphere>) -> GridModel
    decreases spheres.len(),
{
    if spheres.len() == 0 {
        m
    } else {
        let s = spheres.last();
        ball_carved(
            spheres_carved(m, spheres.drop_last()),
            s.x as int,
            s.y as int,
            s.z as int,
            s.radius as int,
        )
    }
}

/// The whole cave pass: tunnels first, then caverns.
pub open spec fn caves_carved(m: GridModel, spheres: Seq<Sphere>, top: int, hollow: Seq<bool>) -> GridModel {
    caverns_carved(spheres_carved(m, spheres), top, hollow)
}

/// Carves the tunnel spheres in order, then runs the cavern pass with the
/// given marks over what the tunnels left.
pub fn carve_caves_with(grid: &mut VoxelGrid, spheres: &[Sphere], top: usize, hollow: &[bool])
    requires
        old(grid).wf(),
        hollow@.len() == old(grid)@.volume(),
        forall|k: int| 0 <= k < spheres@.len() ==> spheres@[k].radius <= u32::MAX,
    ensures
        final(grid).wf(),
        final(grid)@ == caves_carved(old(grid)@, spheres@, top as int, hollow@),
{
    let ghost g = grid@;
    let mut k: usize = 0;
    while k < spheres.len()
        invariant
            grid.wf(),
            k <= spheres@.len(),
            grid@ == spheres_carved(g, spheres@.take(k as int)),
            grid@.volume() == g.volume(),
            forall|j: int| 0 <= j < spheres@.len() ==> spheres@[j].radius <= u32::MAX,
        decreases spheres@.len() - k,
    {
        let s = spheres[k];
        carve_sphere(grid, s.x, s.y, s.z, s.radius);
        proof {
            assert(spheres@.take(k as int + 1).drop_last() =~= spheres@.take(k as int));
        }
        k = k + 1;
    }
    proof {
        assert(spheres@.take(k as int) =~= spheres@);
    }
    carve_cavern_cells(grid, top, hollow);
}

/// Carving is reproducible: two grids of the same content, carved with the
/// same tunnel spheres and the same cavern marks, end with the same content.
pub proof fn lemma_caves_reproducible(
    a: GridModel,
    b: GridModel,
    spheres: Seq<Sphere>,
    top: int,
    hollow: Seq<bool>,
)
    requires
        a == b,
    ensures
        caves_carved(a, spheres, top, hollow) == caves_carved(b, spheres, top, hollow),
{
}

} // verus!
