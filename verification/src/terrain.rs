//! Procedural terrain: a seeded cellular automaton builds an island.
//!
//! The generator is deterministic: the produced grid is pinned, cell
//! by cell, to spec-level functions of the seed state and the
//! dimensions, so two runs from one seed give bit-identical grids.
use vstd::prelude::*;

use crate::components::{Location, WantsToMoveTo};
use crate::rng::{pcg_next, pcg_seed_state, pcg_in_range, Pcg32};

verus! {

/// Classification of one grid cell.
#[derive(Clone, Copy, PartialEq, Eq, Structural, Debug)]
pub enum TileType {
    Void,
    Water,
    Sand,
    Grass,
}

/// The terrain grid, indexed as `tiles[x][y]`.
#[derive(Clone, Debug)]
pub struct TileMap {
    pub width: i32,
    pub height: i32,
    pub tiles: Vec<Vec<TileType>>,
}

/// Smallest accepted map side: room for a border and an interior.
pub const MIN_DIM: i32 = 3;

/// Largest accepted map side, so index arithmetic stays far from
/// machine limits.
pub const MAX_DIM: i32 = 10000;

/// The mathematical view of a tile grid.
pub open spec fn grid_of(tiles: Seq<Vec<TileType>>) -> Seq<Seq<TileType>> {
    Seq::new(tiles.len(), |i: int| tiles[i]@)
}

/// A `width` by `height` grid of rows of equal length.
pub open spec fn grid_wf(g: Seq<Seq<TileType>>, w: int, h: int) -> bool {
    &&& g.len() == w
    &&& forall|x: int| 0 <= x < w ==> (#[trigger] g[x]).len() == h
}

/// Generator state after `k` draws from `(s, inc)`.
pub open spec fn pcg_state_after(s: u64, inc: u64, k: nat) -> u64
    decreases k,
{
    if k == 0 {
        s
    } else {
        pcg_next(pcg_state_after(s, inc, (k - 1) as nat), inc).1
    }
}

/// The `k`-th value drawn from `(s, inc)`.
pub open spec fn pcg_draw(s: u64, inc: u64, k: nat) -> u32 {
    pcg_next(pcg_state_after(s, inc, k), inc).0
}

/// Initial classification of a seeded cell: sand with probability
/// forty-five in one hundred.
pub open spec fn seed_tile(v: u32) -> TileType {
    if v % 100 < 45 {
        TileType::Sand
    } else {
        TileType::Water
    }
}

/// Number of interior (non-border) cells of a `w` by `h` grid.
pub open spec fn interior_count(w: int, h: int) -> nat {
    ((w - 2) * (h - 2)) as nat
}

/// Draw index of interior cell `(x, y)`, row-major over the interior.
pub open spec fn draw_index(h: int, x: int, y: int) -> nat {
    ((x - 1) * (h - 2) + (y - 1)) as nat
}

/// The freshly seeded grid: border cells water, interior cells
/// classified from consecutive draws.
pub open spec fn seeded_grid(s: u64, inc: u64, w: int, h: int) -> Seq<Seq<TileType>> {
    Seq::new(
        w as nat,
        |x: int|
            Seq::new(
                h as nat,
                |y: int|
                    if 1 <= x < w - 1 && 1 <= y < h - 1 {
                        seed_tile(pcg_draw(s, inc, draw_index(h, x, y)))
                    } else {
                        TileType::Water
                    },
            ),
    )
}

/// One automaton vote: a cell counts as a water neighbor when it is
/// water.
pub open spec fn water_ind(g: Seq<Seq<TileType>>, x: int, y: int) -> int {
    if g[x][y] == TileType::Water {
        1int
    } else {
        0int
    }
}

/// Number of the eight neighbors of `(x, y)` that are water.
pub open spec fn water_neighbors(g: Seq<Seq<TileType>>, x: int, y: int) -> int {
    water_ind(g, x - 1, y) + water_ind(g, x + 1, y) + water_ind(g, x, y - 1) + water_ind(
        g,
        x,
        y + 1,
    ) + water_ind(g, x - 1, y - 1) + water_ind(g, x + 1, y - 1) + water_ind(g, x - 1, y + 1)
        + water_ind(g, x + 1, y + 1)
}

/// One automaton step at one cell: interior cells become water when
/// five or more neighbors are water, else sand; border cells are kept.
pub open spec fn ca_cell(g: Seq<Seq<TileType>>, w: int, h: int, x: int, y: int) -> TileType {
    if 1 <= x < w - 1 && 1 <= y < h - 1 {
        if water_neighbors(g, x, y) >= 5 {
            TileType::Water
        } else {
            TileType::Sand
        }
    } else {
        g[x][y]
    }
}

/// One automaton step over the whole grid.
pub open spec fn ca_step(g: Seq<Seq<TileType>>, w: int, h: int) -> Seq<Seq<TileType>> {
    Seq::new(w as nat, |x: int| Seq::new(h as nat, |y: int| ca_cell(g, w, h, x, y)))
}

/// `n` automaton steps.
pub open spec fn ca_run(g: Seq<Seq<TileType>>, w: int, h: int, n: nat) -> Seq<Seq<TileType>>
    decreases n,
{
    if n == 0 {
        g
    } else {
        ca_step(ca_run(g, w, h, (n - 1) as nat), w, h)
    }
}

} // verus!

verus! {

/// Draws consumed once the seeding pass has finished the rows before
/// `x`.
pub open spec fn draws_before(x: int, w: int, h: int) -> nat {
    if x <= 1 {
        0
    } else if x >= w - 1 {
        interior_count(w, h)
    } else {
        ((x - 1) * (h - 2)) as nat
    }
}

proof fn lemma_state_after_succ(s: u64, inc: u64, k: nat)
    ensures
        pcg_state_after(s, inc, k + 1) == pcg_next(pcg_state_after(s, inc, k), inc).1,
{
}

/// Build the freshly seeded grid, consuming one draw per interior
/// cell in row-major order.
fn seed_pass(rng: &mut Pcg32, width: usize, height: usize) -> (g: Vec<Vec<TileType>>)
    requires
        3 <= width <= 10000,
        3 <= height <= 10000,
    ensures
        grid_of(g@) == seeded_grid(old(rng).state, old(rng).inc, width as int, height as int),
        final(rng).inc == old(rng).inc,
        final(rng).state == pcg_state_after(
            old(rng).state,
            old(rng).inc,
            interior_count(width as int, height as int),
        ),
{
    let ghost s0 = rng.state;
    let ghost inc0 = rng.inc;
    let ghost w = width as int;
    let ghost h = height as int;
    let mut g: Vec<Vec<TileType>> = Vec::new();
    let mut x: usize = 0;
    while x < width
        invariant
            3 <= width <= 10000,
            3 <= height <= 10000,
            w == width as int,
            h == height as int,
            x <= width,
            g.len() == x,
            rng.inc == inc0,
            rng.state == pcg_state_after(s0, inc0, draws_before(x as int, w, h)),
            forall|i: int|
                0 <= i < x ==> (#[trigger] g@[i])@ =~= seeded_grid(s0, inc0, w, h)[i],
        decreases width - x,
    {
        if x == 0 || x == width - 1 {
            let mut row: Vec<TileType> = Vec::new();
            let mut y: usize = 0;
            while y < height
                invariant
                    y <= height,
                    row.len() == y,
                    forall|j: int| 0 <= j < y ==> row@[j] == TileType::Water,
                decreases height - y,
            {
                row.push(TileType::Water);
                y = y + 1;
            }
            proof {
                assert(row@ =~= seeded_grid(s0, inc0, w, h)[x as int]);
            }
            g.push(row);
        } else {
            let mut row: Vec<TileType> = Vec::new();
            row.push(TileType::Water);
            proof {
                if x == 1 {
                    assert((x as int - 1) * (h - 2) == 0) by (nonlinear_arith)
                        requires x as int == 1;
                }
                assert((x - 1) * (h - 2) >= 0) by (nonlinear_arith)
                    requires 1 <= x, 3 <= h;
                assert(draws_before(x as int, w, h) == ((x - 1) * (h - 2)) as nat);
            }
            let mut y: usize = 1;
            while y < height - 1
                invariant
                    3 <= width <= 10000,
                    3 <= height <= 10000,
                    w == width as int,
                    h == height as int,
                    1 <= x < width - 1,
                    1 <= y <= height - 1,
                    row.len() == y,
                    rng.inc == inc0,
                    (x - 1) * (h - 2) >= 0,
                    (x - 1) * (h - 2) + (y - 1) >= 0,
                    rng.state == pcg_state_after(
                        s0,
                        inc0,
                        ((x - 1) * (h - 2) + (y - 1)) as nat,
                    ),
                    row@[0] == TileType::Water,
                    forall|j: int|
                        1 <= j < y ==> row@[j] == seed_tile(
                            pcg_draw(s0, inc0, draw_index(h, x as int, j)),
                        ),
                decreases height - y,
            {
                let ghost k = ((x - 1) * (h - 2) + (y - 1)) as nat;
                let v = rng.next_u32();
                proof {
                    lemma_state_after_succ(s0, inc0, k);
                    assert(k + 1 == ((x - 1) * (h - 2) + y));
                    assert(v == pcg_draw(s0, inc0, k));
                    assert(k == draw_index(h, x as int, y as int));
                }
                if v % 100 < 45 {
                    row.push(TileType::Sand);
                } else {
                    row.push(TileType::Water);
                }
                y = y + 1;
            }
            row.push(TileType::Water);
            proof {
                assert(row@ =~= seeded_grid(s0, inc0, w, h)[x as int]);
                assert((x - 1) * (h - 2) + (h - 2) == ((x as int + 1) - 1) * (h - 2))
                    by (nonlinear_arith);
                if x as int + 1 >= w - 1 {
                    assert(x as int == w - 2);
                    assert((x - 1) * (h - 2) + (h - 2) == (w - 2) * (h - 2)) by (nonlinear_arith)
                        requires x as int == w - 2;
                }
            }
            g.push(row);
        }
        x = x + 1;
    }
    proof {
        assert(grid_of(g@) =~~= seeded_grid(s0, inc0, w, h));
    }
    g
}

/// One automaton step over the whole grid.
fn ca_step_exec(g: &Vec<Vec<TileType>>, width: usize, height: usize) -> (out: Vec<Vec<TileType>>)
    requires
        3 <= width <= 10000,
        3 <= height <= 10000,
        grid_wf(grid_of(g@), width as int, height as int),
    ensures
        grid_of(out@) == ca_step(grid_of(g@), width as int, height as int),
{
    let ghost gs = grid_of(g@);
    let ghost w = width as int;
    let ghost h = height as int;
    let mut out: Vec<Vec<TileType>> = Vec::new();
    let mut x: usize = 0;
    while x < width
        invariant
            3 <= width <= 10000,
            3 <= height <= 10000,
            w == width as int,
            h == height as int,
            gs == grid_of(g@),
            grid_wf(gs, w, h),
            x <= width,
            out.len() == x,
            forall|i: int| 0 <= i < x ==> (#[trigger] out@[i])@ =~= ca_step(gs, w, h)[i],
        decreases width - x,
    {
        let mut row: Vec<TileType> = Vec::new();
        let mut y: usize = 0;
        while y < height
            invariant
                3 <= width <= 10000,
                3 <= height <= 10000,
                w == width as int,
                h == height as int,
                gs == grid_of(g@),
                grid_wf(gs, w, h),
                x < width,
                y <= height,
                row.len() == y,
                forall|j: int| 0 <= j < y ==> row@[j] == ca_cell(gs, w, h, x as int, j),
            decreases height - y,
        {
            let tile: TileType;
            if x == 0 || x == width - 1 || y == 0 || y == height - 1 {
                tile = g[x][y];
            } else {
                let mut n: u32 = 0;
                if matches!(g[x - 1][y], TileType::Water) {
                    n = n + 1;
                }
                if matches!(g[x + 1][y], TileType::Water) {
                    n = n + 1;
                }
                if matches!(g[x][y - 1], TileType::Water) {
                    n = n + 1;
                }
                if matches!(g[x][y + 1], TileType::Water) {
                    n = n + 1;
                }
                if matches!(g[x - 1][y - 1], TileType::Water) {
                    n = n + 1;
                }
                if matches!(g[x + 1][y - 1], TileType::Water) {
                    n = n + 1;
                }
                if matches!(g[x - 1][y + 1], TileType::Water) {
                    n = n + 1;
                }
                if matches!(g[x + 1][y + 1], TileType::Water) {
                    n = n + 1;
                }
                proof {
                    assert(n as int == water_neighbors(gs, x as int, y as int));
                }
                if n > 4 {
                    tile = TileType::Water;
                } else {
                    tile = TileType::Sand;
                }
            }
            proof {
                assert(tile == ca_cell(gs, w, h, x as int, y as int));
            }
            row.push(tile);
            y = y + 1;
        }
        proof {
            assert(row@ =~= ca_step(gs, w, h)[x as int]);
        }
        out.push(row);
        x = x + 1;
    }
    proof {
        assert(grid_of(out@) =~~= ca_step(gs, w, h));
    }
    out
}

/// Automaton steps preserve the grid shape.
proof fn lemma_ca_run_wf(g: Seq<Seq<TileType>>, w: int, h: int, n: nat)
    requires
        0 <= w,
        0 <= h,
        grid_wf(g, w, h),
    ensures
        grid_wf(ca_run(g, w, h, n), w, h),
    decreases n,
{
    if n > 0 {
        lemma_ca_run_wf(g, w, h, (n - 1) as nat);
    }
}

/// Run `n` automaton steps.
fn ca_run_exec(g: Vec<Vec<TileType>>, width: usize, height: usize, n: u32) -> (out: Vec<
    Vec<TileType>,
>)
    requires
        3 <= width <= 10000,
        3 <= height <= 10000,
        grid_wf(grid_of(g@), width as int, height as int),
    ensures
        grid_of(out@) == ca_run(grid_of(g@), width as int, height as int, n as nat),
{
    let ghost g0 = grid_of(g@);
    let ghost w = width as int;
    let ghost h = height as int;
    let mut cur = g;
    let mut i: u32 = 0;
    while i < n
        invariant
            3 <= width <= 10000,
            3 <= height <= 10000,
            w == width as int,
            h == height as int,
            i <= n,
            grid_wf(g0, w, h),
            grid_of(cur@) == ca_run(g0, w, h, i as nat),
        decreases n - i,
    {
        proof {
            lemma_ca_run_wf(g0, w, h, i as nat);
        }
        cur = ca_step_exec(&cur, width, height);
        i = i + 1;
    }
    cur
}

} // verus!

verus! {

/// A cell the grass projection reads as vegetation-bearing.
pub open spec fn is_land(t: TileType) -> bool {
    t != TileType::Water && t != TileType::Void
}

/// The linear scale-and-offset remap that shrinks a source coordinate
/// toward the center of the grid.
pub open spec fn scale_coord(c: int, dim: int, mul: int, div: int) -> int {
    (c * mul + dim) / div
}

/// Some interior land cell of `src` lands on `(sx, sy)` under the
/// remap.
pub open spec fn projects_to(
    src: Seq<Seq<TileType>>,
    w: int,
    h: int,
    mul: int,
    div: int,
    sx: int,
    sy: int,
) -> bool {
    exists|a: int, b: int|
        1 <= a < w - 1 && 1 <= b < h - 1 && is_land(#[trigger] src[a][b]) && scale_coord(
            a,
            w,
            mul,
            div,
        ) == sx && scale_coord(b, h, mul, div) == sy
}

/// As `projects_to`, restricted to source cells before `(cx, cy)` in
/// row-major order.
pub open spec fn projects_to_before(
    src: Seq<Seq<TileType>>,
    w: int,
    h: int,
    mul: int,
    div: int,
    sx: int,
    sy: int,
    cx: int,
    cy: int,
) -> bool {
    exists|a: int, b: int|
        1 <= a < w - 1 && 1 <= b < h - 1 && (a < cx || (a == cx && b < cy)) && is_land(
            #[trigger] src[a][b],
        ) && scale_coord(a, w, mul, div) == sx && scale_coord(b, h, mul, div) == sy
}

/// The projection of `src` onto `dst`: every non-water cell of `dst`
/// hit by a land cell of `src` is promoted to grass.
pub open spec fn overlay(
    dst: Seq<Seq<TileType>>,
    src: Seq<Seq<TileType>>,
    w: int,
    h: int,
    mul: int,
    div: int,
) -> Seq<Seq<TileType>> {
    Seq::new(
        w as nat,
        |sx: int|
            Seq::new(
                h as nat,
                |sy: int|
                    if dst[sx][sy] != TileType::Water && projects_to(src, w, h, mul, div, sx, sy) {
                        TileType::Grass
                    } else {
                        dst[sx][sy]
                    },
            ),
    )
}

/// The projection restricted to source cells before `(cx, cy)`.
pub open spec fn overlay_before(
    dst: Seq<Seq<TileType>>,
    src: Seq<Seq<TileType>>,
    w: int,
    h: int,
    mul: int,
    div: int,
    cx: int,
    cy: int,
) -> Seq<Seq<TileType>> {
    Seq::new(
        w as nat,
        |sx: int|
            Seq::new(
                h as nat,
                |sy: int|
                    if dst[sx][sy] != TileType::Water && projects_to_before(
                        src,
                        w,
                        h,
                        mul,
                        div,
                        sx,
                        sy,
                        cx,
                        cy,
                    ) {
                        TileType::Grass
                    } else {
                        dst[sx][sy]
                    },
            ),
    )
}

/// Advancing the cursor one cell adds exactly the hits of that cell.
proof fn lemma_advance_cell(
    src: Seq<Seq<TileType>>,
    w: int,
    h: int,
    mul: int,
    div: int,
    x: int,
    y: int,
)
    requires
        1 <= x < w - 1,
        1 <= y < h - 1,
    ensures
        forall|sx: int, sy: int|
            #[trigger] projects_to_before(src, w, h, mul, div, sx, sy, x, y + 1) <==> (
            projects_to_before(src, w, h, mul, div, sx, sy, x, y) || (is_land(src[x][y])
                && scale_coord(x, w, mul, div) == sx && scale_coord(y, h, mul, div) == sy)),
{
    assert forall|sx: int, sy: int|
        #[trigger] projects_to_before(src, w, h, mul, div, sx, sy, x, y + 1) <==> (
        projects_to_before(src, w, h, mul, div, sx, sy, x, y) || (is_land(src[x][y]) && scale_coord(
            x,
            w,
            mul,
            div,
        ) == sx && scale_coord(y, h, mul, div) == sy)) by {
        if projects_to_before(src, w, h, mul, div, sx, sy, x, y + 1) {
            let (a, b) = choose|a: int, b: int|
                1 <= a < w - 1 && 1 <= b < h - 1 && (a < x || (a == x && b < y + 1)) && is_land(
                    #[trigger] src[a][b],
                ) && scale_coord(a, w, mul, div) == sx && scale_coord(b, h, mul, div) == sy;
            if a == x && b == y {
                assert(is_land(src[x][y]));
            } else {
                assert(a < x || (a == x && b < y));
                assert(projects_to_before(src, w, h, mul, div, sx, sy, x, y));
            }
        }
        if projects_to_before(src, w, h, mul, div, sx, sy, x, y) {
            let (a, b) = choose|a: int, b: int|
                1 <= a < w - 1 && 1 <= b < h - 1 && (a < x || (a == x && b < y)) && is_land(
                    #[trigger] src[a][b],
                ) && scale_coord(a, w, mul, div) == sx && scale_coord(b, h, mul, div) == sy;
            assert(a < x || (a == x && b < y + 1));
            assert(projects_to_before(src, w, h, mul, div, sx, sy, x, y + 1));
        }
        if is_land(src[x][y]) && scale_coord(x, w, mul, div) == sx && scale_coord(y, h, mul, div)
            == sy {
            assert(1 <= x < w - 1 && 1 <= y < h - 1 && (x < x || (x == x && y < y + 1)) && is_land(
                src[x][y],
            ) && scale_coord(x, w, mul, div) == sx && scale_coord(y, h, mul, div) == sy);
            assert(projects_to_before(src, w, h, mul, div, sx, sy, x, y + 1));
        }
    }
}

/// Finishing a row moves the cursor to the start of the next row.
proof fn lemma_advance_row(src: Seq<Seq<TileType>>, w: int, h: int, mul: int, div: int, x: int)
    requires
        1 <= x < w - 1,
    ensures
        forall|sx: int, sy: int|
            #[trigger] projects_to_before(src, w, h, mul, div, sx, sy, x, h - 1)
                == projects_to_before(src, w, h, mul, div, sx, sy, x + 1, 1),
{
    assert forall|sx: int, sy: int|
        #[trigger] projects_to_before(src, w, h, mul, div, sx, sy, x, h - 1) == projects_to_before(
        src,
        w,
        h,
        mul,
        div,
        sx,
        sy,
        x + 1,
        1,
    ) by {
        if projects_to_before(src, w, h, mul, div, sx, sy, x, h - 1) {
            let (a, b) = choose|a: int, b: int|
                1 <= a < w - 1 && 1 <= b < h - 1 && (a < x || (a == x && b < h - 1)) && is_land(
                    #[trigger] src[a][b],
                ) && scale_coord(a, w, mul, div) == sx && scale_coord(b, h, mul, div) == sy;
            assert(a < x + 1 || (a == x + 1 && b < 1));
            assert(projects_to_before(src, w, h, mul, div, sx, sy, x + 1, 1));
        }
        if projects_to_before(src, w, h, mul, div, sx, sy, x + 1, 1) {
            let (a, b) = choose|a: int, b: int|
                1 <= a < w - 1 && 1 <= b < h - 1 && (a < x + 1 || (a == x + 1 && b < 1)) && is_land(
                    #[trigger] src[a][b],
                ) && scale_coord(a, w, mul, div) == sx && scale_coord(b, h, mul, div) == sy;
            assert(a < x || (a == x && b < h - 1));
            assert(projects_to_before(src, w, h, mul, div, sx, sy, x, h - 1));
        }
    }
}

/// With the cursor past the last interior row, the restriction is no
/// restriction.
proof fn lemma_before_complete(src: Seq<Seq<TileType>>, w: int, h: int, mul: int, div: int)
    requires
        3 <= w,
        3 <= h,
    ensures
        forall|sx: int, sy: int|
            #[trigger] projects_to_before(src, w, h, mul, div, sx, sy, w - 1, 1) == projects_to(
                src,
                w,
                h,
                mul,
                div,
                sx,
                sy,
            ),
{
    assert forall|sx: int, sy: int|
        #[trigger] projects_to_before(src, w, h, mul, div, sx, sy, w - 1, 1) == projects_to(
        src,
        w,
        h,
        mul,
        div,
        sx,
        sy,
    ) by {
        if projects_to_before(src, w, h, mul, div, sx, sy, w - 1, 1) {
            let (a, b) = choose|a: int, b: int|
                1 <= a < w - 1 && 1 <= b < h - 1 && (a < w - 1 || (a == w - 1 && b < 1)) && is_land(
                    #[trigger] src[a][b],
                ) && scale_coord(a, w, mul, div) == sx && scale_coord(b, h, mul, div) == sy;
            assert(projects_to(src, w, h, mul, div, sx, sy));
        }
        if projects_to(src, w, h, mul, div, sx, sy) {
            let (a, b) = choose|a: int, b: int|
                1 <= a < w - 1 && 1 <= b < h - 1 && is_land(#[trigger] src[a][b]) && scale_coord(
                    a,
                    w,
                    mul,
                    div,
                ) == sx && scale_coord(b, h, mul, div) == sy;
            assert(a < w - 1 || (a == w - 1 && b < 1));
            assert(projects_to_before(src, w, h, mul, div, sx, sy, w - 1, 1));
        }
    }
}

} // verus!

verus! {

/// Project the land cells of `src` onto `dst`, promoting every
/// non-water cell they hit to grass.
fn overlay_exec(
    dst: Vec<Vec<TileType>>,
    src: &Vec<Vec<TileType>>,
    width: usize,
    height: usize,
    mul: usize,
    div: usize,
) -> (out: Vec<Vec<TileType>>)
    requires
        3 <= width <= 10000,
        3 <= height <= 10000,
        grid_wf(grid_of(dst@), width as int, height as int),
        grid_wf(grid_of(src@), width as int, height as int),
        (mul == 8 && div == 10) || (mul == 2 && div == 4),
    ensures
        grid_of(out@) == overlay(
            grid_of(dst@),
            grid_of(src@),
            width as int,
            height as int,
            mul as int,
            div as int,
        ),
{
    let ghost d0 = grid_of(dst@);
    let ghost s0 = grid_of(src@);
    let ghost w = width as int;
    let ghost h = height as int;
    let ghost m = mul as int;
    let ghost d = div as int;
    let mut cur = dst;
    let mut x: usize = 1;
    proof {
        assert(grid_of(cur@) =~~= overlay_before(d0, s0, w, h, m, d, 1, 1));
    }
    while x < width - 1
        invariant
            3 <= width <= 10000,
            3 <= height <= 10000,
            w == width as int,
            h == height as int,
            m == mul as int,
            d == div as int,
            (mul == 8 && div == 10) || (mul == 2 && div == 4),
            1 <= x <= width - 1,
            grid_wf(d0, w, h),
            grid_wf(s0, w, h),
            s0 == grid_of(src@),
            grid_of(cur@) == overlay_before(d0, s0, w, h, m, d, x as int, 1),
        decreases width - x,
    {
        let mut y: usize = 1;
        while y < height - 1
            invariant
                3 <= width <= 10000,
                3 <= height <= 10000,
                w == width as int,
                h == height as int,
                m == mul as int,
                d == div as int,
                (mul == 8 && div == 10) || (mul == 2 && div == 4),
                1 <= x < width - 1,
                1 <= y <= height - 1,
                grid_wf(d0, w, h),
                grid_wf(s0, w, h),
                s0 == grid_of(src@),
                grid_of(cur@) == overlay_before(d0, s0, w, h, m, d, x as int, y as int),
        decreases height - y,
        {
            proof {
                lemma_advance_cell(s0, w, h, m, d, x as int, y as int);
            }
            proof {
                assert(src@.len() == w);
                assert(s0[x as int].len() == h);
                assert(src@[x as int]@.len() == h);
            }
            let land = match src[x][y] {
                TileType::Water => false,
                TileType::Void => false,
                _ => true,
            };
            if land {
                let sx = (x * mul + width) / div;
                let sy = (y * mul + height) / div;
                proof {
                    assert(sx as int == scale_coord(x as int, w, m, d));
                    assert(sy as int == scale_coord(y as int, h, m, d));
                    assert(x as int * m + w <= 10000 * 8 + 10000);
                    assert((0 <= sx as int) && ((sx as int) < w) && (0 <= sy as int) && ((
                    sy as int) < h)) by (nonlinear_arith)
                        requires
                            sx as int == (x as int * m + w) / d,
                            sy as int == (y as int * m + h) / d,
                            1 <= x as int,
                            (x as int) < w - 1,
                            1 <= y as int,
                            (y as int) < h - 1,
                            3 <= w,
                            3 <= h,
                            (m == 8 && d == 10) || (m == 2 && d == 4);
                }
                proof {
                    assert(grid_of(cur@).len() == cur@.len());
                    assert(overlay_before(d0, s0, w, h, m, d, x as int, y as int).len() == w);
                    assert(cur@.len() == w);
                    assert(grid_of(cur@)[sx as int] == cur@[sx as int]@);
                    assert(overlay_before(d0, s0, w, h, m, d, x as int, y as int)[sx as int].len()
                        == h);
                    assert(cur@[sx as int]@.len() == h);
                }
                let target_water = matches!(cur[sx][sy], TileType::Water);
                proof {
                    // the projection never writes water and never
                    // changes a water cell, so the current cell is
                    // water exactly when the starting cell was
                    assert(grid_of(cur@)[sx as int][sy as int] == (
                        if d0[sx as int][sy as int] != TileType::Water
                            && projects_to_before(s0, w, h, m, d, sx as int, sy as int, x as int, y as int) {
                            TileType::Grass
                        } else {
                            d0[sx as int][sy as int]
                        }));
                    assert(target_water == (d0[sx as int][sy as int] == TileType::Water));
                }
                if !target_water {
                    let ghost pre = grid_of(cur@);
                    let row = &mut cur[sx];
                    row.set(sy, TileType::Grass);
                    proof {
                        assert(grid_of(cur@) =~~= pre.update(
                            sx as int,
                            pre[sx as int].update(sy as int, TileType::Grass),
                        ));
                        assert(grid_of(cur@) =~~= overlay_before(
                            d0,
                            s0,
                            w,
                            h,
                            m,
                            d,
                            x as int,
                            y as int + 1,
                        ));
                    }
                } else {
                    proof {
                        assert(grid_of(cur@) =~~= overlay_before(
                            d0,
                            s0,
                            w,
                            h,
                            m,
                            d,
                            x as int,
                            y as int + 1,
                        ));
                    }
                }
            } else {
                proof {
                    assert(!is_land(s0[x as int][y as int]));
                    assert(grid_of(cur@) =~~= overlay_before(
                        d0,
                        s0,
                        w,
                        h,
                        m,
                        d,
                        x as int,
                        y as int + 1,
                    ));
                }
            }
            y = y + 1;
        }
        proof {
            lemma_advance_row(s0, w, h, m, d, x as int);
            assert(grid_of(cur@) =~~= overlay_before(d0, s0, w, h, m, d, x as int + 1, 1));
        }
        x = x + 1;
    }
    proof {
        lemma_before_complete(s0, w, h, m, d);
        assert(grid_of(cur@) =~~= overlay(d0, s0, w, h, m, d));
    }
    cur
}

} // verus!

verus! {

/// Automaton rounds for the island base layer.
pub const BASE_ROUNDS: u32 = 9;

/// Automaton rounds for the sparse outer grass layer.
pub const GRASS_ROUNDS: u32 = 8;

/// Automaton rounds for the dense inner grass layer.
pub const DENSE_ROUNDS: u32 = 18;

/// The grid a generator with state `(s, inc)` produces for a `w` by
/// `h` map: an island base layer, then a sparse and a dense grass
/// layer projected onto it.
pub open spec fn spec_generate(s: u64, inc: u64, w: int, h: int) -> Seq<Seq<TileType>> {
    let base = ca_run(seeded_grid(s, inc, w, h), w, h, BASE_ROUNDS as nat);
    let s1 = pcg_state_after(s, inc, interior_count(w, h));
    let grass = ca_run(seeded_grid(s1, inc, w, h), w, h, GRASS_ROUNDS as nat);
    let m1 = overlay(base, grass, w, h, 8, 10);
    let s2 = pcg_state_after(s1, inc, interior_count(w, h));
    let dense = ca_run(seeded_grid(s2, inc, w, h), w, h, DENSE_ROUNDS as nat);
    overlay(m1, dense, w, h, 2, 4)
}

/// Generator state after the whole generation.
pub open spec fn spec_generate_end_state(s: u64, inc: u64, w: int, h: int) -> u64 {
    let s1 = pcg_state_after(s, inc, interior_count(w, h));
    let s2 = pcg_state_after(s1, inc, interior_count(w, h));
    pcg_state_after(s2, inc, interior_count(w, h))
}

/// The grid grown from a bare seed.
pub open spec fn spec_generate_from_seed(seed: u64, w: int, h: int) -> Seq<Seq<TileType>> {
    spec_generate(pcg_seed_state(seed).0, pcg_seed_state(seed).1, w, h)
}

impl TileMap {
    /// A well-formed map: accepted dimensions and a full rectangle of
    /// rows.
    pub open spec fn wf(self) -> bool {
        &&& MIN_DIM <= self.width <= MAX_DIM
        &&& MIN_DIM <= self.height <= MAX_DIM
        &&& grid_wf(grid_of(self.tiles@), self.width as int, self.height as int)
    }

    /// Generate the island for this world: a seeded base layer, then
    /// two grass layers of different density projected toward the
    /// center.  The produced grid is a pure function of the generator
    /// state and the dimensions.
    pub fn new(rng: &mut Pcg32, width: i32, height: i32) -> (r: TileMap)
        requires
            MIN_DIM <= width <= MAX_DIM,
            MIN_DIM <= height <= MAX_DIM,
        ensures
            r.width == width,
            r.height == height,
            r.wf(),
            grid_of(r.tiles@) == spec_generate(
                old(rng).state,
                old(rng).inc,
                width as int,
                height as int,
            ),
            final(rng).inc == old(rng).inc,
            final(rng).state == spec_generate_end_state(
                old(rng).state,
                old(rng).inc,
                width as int,
                height as int,
            ),
    {
        let w = width as usize;
        let h = height as usize;
        let ghost wi = width as int;
        let ghost hi = height as int;
        let ghost s0 = rng.state;
        let ghost inc0 = rng.inc;

        let seeded_base = seed_pass(rng, w, h);
        proof {
            assert(grid_wf(seeded_grid(s0, inc0, wi, hi), wi, hi));
            lemma_ca_run_wf(seeded_grid(s0, inc0, wi, hi), wi, hi, BASE_ROUNDS as nat);
        }
        let base = ca_run_exec(seeded_base, w, h, BASE_ROUNDS);

        let ghost s1 = rng.state;
        let seeded_grass = seed_pass(rng, w, h);
        proof {
            assert(grid_wf(seeded_grid(s1, inc0, wi, hi), wi, hi));
            lemma_ca_run_wf(seeded_grid(s1, inc0, wi, hi), wi, hi, GRASS_ROUNDS as nat);
        }
        let grass = ca_run_exec(seeded_grass, w, h, GRASS_ROUNDS);
        let m1 = overlay_exec(base, &grass, w, h, 8, 10);
        proof {
            assert(grid_wf(grid_of(m1@), wi, hi));
        }

        let ghost s2 = rng.state;
        let seeded_dense = seed_pass(rng, w, h);
        proof {
            assert(grid_wf(seeded_grid(s2, inc0, wi, hi), wi, hi));
            lemma_ca_run_wf(seeded_grid(s2, inc0, wi, hi), wi, hi, DENSE_ROUNDS as nat);
        }
        let dense = ca_run_exec(seeded_dense, w, h, DENSE_ROUNDS);
        let m2 = overlay_exec(m1, &dense, w, h, 2, 4);

        let r = TileMap { width, height, tiles: m2 };
        proof {
            assert(grid_of(r.tiles@) =~~= spec_generate(s0, inc0, wi, hi));
        }
        r
    }
}

/// An entity may stand on `(x, y)`: inside the grid and neither water
/// nor void.
pub open spec fn spec_walkable(g: Seq<Seq<TileType>>, w: int, h: int, x: int, y: int) -> bool {
    &&& 0 <= x < w
    &&& 0 <= y < h
    &&& g[x][y] != TileType::Water
    &&& g[x][y] != TileType::Void
}

/// Whether an entity may travel to the requested target tile.
pub fn valid_walking_location(map: &TileMap, wants_to_move: &WantsToMoveTo) -> (r: bool)
    requires
        map.wf(),
    ensures
        r == spec_walkable(
            grid_of(map.tiles@),
            map.width as int,
            map.height as int,
            wants_to_move.x as int,
            wants_to_move.y as int,
        ),
{
    if wants_to_move.x < 0 || wants_to_move.x > map.width - 1 {
        return false;
    }
    if wants_to_move.y < 0 || wants_to_move.y > map.height - 1 {
        return false;
    }
    proof {
        assert(map.tiles@.len() == map.width as int);
        assert(grid_of(map.tiles@)[wants_to_move.x as int].len() == map.height as int);
        assert(map.tiles@[wants_to_move.x as int]@.len() == map.height as int);
    }
    let tile = map.tiles[wants_to_move.x as usize][wants_to_move.y as usize];
    match tile {
        TileType::Water => false,
        TileType::Void => false,
        _ => true,
    }
}

/// Two locations are close enough for a hand-over: squared Euclidean
/// distance below twenty-five.
pub open spec fn spec_within_pickup(a: Location, b: Location) -> bool {
    (a.x - b.x) * (a.x - b.x) + (a.y - b.y) * (a.y - b.y) < 25
}

/// Determine if two locations are close enough that picking an item
/// up between them is reasonable.
pub fn within_pickup_distance(a: &Location, b: &Location) -> (r: bool)
    ensures
        r == spec_within_pickup(*a, *b),
{
    let dx: i128 = a.x as i128 - b.x as i128;
    let dy: i128 = a.y as i128 - b.y as i128;
    proof {
        assert(dx * dx + dy * dy < i128::MAX && dx * dx >= 0 && dy * dy >= 0) by (nonlinear_arith)
            requires
                -5000000000 < dx < 5000000000,
                -5000000000 < dy < 5000000000;
        assert(dx * dx + dy * dy == (a.x - b.x) * (a.x - b.x) + (a.y - b.y) * (a.y - b.y));
    }
    dx * dx + dy * dy < 25
}

} // verus!

verus! {

/// Attempts the bounded rejection sampler makes before giving up.
pub const RAND_LOC_ATTEMPTS: u32 = 100;

/// Whether a tile satisfies a location request: a requested type
/// exactly, or any walkable tile when no type is requested.
pub open spec fn tile_matches(t: TileType, want: Option<TileType>) -> bool {
    match want {
        Option::None => t != TileType::Void && t != TileType::Water,
        Option::Some(tt) => t == tt,
    }
}

/// The bounded rejection sampler: draw a column and a row, stop on a
/// matching tile, give up when the fuel runs out.  Returns the found
/// location and the generator state after the search.
pub open spec fn rand_loc_search(
    g: Seq<Seq<TileType>>,
    want: Option<TileType>,
    xlo: u32,
    xhi: u32,
    ylo: u32,
    yhi: u32,
    s: u64,
    inc: u64,
    fuel: nat,
) -> (Option<Location>, u64)
    decreases fuel,
{
    if fuel == 0 {
        (Option::None, s)
    } else {
        let dx = pcg_in_range(s, inc, xlo, xhi);
        let dy = pcg_in_range(dx.1, inc, ylo, yhi);
        if tile_matches(g[dx.0 as int][dy.0 as int], want) {
            (Option::Some(Location { x: dx.0 as i32, y: dy.0 as i32 }), dy.1)
        } else {
            rand_loc_search(g, want, xlo, xhi, ylo, yhi, dy.1, inc, (fuel - 1) as nat)
        }
    }
}

/// Lower edge of the column range the sampler draws from.  Sand is
/// deliberately not sampled uniformly over the grid: the search is
/// restricted to the rightmost tenth of the map, the island's spawn
/// beach, so fresh players appear on the east shore.
pub open spec fn search_x_lo(w: int, want: Option<TileType>) -> int {
    if want == Option::Some(TileType::Sand) {
        w * 9 / 10
    } else {
        1
    }
}

/// The bounded sampler's outcome for a whole map: the found location
/// (if any) and the generator state afterwards.  Empty ranges search
/// nothing and leave the generator untouched.
pub open spec fn spec_random_location(
    g: Seq<Seq<TileType>>,
    w: int,
    h: int,
    want: Option<TileType>,
    s: u64,
    inc: u64,
) -> (Option<Location>, u64) {
    let xlo = search_x_lo(w, want);
    let xhi = w - 1;
    let yhi = h - 1;
    if xlo < xhi && 1 < yhi {
        rand_loc_search(
            g,
            want,
            xlo as u32,
            xhi as u32,
            1,
            yhi as u32,
            s,
            inc,
            RAND_LOC_ATTEMPTS as nat,
        )
    } else {
        (Option::None, s)
    }
}

/// Return a random location bearing the requested tile type, or any
/// walkable tile when no type is given.  Sand is sampled only from
/// the spawn beach on the right edge (see `search_x_lo`).  The
/// search is bounded: `None` is returned when the ranges are empty
/// or no matching tile was found within the allotted attempts, so a
/// missing tile type cannot hang the server.
pub fn get_random_location_of_tile(
    map: &TileMap,
    rng: &mut Pcg32,
    tile_type: Option<TileType>,
) -> (r: Option<Location>)
    requires
        map.wf(),
    ensures
        ({
            let res = spec_random_location(
                grid_of(map.tiles@),
                map.width as int,
                map.height as int,
                tile_type,
                old(rng).state,
                old(rng).inc,
            );
            r == res.0 && final(rng).state == res.1 && final(rng).inc == old(rng).inc
        }),
        r matches Option::Some(l) ==> 1 <= l.x < map.width - 1 && 1 <= l.y < map.height - 1
            && tile_matches(grid_of(map.tiles@)[l.x as int][l.y as int], tile_type),
{
    let ghost g = grid_of(map.tiles@);
    let ghost s0 = rng.state;
    let ghost inc0 = rng.inc;
    let is_sand = match tile_type {
        Option::Some(TileType::Sand) => true,
        _ => false,
    };
    let xlo: u32 = if is_sand {
        ((map.width as u32) * 9) / 10
    } else {
        1
    };
    let xhi: u32 = (map.width - 1) as u32;
    let ylo: u32 = 1;
    let yhi: u32 = (map.height - 1) as u32;
    proof {
        assert(xlo as int == search_x_lo(map.width as int, tile_type));
    }
    if xlo >= xhi || ylo >= yhi {
        return Option::None;
    }
    let mut fuel: u32 = RAND_LOC_ATTEMPTS;
    while fuel > 0
        invariant
            map.wf(),
            g == grid_of(map.tiles@),
            rng.inc == inc0,
            fuel <= RAND_LOC_ATTEMPTS,
            xlo < xhi,
            ylo < yhi,
            xhi as int == map.width - 1,
            yhi as int == map.height - 1,
            ylo == 1,
            xlo >= 1,
            xlo as int == search_x_lo(map.width as int, tile_type),
            s0 == old(rng).state,
            inc0 == old(rng).inc,
            rand_loc_search(g, tile_type, xlo, xhi, ylo, yhi, rng.state, inc0, fuel as nat)
                == rand_loc_search(
                g,
                tile_type,
                xlo,
                xhi,
                ylo,
                yhi,
                s0,
                inc0,
                RAND_LOC_ATTEMPTS as nat,
            ),
        decreases fuel,
    {
        let ghost scur = rng.state;
        let x = rng.next_in_range(xlo, xhi);
        let y = rng.next_in_range(ylo, yhi);
        proof {
            assert(x == pcg_in_range(scur, inc0, xlo, xhi).0);
            assert(y == pcg_in_range(pcg_in_range(scur, inc0, xlo, xhi).1, inc0, ylo, yhi).0);
            assert(rng.state == pcg_in_range(
                pcg_in_range(scur, inc0, xlo, xhi).1,
                inc0,
                ylo,
                yhi,
            ).1);
            assert(map.tiles@.len() == map.width as int);
            assert(grid_of(map.tiles@)[x as int].len() == map.height as int);
            assert(map.tiles@[x as int]@.len() == map.height as int);
        }
        let tile = map.tiles[x as usize][y as usize];
        let matched = match tile_type {
            Option::None => !matches!(tile, TileType::Void) && !matches!(tile, TileType::Water),
            Option::Some(tt) => {
                let same = match (tile, tt) {
                    (TileType::Void, TileType::Void) => true,
                    (TileType::Water, TileType::Water) => true,
                    (TileType::Sand, TileType::Sand) => true,
                    (TileType::Grass, TileType::Grass) => true,
                    _ => false,
                };
                same
            },
        };
        proof {
            assert(matched == tile_matches(g[x as int][y as int], tile_type));
            assert(rand_loc_search(g, tile_type, xlo, xhi, ylo, yhi, scur, inc0, fuel as nat) == (
            if matched {
                (
                    Option::Some(Location { x: x as i32, y: y as i32 }),
                    rng.state,
                )
            } else {
                rand_loc_search(
                    g,
                    tile_type,
                    xlo,
                    xhi,
                    ylo,
                    yhi,
                    rng.state,
                    inc0,
                    (fuel - 1) as nat,
                )
            }));
        }
        if matched {
            proof {
                assert(xlo >= 1);
                assert(search_x_lo(map.width as int, tile_type) as u32 == xlo);
                assert((map.width - 1) as u32 == xhi);
                assert((map.height - 1) as u32 == yhi);
                assert(rand_loc_search(
                    g,
                    tile_type,
                    xlo,
                    xhi,
                    ylo,
                    yhi,
                    s0,
                    inc0,
                    RAND_LOC_ATTEMPTS as nat,
                ).0 == Option::Some(Location { x: x as i32, y: y as i32 }));
                assert(rand_loc_search(
                    g,
                    tile_type,
                    xlo,
                    xhi,
                    ylo,
                    yhi,
                    s0,
                    inc0,
                    RAND_LOC_ATTEMPTS as nat,
                ).1 == rng.state);
            }
            return Option::Some(Location { x: x as i32, y: y as i32 });
        }
        fuel = fuel - 1;
    }
    Option::None
}

} // verus!

verus! {

/// One cell of the isometric mask: a diamond band of water cells on a
/// void background, so clients need not receive a separate mask.
pub open spec fn iso_cell(w: int, h: int, k: int, i: int, j: int) -> TileType {
    let dmax = if w - 1 <= h - 1 {
        w - 1
    } else {
        h - 1
    };
    if i == j && i < dmax {
        TileType::Water
    } else if i > j && j < dmax && i - j < k && i < w - 1 {
        TileType::Water
    } else if i < j && i < dmax && j - i < k && j < h - 1 {
        TileType::Water
    } else {
        TileType::Void
    }
}

/// Width of the diamond band of the isometric mask.
pub open spec fn iso_span(w: int, h: int) -> int {
    let m = if w <= h {
        w
    } else {
        h
    };
    m * 10 / 21
}

/// The whole isometric mask.
pub open spec fn iso_grid(w: int, h: int) -> Seq<Seq<TileType>> {
    Seq::new(w as nat, |i: int| Seq::new(h as nat, |j: int| iso_cell(w, h, iso_span(w, h), i, j)))
}

/// Generate a mask of void tiles with a diamond of water where the
/// isometric map is rendered, so that no separate mask data needs to
/// be sent to the clients.
pub fn blank_isometric_map(width: usize, height: usize) -> (g: Vec<Vec<TileType>>)
    requires
        1 <= width <= 10000,
        1 <= height <= 10000,
    ensures
        grid_of(g@) == iso_grid(width as int, height as int),
{
    let dmax = if width - 1 <= height - 1 {
        width - 1
    } else {
        height - 1
    };
    let m = if width <= height {
        width
    } else {
        height
    };
    let k = m * 10 / 21;
    let ghost w = width as int;
    let ghost h = height as int;
    let mut g: Vec<Vec<TileType>> = Vec::new();
    let mut i: usize = 0;
    while i < width
        invariant
            1 <= width <= 10000,
            1 <= height <= 10000,
            w == width as int,
            h == height as int,
            dmax as int == (if w - 1 <= h - 1 { w - 1 } else { h - 1 }),
            k as int == iso_span(w, h),
            i <= width,
            g.len() == i,
            forall|a: int| 0 <= a < i ==> (#[trigger] g@[a])@ =~= iso_grid(w, h)[a],
        decreases width - i,
    {
        let mut row: Vec<TileType> = Vec::new();
        let mut j: usize = 0;
        while j < height
            invariant
                1 <= width <= 10000,
                1 <= height <= 10000,
                w == width as int,
                h == height as int,
                dmax as int == (if w - 1 <= h - 1 { w - 1 } else { h - 1 }),
                k as int == iso_span(w, h),
                i < width,
                j <= height,
                row.len() == j,
                forall|b: int|
                    0 <= b < j ==> #[trigger] row@[b] == iso_cell(w, h, iso_span(w, h), i as int, b),
            decreases height - j,
        {
            let tile: TileType;
            if i == j && i < dmax {
                tile = TileType::Water;
            } else if i > j && j < dmax && i - j < k && i < width - 1 {
                tile = TileType::Water;
            } else if i < j && i < dmax && j - i < k && j < height - 1 {
                tile = TileType::Water;
            } else {
                tile = TileType::Void;
            }
            proof {
                assert(tile == iso_cell(w, h, iso_span(w, h), i as int, j as int));
            }
            row.push(tile);
            j = j + 1;
        }
        proof {
            assert(row@ =~= iso_grid(w, h)[i as int]);
        }
        g.push(row);
        i = i + 1;
    }
    proof {
        assert(grid_of(g@) =~~= iso_grid(w, h));
    }
    g
}

/// Every cell of the border ring is water.
pub open spec fn border_water(g: Seq<Seq<TileType>>, w: int, h: int) -> bool {
    &&& forall|x: int|
        0 <= x < w ==> (#[trigger] g[x])[0] == TileType::Water && g[x][h - 1] == TileType::Water
    &&& forall|y: int|
        0 <= y < h ==> #[trigger] g[0][y] == TileType::Water && g[w - 1][y] == TileType::Water
}

proof fn lemma_ca_run_border(g: Seq<Seq<TileType>>, w: int, h: int, n: nat)
    requires
        3 <= w,
        3 <= h,
        grid_wf(g, w, h),
        border_water(g, w, h),
    ensures
        border_water(ca_run(g, w, h, n), w, h),
    decreases n,
{
    if n > 0 {
        lemma_ca_run_border(g, w, h, (n - 1) as nat);
        lemma_ca_run_wf(g, w, h, (n - 1) as nat);
    }
}

proof fn lemma_overlay_border(
    dst: Seq<Seq<TileType>>,
    src: Seq<Seq<TileType>>,
    w: int,
    h: int,
    mul: int,
    div: int,
)
    requires
        3 <= w,
        3 <= h,
        border_water(dst, w, h),
    ensures
        border_water(overlay(dst, src, w, h, mul, div), w, h),
{
}

/// Law: the border row and column of a generated map are always
/// water, whatever the seed — the island never touches the map edge.
pub proof fn lemma_terrain_border_water(s: u64, inc: u64, w: int, h: int)
    requires
        MIN_DIM <= w <= MAX_DIM,
        MIN_DIM <= h <= MAX_DIM,
    ensures
        border_water(spec_generate(s, inc, w, h), w, h),
{
    let s1 = pcg_state_after(s, inc, interior_count(w, h));
    let s2 = pcg_state_after(s1, inc, interior_count(w, h));
    let base = ca_run(seeded_grid(s, inc, w, h), w, h, BASE_ROUNDS as nat);
    let grass = ca_run(seeded_grid(s1, inc, w, h), w, h, GRASS_ROUNDS as nat);
    let m1 = overlay(base, grass, w, h, 8, 10);
    let dense = ca_run(seeded_grid(s2, inc, w, h), w, h, DENSE_ROUNDS as nat);
    assert(border_water(seeded_grid(s, inc, w, h), w, h));
    assert(grid_wf(seeded_grid(s, inc, w, h), w, h));
    lemma_ca_run_border(seeded_grid(s, inc, w, h), w, h, BASE_ROUNDS as nat);
    lemma_overlay_border(base, grass, w, h, 8, 10);
    lemma_overlay_border(m1, dense, w, h, 2, 4);
}

/// Law: terrain generation is deterministic — two grids grown from
/// one seed and one pair of dimensions are equal, cell for cell.
pub proof fn lemma_terrain_deterministic(
    g1: Seq<Seq<TileType>>,
    g2: Seq<Seq<TileType>>,
    seed: u64,
    w: int,
    h: int,
)
    requires
        g1 == spec_generate_from_seed(seed, w, h),
        g2 == spec_generate_from_seed(seed, w, h),
    ensures
        g1 == g2,
{
}

} // verus!
