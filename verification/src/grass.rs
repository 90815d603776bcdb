//! Where the grass stands: the field's grid, the clumps on it, and what each clump
//! looks like.

use vstd::prelude::*;

use crate::mesh::Triangles;
use crate::order;
use crate::order::Ranked;

verus! {

/// Half the arena's extent, in units.
pub const ARENA_HALF_W: i32 = 400;

pub const ARENA_HALF_H: i32 = 300;

/// How far apart the corners of the field's mesh are.
pub const GRASS_GRID: i32 = 20;

/// How far apart clumps are tried.
pub const TUFT_STEP: i32 = 4;

/// How deep grass has to be to stand in clumps.
pub const TUFT_MIN_H: i32 = 6;

/// How many drawings of a clump there are.
pub const TUFT_VARIANTS: u32 = 12;

/// How high a band of clumps is that is drawn at one go, and how many there are.
pub const GRASS_BAND: i32 = 4;

pub const BANDS: usize = 150;

/// How many places clumps are tried at in a row, and how many rows there are.
pub const TUFT_COLS: u32 = 201;

pub const TUFT_ROWS: u32 = 151;

// ---------------------------------------------------------------------------
// Whole units.
// ---------------------------------------------------------------------------

/// A quotient, rounded towards nothing.
pub open spec fn toward_zero(n: int, d: int) -> int {
    if n >= 0 {
        n / d
    } else {
        -((-n) / d)
    }
}

fn quotient(n: i32, d: i32) -> (out: i32)
    requires
        d > 0,
    ensures
        out == toward_zero(n as int, d as int),
{
    if n >= 0 {
        let out: u32 = n as u32 / d as u32;
        assert(out <= n) by (nonlinear_arith)
            requires
                out == n as u32 / d as u32,
                d > 0,
                n >= 0,
        ;
        out as i32
    } else {
        let size: u64 = (-(n as i64)) as u64;
        let part: u64 = size / d as u64;
        assert(part <= size) by (nonlinear_arith)
            requires
                part == size / (d as u64),
                d > 0,
        ;
        (-(part as i64)) as i32
    }
}

/// A fixed-point position in whole units, rounded towards the middle.
pub fn units(x: i32, y: i32, unit: i32) -> (out: (i32, i32))
    requires
        unit > 0,
    ensures
        out.0 == toward_zero(x as int, unit as int),
        out.1 == toward_zero(y as int, unit as int),
{
    (quotient(x, unit), quotient(y, unit))
}

// ---------------------------------------------------------------------------
// Scattering.
// ---------------------------------------------------------------------------

pub open spec fn range32() -> int {
    0x1_0000_0000
}

/// A product that keeps its low 32 bits.
pub open spec fn low_product(a: u32, b: u32) -> u32 {
    ((a * b) % range32()) as u32
}

fn mul_low(a: u32, b: u32) -> (out: u32)
    ensures
        out == low_product(a, b),
{
    assert(a * b <= 0xffff_ffff * 0xffff_ffff) by (nonlinear_arith)
        requires
            a <= 0xffff_ffff,
            b <= 0xffff_ffff,
    ;
    let wide: u64 = a as u64 * b as u64;
    (wide % 0x1_0000_0000) as u32
}

/// A coordinate's 32 bits.
pub open spec fn bits_of(n: i32) -> u32 {
    (n as int % range32()) as u32
}

fn to_bits(n: i32) -> (out: u32)
    ensures
        out == bits_of(n),
{
    if n >= 0 {
        n as u32
    } else {
        (n as i64 + 0x1_0000_0000) as u32
    }
}

/// The noise at a place: the same everywhere and every time.
pub open spec fn noise_at(x: i32, y: i32, salt: u32) -> u32 {
    let a = low_product(bits_of(x), 0x27D4_EB2D) ^ low_product(bits_of(y), 0x1656_67B1) ^ salt;
    let b = a ^ (a >> 15);
    let c = low_product(b, 0x2545_F491);
    c ^ (c >> 13)
}

pub fn scatter(x: i32, y: i32, salt: u32) -> (out: u32)
    ensures
        out == noise_at(x, y, salt),
{
    let a: u32 = mul_low(to_bits(x), 0x27D4_EB2D) ^ mul_low(to_bits(y), 0x1656_67B1) ^ salt;
    let b: u32 = a ^ (a >> 15);
    let c: u32 = mul_low(b, 0x2545_F491);
    c ^ (c >> 13)
}

// ---------------------------------------------------------------------------
// Clumps.
// ---------------------------------------------------------------------------

/// A clump: where it stands, and the noise it was tried with.
#[derive(Debug, Clone, Copy, PartialEq, Eq, Structural)]
pub struct Clump {
    pub x: i32,
    pub y: i32,
    pub noise: u32,
}

impl Ranked for Clump {
    open spec fn le(self, other: Self) -> bool {
        self.y > other.y || (self.y == other.y && self.x <= other.x)
    }

    proof fn le_total(a: Self, b: Self) {
    }

    proof fn le_trans(a: Self, b: Self, c: Self) {
    }

    fn may_precede(&self, other: &Self) -> (yes: bool) {
        self.y > other.y || (self.y == other.y && self.x <= other.x)
    }
}

pub open spec fn in_arena(x: int, y: int) -> bool {
    -ARENA_HALF_W <= x <= ARENA_HALF_W && -ARENA_HALF_H <= y <= ARENA_HALF_H
}

/// The clump that is tried at a place of the grid: moved off it a little by the
/// noise there, and dropped where that takes it out of the arena.
pub open spec fn site_at(x: i32, y: i32) -> Option<Clump> {
    let noise = noise_at(x, y, 0x51DE);
    let jx = x + (noise as int % 4) - 2;
    let jy = y + (noise as int / 64 % 4) - 2;
    if in_arena(jx, jy) {
        Some(Clump { x: jx as i32, y: jy as i32, noise })
    } else {
        None
    }
}

/// The `k`-th place of the grid, row by row.
pub open spec fn grid_x(k: int) -> int {
    -ARENA_HALF_W + 4 * (k % (TUFT_COLS as int))
}

pub open spec fn grid_y(k: int) -> int {
    -ARENA_HALF_H + 4 * (k / (TUFT_COLS as int))
}

/// The clumps that are tried at the first `n` places.
pub open spec fn sites(n: nat) -> Seq<Clump>
    decreases n,
{
    if n == 0 {
        Seq::empty()
    } else {
        let rest = sites((n - 1) as nat);
        match site_at(grid_x(n - 1) as i32, grid_y(n - 1) as i32) {
            Some(clump) => rest.push(clump),
            None => rest,
        }
    }
}

pub open spec fn places() -> nat {
    (TUFT_COLS * TUFT_ROWS) as nat
}

fn try_site(x: i32, y: i32) -> (out: Option<Clump>)
    requires
        in_arena(x as int, y as int),
    ensures
        out == site_at(x, y),
{
    let noise: u32 = scatter(x, y, 0x51DE);
    let jx: i32 = x + (noise % 4) as i32 - 2;
    let jy: i32 = y + (noise / 64 % 4) as i32 - 2;
    if jx < -ARENA_HALF_W || jx > ARENA_HALF_W || jy < -ARENA_HALF_H || jy > ARENA_HALF_H {
        None
    } else {
        Some(Clump { x: jx, y: jy, noise })
    }
}

/// Every clump that is tried in the arena.
pub fn tuft_sites() -> (out: Vec<Clump>)
    ensures
        out@ == sites(places()),
{
    let mut out: Vec<Clump> = Vec::new();
    let total: u32 = TUFT_COLS * TUFT_ROWS;
    let mut k: u32 = 0;
    while k < total
        invariant
            k <= total,
            total == 30351,
            out@ == sites(k as nat),
        decreases total - k,
    {
        let col: u32 = k % TUFT_COLS;
        let row: u32 = k / TUFT_COLS;
        let x: i32 = -ARENA_HALF_W + 4 * col as i32;
        let y: i32 = -ARENA_HALF_H + 4 * row as i32;
        if let Some(clump) = try_site(x, y) {
            out.push(clump);
        }
        k = k + 1;
    }
    out
}

/// Every clump that is tried is inside the arena.
pub proof fn clumps_stay_in_the_arena(n: nat, i: int)
    requires
        0 <= i < sites(n).len(),
    ensures
        in_arena(sites(n)[i].x as int, sites(n)[i].y as int),
    decreases n,
{
    if n > 0 {
        let rest = sites((n - 1) as nat);
        if i < rest.len() {
            clumps_stay_in_the_arena((n - 1) as nat, i);
        }
    }
}

/// What the ground is like under a clump: how deep the grass is, and how many of
/// 256 tries stand there.
#[derive(Debug, Clone, Copy, PartialEq, Eq, Structural)]
pub struct Ground {
    pub depth: i32,
    pub density: u32,
}

/// A rock: where it lies and how far it reaches.
#[derive(Debug, Clone, Copy, PartialEq, Eq, Structural)]
pub struct Stone {
    pub x: i32,
    pub y: i32,
    pub r: i32,
}

/// Whether a rock's way from a clump, and its reach, are numbers of 32 bits.
pub open spec fn stone_fits(clump: Clump, s: Stone) -> bool {
    &&& i32::MIN <= clump.x - s.x <= i32::MAX
    &&& i32::MIN <= clump.y - s.y <= i32::MAX
    &&& i32::MIN <= s.r - 2
}

/// Whether a place is within a rock, two units short of its edge.
pub open spec fn in_stone(x: int, y: int, s: Stone) -> bool {
    let reach: int = if s.r > 2 {
        s.r - 2
    } else {
        0
    };
    (x - s.x) * (x - s.x) + (y - s.y) * (y - s.y) < reach * reach
}

/// Whether a clump grows: the grass is deep and thick enough for it, and no rock
/// is in its place.
pub open spec fn grows(clump: Clump, ground: Ground, stones: Seq<Stone>) -> bool {
    &&& ground.depth >= TUFT_MIN_H
    &&& (clump.noise as int / 65536) % 256 <= ground.density
    &&& forall|i: int|
        0 <= i < stones.len() ==> !in_stone(clump.x as int, clump.y as int, #[trigger] stones[i])
}

/// The clumps that grow, in the order they were tried.
pub open spec fn grown(tried: Seq<Clump>, ground: Seq<Ground>, stones: Seq<Stone>) -> Seq<Clump>
    decreases tried.len(),
{
    if tried.len() == 0 {
        Seq::empty()
    } else {
        let rest = grown(tried.drop_last(), ground, stones);
        if grows(tried.last(), ground[tried.len() - 1], stones) {
            rest.push(tried.last())
        } else {
            rest
        }
    }
}

/// The band that a clump is drawn in, counted from the far side.
pub open spec fn band_of(y: int) -> int {
    let band = toward_zero(ARENA_HALF_H - y, GRASS_BAND as int);
    if band < 0 {
        0
    } else if band > BANDS - 1 {
        BANDS - 1
    } else {
        band
    }
}

/// The clumps of a band, in the order they came.
pub open spec fn of_band(clumps: Seq<Clump>, band: int) -> Seq<Clump>
    decreases clumps.len(),
{
    if clumps.len() == 0 {
        Seq::empty()
    } else {
        let rest = of_band(clumps.drop_last(), band);
        if band_of(clumps.last().y as int) == band {
            rest.push(clumps.last())
        } else {
            rest
        }
    }
}

fn square(n: i32) -> (out: i128)
    ensures
        out == n * n,
        0 <= out <= 0x8000_0000 * 0x8000_0000,
{
    assert(0 <= n * n <= 0x8000_0000 * 0x8000_0000) by (nonlinear_arith)
        requires
            -0x8000_0000 <= n <= 0x8000_0000,
    ;
    n as i128 * n as i128
}

fn on_stone(clump: Clump, stones: &Vec<Stone>) -> (yes: bool)
    requires
        forall|i: int| 0 <= i < stones@.len() ==> stone_fits(clump, #[trigger] stones@[i]),
    ensures
        yes == exists|i: int|
            0 <= i < stones@.len() && in_stone(
                clump.x as int,
                clump.y as int,
                #[trigger] stones@[i],
            ),
{
    let mut i: usize = 0;
    while i < stones.len()
        invariant
            i <= stones.len(),
            forall|j: int| 0 <= j < stones@.len() ==> stone_fits(clump, #[trigger] stones@[j]),
            forall|j: int|
                0 <= j < i ==> !in_stone(clump.x as int, clump.y as int, #[trigger] stones@[j]),
        decreases stones.len() - i,
    {
        let s = stones[i];
        assert(stone_fits(clump, stones@[i as int]));
        let reach: i32 = if s.r > 2 {
            s.r - 2
        } else {
            0
        };
        if square(clump.x - s.x) + square(clump.y - s.y) < square(reach) {
            assert(in_stone(clump.x as int, clump.y as int, stones@[i as int]));
            return true;
        }
        i = i + 1;
    }
    false
}

fn band_index(y: i32) -> (out: usize)
    requires
        -ARENA_HALF_H <= y <= ARENA_HALF_H,
    ensures
        out == band_of(y as int),
        out < BANDS,
{
    let band: u32 = (ARENA_HALF_H - y) as u32 / GRASS_BAND as u32;
    if band as usize > BANDS - 1 {
        BANDS - 1
    } else {
        band as usize
    }
}

/// The clumps that grow, band by band, each band from the far side and then from
/// the left. `ground` says for each clump that was tried what is under it.
pub fn tuft_bands(tried: &Vec<Clump>, ground: &Vec<Ground>, stones: &Vec<Stone>) -> (out: Vec<
    Vec<Clump>,
>)
    requires
        ground.len() == tried.len(),
        forall|i: int|
            0 <= i < tried@.len() ==> in_arena(
                (#[trigger] tried@[i]).x as int,
                tried@[i].y as int,
            ),
        forall|i: int, k: int|
            0 <= i < tried@.len() && 0 <= k < stones@.len() ==> stone_fits(
                #[trigger] tried@[i],
                #[trigger] stones@[k],
            ),
    ensures
        out@.len() == BANDS,
        forall|b: int|
            0 <= b < BANDS ==> (#[trigger] out@[b])@ == order::arranged(
                of_band(grown(tried@, ground@, stones@), b),
            ),
{
    let mut clumps: Vec<Clump> = Vec::new();
    let mut i: usize = 0;
    assert(tried@.take(0) =~= Seq::empty());
    while i < tried.len()
        invariant
            i <= tried.len(),
            ground.len() == tried.len(),
            forall|k: int|
                0 <= k < tried@.len() ==> in_arena(
                    (#[trigger] tried@[k]).x as int,
                    tried@[k].y as int,
                ),
            forall|i: int, k: int|
                0 <= i < tried@.len() && 0 <= k < stones@.len() ==> stone_fits(
                    #[trigger] tried@[i],
                    #[trigger] stones@[k],
                ),
            clumps@ == grown(tried@.take(i as int), ground@, stones@),
            forall|k: int|
                0 <= k < clumps@.len() ==> in_arena(
                    (#[trigger] clumps@[k]).x as int,
                    clumps@[k].y as int,
                ),
        decreases tried.len() - i,
    {
        let clump = tried[i];
        assert(tried@.take(i + 1).drop_last() =~= tried@.take(i as int));
        if ground[i].depth >= TUFT_MIN_H && (clump.noise / 65536) % 256 <= ground[i].density {
            if !on_stone(clump, stones) {
                clumps.push(clump);
            }
        }
        i = i + 1;
    }
    assert(tried@.take(i as int) =~= tried@);
    let mut out: Vec<Vec<Clump>> = Vec::new();
    let mut b: usize = 0;
    while b < BANDS
        invariant
            b <= BANDS,
            out@.len() == b,
            clumps@ == grown(tried@, ground@, stones@),
            forall|k: int|
                0 <= k < clumps@.len() ==> in_arena(
                    (#[trigger] clumps@[k]).x as int,
                    clumps@[k].y as int,
                ),
            forall|k: int|
                0 <= k < b ==> (#[trigger] out@[k])@ == order::arranged(of_band(clumps@, k)),
        decreases BANDS - b,
    {
        let mut row: Vec<Clump> = Vec::new();
        let mut j: usize = 0;
        assert(clumps@.take(0) =~= Seq::empty());
        while j < clumps.len()
            invariant
                j <= clumps.len(),
                forall|k: int|
                    0 <= k < clumps@.len() ==> in_arena(
                        (#[trigger] clumps@[k]).x as int,
                        clumps@[k].y as int,
                    ),
                row@ == of_band(clumps@.take(j as int), b as int),
            decreases clumps.len() - j,
        {
            assert(clumps@.take(j + 1).drop_last() =~= clumps@.take(j as int));
            if band_index(clumps[j].y) == b {
                row.push(clumps[j]);
            }
            j = j + 1;
        }
        assert(clumps@.take(j as int) =~= clumps@);
        out.push(order::arrange(&row));
        b = b + 1;
    }
    out
}

proof fn lemma_of_band(clumps: Seq<Clump>, band: int, c: Clump)
    ensures
        of_band(clumps, band).contains(c) <==> clumps.contains(c) && band_of(c.y as int) == band,
    decreases clumps.len(),
{
    if clumps.len() > 0 {
        let rest = clumps.drop_last();
        let before = of_band(rest, band);
        let all = of_band(clumps, band);
        lemma_of_band(rest, band, c);
        assert(clumps[clumps.len() - 1] == clumps.last());
        if before.contains(c) {
            let k = choose|k: int| 0 <= k < before.len() && before[k] == c;
            assert(all[k] == c);
        }
        if rest.contains(c) {
            let k = choose|k: int| 0 <= k < rest.len() && rest[k] == c;
            assert(clumps[k] == c);
        }
        if clumps.contains(c) && !rest.contains(c) {
            let k = choose|k: int| 0 <= k < clumps.len() && clumps[k] == c;
            if k < rest.len() {
                assert(rest[k] == c);
            }
        }
        if band_of(clumps.last().y as int) == band {
            assert(all[before.len() as int] == clumps.last());
        }
    }
}

/// Every clump that grows is drawn in one band and no other, and each band is in
/// order: what is further off never covers what is nearer.
pub proof fn every_clump_is_drawn_once(clumps: Seq<Clump>, band: int, c: Clump)
    ensures
        order::arranged(of_band(clumps, band)).contains(c) <==> clumps.contains(c) && band_of(
            c.y as int,
        ) == band,
        order::in_order(order::arranged(of_band(clumps, band))),
        0 <= band_of(c.y as int) < BANDS,
{
    lemma_of_band(clumps, band, c);
    order::lemma_arranged_contains(of_band(clumps, band), c);
    order::arranging_puts_in_order(of_band(clumps, band));
}

/// No clump grows within a rock.
pub proof fn no_clump_grows_in_a_rock(
    tried: Seq<Clump>,
    ground: Seq<Ground>,
    stones: Seq<Stone>,
    i: int,
    k: int,
)
    requires
        0 <= i < grown(tried, ground, stones).len(),
        0 <= k < stones.len(),
    ensures
        !in_stone(
            grown(tried, ground, stones)[i].x as int,
            grown(tried, ground, stones)[i].y as int,
            stones[k],
        ),
    decreases tried.len(),
{
    if tried.len() > 0 {
        let rest = grown(tried.drop_last(), ground, stones);
        if i < rest.len() {
            no_clump_grows_in_a_rock(tried.drop_last(), ground, stones, i, k);
        }
    }
}

/// How a clump looks.
#[derive(Debug, Clone, Copy, PartialEq, Eq, Structural)]
pub struct Look {
    /// Its height, in hundredths of what its depth asks for.
    pub percent: u32,
    /// Which drawing, and whether it is mirrored.
    pub variant: u32,
    pub mirrored: bool,
    /// How far it is out of step with the wind, in 1024ths.
    pub grain: u32,
}

pub fn look_of(noise: u32) -> (out: Look)
    ensures
        out.percent == 90 + noise as int / 4096 % 21,
        out.variant == noise as int / 128 % (TUFT_VARIANTS as int),
        out.mirrored == (noise as int / 32 % 2 == 0),
        out.grain == noise as int / 1_048_576 % 1024,
{
    Look {
        percent: 90 + noise / 4096 % 21,
        variant: noise / 128 % TUFT_VARIANTS,
        mirrored: noise / 32 % 2 == 0,
        grain: noise / 1_048_576 % 1024,
    }
}

/// The middle of a band, in units up from the arena's.
pub fn band_middle(band: usize) -> (out: i32)
    requires
        band < BANDS,
    ensures
        out == ARENA_HALF_H - band * GRASS_BAND - GRASS_BAND / 2,
{
    ARENA_HALF_H - band as i32 * GRASS_BAND - 2
}

// ---------------------------------------------------------------------------
// The field.
// ---------------------------------------------------------------------------

/// The field's mesh has this many cells.
pub const FIELD_COLS: u32 = 40;

pub const FIELD_ROWS: u32 = 30;

/// The corners of the field's mesh, row by row.
pub open spec fn field_corner(k: int) -> (i32, i32) {
    (
        (-ARENA_HALF_W + (k % (FIELD_COLS + 1)) * GRASS_GRID) as i32,
        (-ARENA_HALF_H + (k / (FIELD_COLS + 1)) * GRASS_GRID) as i32,
    )
}

pub fn field_points() -> (out: Vec<(i32, i32)>)
    ensures
        out@ == Seq::new(
            ((FIELD_COLS + 1) * (FIELD_ROWS + 1)) as nat,
            |k: int| field_corner(k),
        ),
{
    let total: u32 = (FIELD_COLS + 1) * (FIELD_ROWS + 1);
    let mut out: Vec<(i32, i32)> = Vec::new();
    let mut k: u32 = 0;
    while k < total
        invariant
            k <= total,
            total == 1271,
            out@ == Seq::new(k as nat, |k: int| field_corner(k)),
        decreases total - k,
    {
        let col: u32 = k % (FIELD_COLS + 1);
        let row: u32 = k / (FIELD_COLS + 1);
        let x: i32 = -ARENA_HALF_W + col as i32 * GRASS_GRID;
        let y: i32 = -ARENA_HALF_H + row as i32 * GRASS_GRID;
        out.push((x, y));
        k = k + 1;
        assert(out@ =~= Seq::new(k as nat, |k: int| field_corner(k)));
    }
    out
}

/// The two triangles of the field's `k`-th cell.
pub open spec fn cell_corners(k: int) -> Seq<u32> {
    let a = (k / (FIELD_COLS as int)) * (FIELD_COLS + 1) + k % (FIELD_COLS as int);
    seq![
        a as u32,
        (a + 1) as u32,
        (a + FIELD_COLS + 2) as u32,
        a as u32,
        (a + FIELD_COLS + 2) as u32,
        (a + FIELD_COLS + 1) as u32,
    ]
}

/// The triangles of the first `n` cells.
pub open spec fn cells(n: nat) -> Seq<u32>
    decreases n,
{
    if n == 0 {
        Seq::empty()
    } else {
        cells((n - 1) as nat) + cell_corners(n - 1)
    }
}

/// The triangles of the field's mesh, over its corners.
pub fn field_triangles() -> (out: Triangles)
    ensures
        out.wf(),
        out.vertices == (FIELD_COLS + 1) * (FIELD_ROWS + 1),
        out.indices@ == cells((FIELD_COLS * FIELD_ROWS) as nat),
{
    let total: u32 = FIELD_COLS * FIELD_ROWS;
    let mut out = Triangles {
        vertices: (FIELD_COLS + 1) * (FIELD_ROWS + 1),
        indices: Vec::new(),
    };
    let mut k: u32 = 0;
    while k < total
        invariant
            k <= total,
            total == 1200,
            out.wf(),
            out.vertices == 1271,
            out.indices@ == cells(k as nat),
        decreases total - k,
    {
        let ghost before = out.indices@;
        let row: u32 = k / FIELD_COLS;
        let col: u32 = k % FIELD_COLS;
        assert(row < 30 && col < 40);
        assert(row * 41 <= 29 * 41) by (nonlinear_arith)
            requires
                row < 30,
        ;
        let a: u32 = row * (FIELD_COLS + 1) + col;
        assert(a + FIELD_COLS + 2 < 1271);
        out.indices.push(a);
        out.indices.push(a + 1);
        out.indices.push(a + FIELD_COLS + 2);
        out.indices.push(a);
        out.indices.push(a + FIELD_COLS + 2);
        out.indices.push(a + FIELD_COLS + 1);
        assert(out.indices@ =~= before + cell_corners(k as int));
        k = k + 1;
    }
    out
}

// ---------------------------------------------------------------------------
// What holds of every field.
// ---------------------------------------------------------------------------

/// A quotient is rounded towards nothing: on both sides alike, by less than the divisor.
pub proof fn quotients_are_rounded_towards_nothing(n: int, d: int)
    requires
        d > 0,
    ensures
        toward_zero(-n, d) == -toward_zero(n, d),
        n >= 0 ==> d * toward_zero(n, d) <= n < d * toward_zero(n, d) + d,
        n <= 0 ==> d * toward_zero(n, d) - d < n <= d * toward_zero(n, d),
{
    let m = if n >= 0 {
        n
    } else {
        -n
    };
    vstd::arithmetic::div_mod::lemma_fundamental_div_mod(m, d);
    vstd::arithmetic::div_mod::lemma_mod_bound(m, d);
    assert(d * (-(m / d)) == -(d * (m / d))) by (nonlinear_arith);
    assert(n == 0 ==> m / d == 0) by {
        if n == 0 {
            vstd::arithmetic::div_mod::lemma_div_basics(d);
        }
    }
}

/// A product keeps its low bits: it differs from the whole product by a multiple of the
/// range.
pub proof fn a_product_keeps_its_low_bits(a: u32, b: u32)
    ensures
        (a * b - low_product(a, b)) % 0x1_0000_0000 == 0,
{
    let whole = a * b;
    assert(0 <= whole) by (nonlinear_arith)
        requires
            whole == a * b,
    ;
    assert(whole % 0x1_0000_0000 == low_product(a, b));
    assert(whole == 0x1_0000_0000 * (whole / 0x1_0000_0000) + whole % 0x1_0000_0000);
}

/// A coordinate is itself in thirty-two bits where it is above nothing, and the range
/// more where it is below.
pub proof fn a_coordinate_in_bits(n: i32)
    ensures
        n >= 0 ==> bits_of(n) == n,
        n < 0 ==> bits_of(n) == n + 0x1_0000_0000,
{
}

/// The noise mixes both coordinates and the salt, each coordinate spread out by a factor
/// of its own: where `a` is that mixture and `b` its spread, the noise is `b` with its
/// upper bits laid over it once more.
pub proof fn the_noise_mixes_place_and_salt(x: i32, y: i32, salt: u32, a: u32, b: u32)
    requires
        a == low_product(bits_of(x), 668265261) ^ low_product(bits_of(y), 374761393) ^ salt,
        b == low_product(a ^ (a >> 15), 625341585),
    ensures
        noise_at(x, y, salt) == b ^ (b >> 13),
{
}

/// A clump stands within two units of where it was tried, off the place by four of its
/// noise's bits, and is tried at all only if that is in the arena.
pub proof fn a_clump_stands_by_its_place(x: i32, y: i32)
    requires
        -400 <= x <= 400,
        -300 <= y <= 300,
    ensures
        ({
            let noise = noise_at(x, y, 0x51DE);
            let jx = x - 2 + noise as int % 4;
            let jy = y - 2 + (noise as int / 64) % 4;
            match site_at(x, y) {
                Some(clump) => {
                    &&& clump.noise == noise
                    &&& clump.x == jx
                    &&& clump.y == jy
                    &&& -400 <= clump.x <= 400
                    &&& -300 <= clump.y <= 300
                },
                None => jx < -400 || jx > 400 || jy < -300 || jy > 300,
            }
        }),
{
}

proof fn lemma_site_tried(n: nat, k: int)
    requires
        0 <= k < n,
    ensures
        site_at(grid_x(k) as i32, grid_y(k) as i32) matches Some(clump) ==> sites(n).contains(clump),
    decreases n,
{
    let rest = sites((n - 1) as nat);
    let out = sites(n);
    if site_at(grid_x(k) as i32, grid_y(k) as i32) is Some {
        let clump = site_at(grid_x(k) as i32, grid_y(k) as i32)->0;
        if k < n - 1 {
            lemma_site_tried((n - 1) as nat, k);
            let i = choose|i: int| 0 <= i < rest.len() && rest[i] == clump;
            assert(out[i] == clump);
        } else {
            assert(out[rest.len() as int] == clump);
        }
    }
}

/// Clumps are tried every four units, from the one corner of the arena to the other.
pub proof fn clumps_are_tried_every_four_units(col: int, row: int)
    requires
        0 <= col <= 200,
        0 <= row <= 150,
    ensures
        site_at((-400 + 4 * col) as i32, (-300 + 4 * row) as i32) matches Some(clump) ==> sites(
            places(),
        ).contains(clump),
{
    let k = 201 * row + col;
    assert(k / 201 == row && k % 201 == col);
    assert(places() == 30351);
    lemma_site_tried(places(), k);
}

/// Every clump that is tried was tried at one of those places.
pub proof fn no_clump_is_tried_elsewhere(n: nat, i: int)
    requires
        n <= places(),
        0 <= i < sites(n).len(),
    ensures
        exists|col: int, row: int|
            0 <= col <= 200 && 0 <= row <= 150 && #[trigger] tried_at(sites(n)[i], col, row),
    decreases n,
{
    let rest = sites((n - 1) as nat);
    assert(places() == 30351);
    if i < rest.len() {
        no_clump_is_tried_elsewhere((n - 1) as nat, i);
        let (col, row) = choose|col: int, row: int|
            0 <= col <= 200 && 0 <= row <= 150 && #[trigger] tried_at(rest[i], col, row);
        assert(tried_at(sites(n)[i], col, row));
    } else {
        let k = n - 1;
        let col = k % 201;
        let row = k / 201;
        assert(0 <= col <= 200 && 0 <= row <= 150);
        assert(tried_at(sites(n)[i], col, row));
    }
}

/// Whether a clump was tried at this column and row of the grid.
pub open spec fn tried_at(clump: Clump, col: int, row: int) -> bool {
    site_at((-400 + 4 * col) as i32, (-300 + 4 * row) as i32) == Some(clump)
}

/// Whether the ground lets a clump grow: grass six units deep at least, and thick enough
/// for eight of the noise's bits.
pub open spec fn thick_enough(noise: u32, ground: Ground) -> bool {
    ground.depth >= 6 && (noise as int / 0x1_0000) % 0x100 <= ground.density
}

/// Whether a place is two units within a rock's edge, or further.
pub open spec fn well_inside(x: int, y: int, stone: Stone) -> bool {
    stone.r > 2 && (x - stone.x) * (x - stone.x) + (y - stone.y) * (y - stone.y) < (stone.r - 2) * (
    stone.r - 2)
}

proof fn lemma_well_inside(x: int, y: int, stone: Stone)
    ensures
        in_stone(x, y, stone) <==> well_inside(x, y, stone),
{
    if stone.r <= 2 {
        let dx = x - stone.x;
        let dy = y - stone.y;
        assert(dx * dx + dy * dy >= 0) by (nonlinear_arith);
    }
}

/// A clump that was tried grows exactly where the grass is deep and thick enough and no
/// rock is in the way.
pub proof fn a_clump_grows_where_it_can(
    tried: Seq<Clump>,
    ground: Seq<Ground>,
    stones: Seq<Stone>,
    i: int,
)
    requires
        0 <= i < tried.len(),
        thick_enough(tried[i].noise, ground[i]),
        forall|k: int|
            0 <= k < stones.len() ==> !well_inside(
                tried[i].x as int,
                tried[i].y as int,
                #[trigger] stones[k],
            ),
    ensures
        grown(tried, ground, stones).contains(tried[i]),
    decreases tried.len(),
{
    let rest = tried.drop_last();
    let before = grown(rest, ground, stones);
    let out = grown(tried, ground, stones);
    if i < tried.len() - 1 {
        assert(rest[i] == tried[i]);
        a_clump_grows_where_it_can(rest, ground, stones, i);
        let k = choose|k: int| 0 <= k < before.len() && before[k] == tried[i];
        assert(out[k] == tried[i]);
    } else {
        assert forall|k: int| 0 <= k < stones.len() implies !in_stone(
            tried[i].x as int,
            tried[i].y as int,
            #[trigger] stones[k],
        ) by {
            lemma_well_inside(tried[i].x as int, tried[i].y as int, stones[k]);
        }
        assert(out[before.len() as int] == tried[i]);
    }
}

/// Every clump that grows is one that was tried where the ground let it, and stands in no
/// rock.
pub proof fn nothing_grows_where_it_cannot(
    tried: Seq<Clump>,
    ground: Seq<Ground>,
    stones: Seq<Stone>,
    j: int,
)
    requires
        0 <= j < grown(tried, ground, stones).len(),
    ensures
        exists|i: int|
            0 <= i < tried.len() && #[trigger] tried[i] == grown(tried, ground, stones)[j]
                && thick_enough(tried[i].noise, ground[i]),
        forall|k: int|
            0 <= k < stones.len() ==> !well_inside(
                grown(tried, ground, stones)[j].x as int,
                grown(tried, ground, stones)[j].y as int,
                #[trigger] stones[k],
            ),
    decreases tried.len(),
{
    let rest = tried.drop_last();
    let before = grown(rest, ground, stones);
    let clump = grown(tried, ground, stones)[j];
    if j < before.len() {
        nothing_grows_where_it_cannot(rest, ground, stones, j);
        let i = choose|i: int|
            0 <= i < rest.len() && #[trigger] rest[i] == before[j] && thick_enough(
                rest[i].noise,
                ground[i],
            );
        assert(tried[i] == clump);
    } else {
        assert(tried[tried.len() - 1] == clump);
        assert forall|k: int| 0 <= k < stones.len() implies !well_inside(
            clump.x as int,
            clump.y as int,
            #[trigger] stones[k],
        ) by {
            assert(!in_stone(clump.x as int, clump.y as int, stones[k]));
            lemma_well_inside(clump.x as int, clump.y as int, stones[k]);
        }
    }
}

/// A band is four units high, the first at the far side; what lies on the near edge of
/// the arena is in the last.
pub proof fn a_band_is_four_units_high(band: int, k: int)
    requires
        0 <= band < 150,
        0 <= k < 4,
    ensures
        band_of(300 - 4 * band - k) == band,
        band_of(-300) == 149,
{
}

/// A band holds the clumps whose place is in it and no other, as often as they came.
pub proof fn a_band_holds_its_own_clumps(clumps: Seq<Clump>, band: int)
    ensures
        of_band(clumps, band) == clumps.filter(|c: Clump| band_of(c.y as int) == band),
    decreases clumps.len(),
{
    order::lemma_filter_last(clumps, |c: Clump| band_of(c.y as int) == band);
    if clumps.len() > 0 {
        a_band_holds_its_own_clumps(clumps.drop_last(), band);
    }
}

/// What is further off is drawn before what is nearer, and in a row what is further left.
pub proof fn the_far_side_is_drawn_first(clumps: Seq<Clump>, i: int, j: int)
    requires
        0 <= i < j < clumps.len(),
    ensures
        ({
            let drawn = order::arranged(clumps);
            &&& drawn[i].y >= drawn[j].y
            &&& drawn[i].y == drawn[j].y ==> drawn[i].x <= drawn[j].x
        }),
{
    order::arranging_puts_in_order(clumps);
    assert(order::arranged(clumps)[i].le(order::arranged(clumps)[j]));
}

/// The corners of the field's mesh are twenty units apart, forty-one in a row, from the
/// one corner of the arena to the other.
pub proof fn the_corners_span_the_arena(col: int, row: int)
    requires
        0 <= col <= 40,
        0 <= row <= 30,
    ensures
        field_corner(41 * row + col) == ((-400 + 20 * col) as i32, (-300 + 20 * row) as i32),
{
    let k = 41 * row + col;
    assert(k / 41 == row && k % 41 == col);
}

/// Every cell of the field is two triangles over its own four corners: where `a` is its
/// first corner's number, the one beside that is the next and the one above it forty-one
/// on.
pub proof fn every_cell_has_its_own_corners(n: nat, col: int, row: int)
    requires
        n <= 1200,
        0 <= col < 40,
        0 <= row,
        40 * row + col < n,
    ensures
        ({
            let k = 6 * (40 * row + col);
            let a = 41 * row + col;
            &&& cells(n).len() == 6 * n
            &&& cells(n)[k] == a
            &&& cells(n)[k + 1] == a + 1
            &&& cells(n)[k + 2] == a + 42
            &&& cells(n)[k + 3] == a
            &&& cells(n)[k + 4] == a + 42
            &&& cells(n)[k + 5] == a + 41
        }),
    decreases n,
{
    let rest = (n - 1) as nat;
    let k = 40 * row + col;
    lemma_cells_counted(rest);
    if k < rest {
        every_cell_has_its_own_corners(rest, col, row);
    } else {
        assert(k / 40 == row && k % 40 == col);
    }
}

proof fn lemma_cells_counted(n: nat)
    ensures
        cells(n).len() == 6 * n,
    decreases n,
{
    if n > 0 {
        lemma_cells_counted((n - 1) as nat);
    }
}

} // verus!
