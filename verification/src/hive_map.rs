//! The obstruction field: an 80x80 grid of blockage counts rasterized
//! once from a 160x160 RGBA image laid over the world square.
//!
//! Each grid cell covers a 2x2 block of source pixels and stores how many
//! of those pixels are blocked.  A pixel is blocked when it is fully
//! opaque and its color is not on the small allow-list of walkable
//! colors.  Queries normalize the count to a per-mille blockage value, so
//! 0 means fully open and 1000 fully blocked; points outside the mapped
//! world square always read 0.

use vstd::prelude::*;

use crate::geometry::Point2;

verus! {

/// Cells per axis of the obstruction grid.
pub const HIVE_MAP_SIZE: usize = 80;

/// Pixels per axis of the source raster.
pub const HIVE_IMAGE_SIZE: usize = 160;

/// Byte length of the expected RGBA raster: 160 * 160 pixels, 4 bytes each.
pub const HIVE_IMAGE_BYTES: usize = 102_400;

/// Half the side of the mapped world square, in milli-units (the square
/// spans world coordinates -160 to 160 on both axes).
pub const WORLD_HALF_MILLI: i64 = 160_000;

/// Side of one grid cell in milli-units: 320 world units over 80 cells.
pub const CELL_MILLI: i64 = 4_000;

/// Source pixels per grid cell (a 2x2 block).
pub const PIXELS_PER_CELL: u32 = 4;

/// Per-mille blockage contributed by one blocked pixel of a cell.
pub const PERMILLE_PER_PIXEL: u32 = 250;

/// Is the RGBA color blocked?  Fully transparent pixels are walkable, as
/// are the two fully opaque comb colors; every other opaque pixel blocks.
pub open spec fn blocked_color(r: u8, g: u8, b: u8, a: u8) -> bool {
    a == 255 && !((r == 246 && g == 180 && b == 0) || (r == 246 && g == 188 && b == 0))
}

/// Whether the pixel at column `px`, row `py` of the raster is blocked.
pub open spec fn pixel_blocked(pix: Seq<u8>, px: int, py: int) -> bool {
    let idx = (px + py * 160) * 4;
    blocked_color(pix[idx], pix[idx + 1], pix[idx + 2], pix[idx + 3])
}

pub open spec fn count_one(b: bool) -> int {
    if b {
        1
    } else {
        0
    }
}

/// How many of the four pixels covered by cell (`cx`, `cy`) are blocked.
pub open spec fn cell_count(pix: Seq<u8>, cx: int, cy: int) -> int {
    count_one(pixel_blocked(pix, 2 * cx, 2 * cy)) + count_one(
        pixel_blocked(pix, 2 * cx + 1, 2 * cy),
    ) + count_one(pixel_blocked(pix, 2 * cx, 2 * cy + 1)) + count_one(
        pixel_blocked(pix, 2 * cx + 1, 2 * cy + 1),
    )
}

/// Grid column holding world x-coordinate `x` (in milli-units).
pub open spec fn cell_of_x(x: int) -> int {
    (x + 160_000) / 4_000
}

/// Grid row holding world y-coordinate `y`; the raster's rows grow
/// downward while world y grows upward, so y is negated.
pub open spec fn cell_of_y(y: int) -> int {
    ((-y) + 160_000) / 4_000
}

/// Flat index of the cell covering the world point (`x`, `y`).
pub open spec fn cell_index(x: int, y: int) -> int {
    cell_of_x(x) + 80 * cell_of_y(y)
}

/// Is the world point strictly outside the mapped square?
pub open spec fn outside_world(x: int, y: int) -> bool {
    x <= -160_000 || x >= 160_000 || y <= -160_000 || y >= 160_000
}

/// The per-mille blockage a field with contents `data` reports at a world
/// point: 0 outside the mapped square or before the field is ready.
pub open spec fn obstruction_permille(data: Seq<u32>, ready: bool, x: int, y: int) -> int {
    if !ready || outside_world(x, y) {
        0
    } else {
        data[cell_index(x, y)] * 250
    }
}

/// The rasterized obstruction field.  Built exactly once from the source
/// image; immutable afterwards.
pub struct HiveMap {
    pub ready: bool,
    pub data: Vec<u32>,
}

impl HiveMap {
    /// A ready field has one count per cell, each within the pixel block.
    pub open spec fn wf(&self) -> bool {
        self.ready ==> self.data@.len() == 6_400 && (forall|i: int|
            0 <= i < 6_400 ==> #[trigger] self.data@[i] <= 4)
    }

    /// The blockage this field reports at world point (`x`, `y`).
    pub open spec fn obstruction_at(&self, x: int, y: int) -> int {
        obstruction_permille(self.data@, self.ready, x, y)
    }

    pub fn new() -> (m: HiveMap)
        ensures
            m.wf(),
            !m.ready,
    {
        HiveMap { ready: false, data: Vec::new() }
    }

    /// Per-mille blockage at a world point; 0 outside the mapped square.
    pub fn get_obstruction(&self, pos: Point2) -> (r: u32)
        requires
            self.wf(),
        ensures
            r == self.obstruction_at(pos.x as int, pos.y as int),
            r <= 1_000,
            outside_world(pos.x as int, pos.y as int) ==> r == 0,
    {
        self.get_obstruction_xy(pos.x, pos.y)
    }

    /// Per-mille blockage at the world point (`x`, `y`).
    pub fn get_obstruction_xy(&self, x: i64, y: i64) -> (r: u32)
        requires
            self.wf(),
        ensures
            r == self.obstruction_at(x as int, y as int),
            r <= 1_000,
            outside_world(x as int, y as int) ==> r == 0,
    {
        if !self.ready {
            return 0;
        }
        if x <= -WORLD_HALF_MILLI || x >= WORLD_HALF_MILLI {
            return 0;
        }
        if y <= -WORLD_HALF_MILLI || y >= WORLD_HALF_MILLI {
            return 0;
        }
        let cx: u64 = ((x + WORLD_HALF_MILLI) as u64) / (CELL_MILLI as u64);
        let cy: u64 = ((-y + WORLD_HALF_MILLI) as u64) / (CELL_MILLI as u64);
        proof {
            vstd::arithmetic::div_mod::lemma_div_is_ordered(x + 160_000, 319_999, 4_000);
            vstd::arithmetic::div_mod::lemma_div_is_ordered((-y) + 160_000, 319_999, 4_000);
            vstd::arithmetic::div_mod::lemma_div_pos_is_pos(x + 160_000, 4_000);
            vstd::arithmetic::div_mod::lemma_div_pos_is_pos((-y) + 160_000, 4_000);
        }
        let idx: usize = (cx as usize) + 80 * (cy as usize);
        let count: u32 = self.data[idx];
        count * 250
    }

    /// Consumes the source raster once: counts, for every cell, the
    /// covered pixels that are blocked.  A second call (or a call on an
    /// already ready field) changes nothing.
    pub fn build(&mut self, pixels: &Vec<u8>)
        requires
            old(self).wf(),
            pixels@.len() == HIVE_IMAGE_BYTES,
        ensures
            final(self).wf(),
            final(self).ready,
            old(self).ready ==> *final(self) == *old(self),
            !old(self).ready ==> final(self).data@.len() == 6_400 && (forall|cx: int, cy: int|
                0 <= cx < 80 && 0 <= cy < 80 ==> #[trigger] final(self).data@[cx + 80 * cy]
                    == cell_count(pixels@, cx, cy)),
    {
        if self.ready {
            return ;
        }
        let mut data: Vec<u32> = Vec::new();
        let mut cy: usize = 0;
        while cy < 80
            invariant
                cy <= 80,
                pixels@.len() == HIVE_IMAGE_BYTES,
                data@.len() == 80 * cy,
                forall|i: int, j: int|
                    0 <= i < 80 && 0 <= j < cy ==> #[trigger] data@[i + 80 * j] == cell_count(
                        pixels@,
                        i,
                        j,
                    ),
                forall|k: int| 0 <= k < data@.len() ==> #[trigger] data@[k] <= 4,
            decreases 80 - cy,
        {
            let mut cx: usize = 0;
            while cx < 80
                invariant
                    cy < 80,
                    cx <= 80,
                    pixels@.len() == HIVE_IMAGE_BYTES,
                    data@.len() == 80 * cy + cx,
                    forall|i: int, j: int|
                        0 <= i < 80 && 0 <= j < cy ==> #[trigger] data@[i + 80 * j] == cell_count(
                            pixels@,
                            i,
                            j,
                        ),
                    forall|i: int|
                        0 <= i < cx ==> #[trigger] data@[i + 80 * (cy as int)] == cell_count(
                            pixels@,
                            i,
                            cy as int,
                        ),
                    forall|k: int| 0 <= k < data@.len() ==> #[trigger] data@[k] <= 4,
                decreases 80 - cx,
            {
                let b00 = pixel_blocked_exec(pixels, 2 * cx, 2 * cy);
                let b10 = pixel_blocked_exec(pixels, 2 * cx + 1, 2 * cy);
                let b01 = pixel_blocked_exec(pixels, 2 * cx, 2 * cy + 1);
                let b11 = pixel_blocked_exec(pixels, 2 * cx + 1, 2 * cy + 1);
                let mut count: u32 = 0;
                if b00 {
                    count = count + 1;
                }
                if b10 {
                    count = count + 1;
                }
                if b01 {
                    count = count + 1;
                }
                if b11 {
                    count = count + 1;
                }
                data.push(count);
                cx = cx + 1;
            }
            cy = cy + 1;
        }
        self.data = data;
        self.ready = true;
    }
}

/// Reads the four bytes of one pixel and applies the color rule.
fn pixel_blocked_exec(pixels: &Vec<u8>, px: usize, py: usize) -> (r: bool)
    requires
        pixels@.len() == HIVE_IMAGE_BYTES,
        px < 160,
        py < 160,
    ensures
        r == pixel_blocked(pixels@, px as int, py as int),
{
    let idx: usize = (px + py * 160) * 4;
    let r = pixels[idx];
    let g = pixels[idx + 1];
    let b = pixels[idx + 2];
    let a = pixels[idx + 3];
    a == 255 && !((r == 246 && g == 180 && b == 0) || (r == 246 && g == 188 && b == 0))
}

/// Every point strictly outside the mapped world square reads zero
/// obstruction, whatever the field holds.
pub proof fn lemma_outside_world_unobstructed(m: HiveMap, x: int, y: int)
    requires
        outside_world(x, y),
    ensures
        m.obstruction_at(x, y) == 0,
{
}

} // verus!
