//! Rendering: a quantized grid becomes the output raster, either flat, every cell a
//! square of one colour, or tiled, every cell a copy of a texture tile in its colour.

use vstd::prelude::*;
use crate::color::{mul_rgba, product, Rgba};
use crate::error::BeadError;
use crate::raster::{lemma_index_bounds, lemma_index_split, Raster};

verus! {

/// A coordinate below `cells * size` lies in one of `cells` blocks of `size`, at an
/// offset inside it.
pub proof fn lemma_block(x: int, size: int, cells: int)
    requires
        0 <= x < cells * size,
        0 <= cells,
        0 <= size,
    ensures
        0 < size,
        0 <= x / size < cells,
        0 <= x % size < size,
{
    assert(0 < size && 0 < cells) by (nonlinear_arith)
        requires
            0 <= x < cells * size,
            0 <= cells,
            0 <= size,
    ;
    vstd::arithmetic::div_mod::lemma_fundamental_div_mod(x, size);
    let q = x / size;
    assert(0 <= q < cells) by (nonlinear_arith)
        requires
            x == size * q + x % size,
            0 <= x % size < size,
            0 <= x < cells * size,
    ;
}

/// `out` shows `grid` magnified by `scale`: every cell is a `scale` by `scale` square
/// of the cell's pixel.
pub open spec fn is_flat_scale(out: Raster, grid: Raster, scale: u32) -> bool {
    &&& out.wf()
    &&& out.width == grid.width * scale
    &&& out.height == grid.height * scale
    &&& forall|x: int, y: int|
        out.contains(x, y) ==> #[trigger] out.at(x, y) == grid.at(x / (scale as int), y / (scale as int))
}

/// `out` shows `grid` through the tile `perla`: every cell is a copy of the tile, each
/// of its pixels blended with the cell's pixel.
pub open spec fn is_tiled(out: Raster, grid: Raster, perla: Raster) -> bool {
    &&& out.wf()
    &&& out.width == grid.width * perla.width
    &&& out.height == grid.height * perla.height
    &&& forall|x: int, y: int|
        out.contains(x, y) ==> #[trigger] out.at(x, y) == product(
            grid.at(x / (perla.width as int), y / (perla.height as int)),
            perla.at(x % (perla.width as int), y % (perla.height as int)),
        )
}

/// In a flat rendering the pixel at offset `(dx, dy)` of the square of cell `(cx, cy)`
/// is the cell's pixel, for every offset inside the square.
pub proof fn lemma_flat_block(out: Raster, grid: Raster, scale: u32, cx: int, cy: int, dx: int, dy: int)
    requires
        is_flat_scale(out, grid, scale),
        grid.contains(cx, cy),
        0 <= dx < scale,
        0 <= dy < scale,
    ensures
        out.contains(cx * scale + dx, cy * scale + dy),
        out.at(cx * scale + dx, cy * scale + dy) == grid.at(cx, cy),
{
    let s = scale as int;
    lemma_index_bounds(s, grid.width as int, dx, cx);
    lemma_index_bounds(s, grid.height as int, dy, cy);
    lemma_index_split(s, dx, cx);
    lemma_index_split(s, dy, cy);
    assert(s * grid.width == grid.width * s && s * grid.height == grid.height * s)
        by (nonlinear_arith);
}

/// In a tiled rendering the pixel at offset `(dx, dy)` of the copy of the tile for cell
/// `(cx, cy)` is the blend of the cell's pixel with the tile's pixel at that offset.
pub proof fn lemma_tile_block(out: Raster, grid: Raster, perla: Raster, cx: int, cy: int, dx: int, dy: int)
    requires
        is_tiled(out, grid, perla),
        grid.contains(cx, cy),
        perla.contains(dx, dy),
    ensures
        out.contains(cx * perla.width + dx, cy * perla.height + dy),
        out.at(cx * perla.width + dx, cy * perla.height + dy) == product(
            grid.at(cx, cy),
            perla.at(dx, dy),
        ),
{
    let pw = perla.width as int;
    let ph = perla.height as int;
    lemma_index_bounds(pw, grid.width as int, dx, cx);
    lemma_index_bounds(ph, grid.height as int, dy, cy);
    lemma_index_split(pw, dx, cx);
    lemma_index_split(ph, dy, cy);
    assert(pw * grid.width == grid.width * pw && ph * grid.height == grid.height * ph)
        by (nonlinear_arith);
}

/// Magnifies `beads` by `output_scale`: every cell becomes a square of that side in the
/// cell's pixel. A scale of zero gives the raster without pixels.
pub fn flat_scale(beads: &Raster, output_scale: u32) -> (out: Raster)
    requires
        beads.wf(),
        beads.width * output_scale <= u32::MAX,
        beads.height * output_scale <= u32::MAX,
    ensures
        is_flat_scale(out, *beads, output_scale),
{
    let width: u32 = beads.width * output_scale;
    let height: u32 = beads.height * output_scale;
    let ghost w = width as int;
    let ghost s = output_scale as int;
    let mut pixels: Vec<Rgba> = Vec::new();
    let mut y: u32 = 0;
    while y < height
        invariant
            y <= height,
            beads.wf(),
            w == width == beads.width * output_scale,
            s == output_scale,
            height == beads.height * output_scale,
            pixels@.len() == y * w,
            forall|k: int|
                0 <= k < pixels@.len() ==> #[trigger] pixels@[k] == beads.at((k % w) / s, (k / w) / s),
        decreases height - y,
    {
        proof {
            lemma_block(y as int, s, beads.height as int);
        }
        let row: u32 = y / output_scale;
        let mut x: u32 = 0;
        while x < width
            invariant
                x <= width,
                y < height,
                beads.wf(),
                w == width == beads.width * output_scale,
                s == output_scale,
                0 < s,
                row == y / output_scale,
                row < beads.height,
                pixels@.len() == y * w + x,
                forall|k: int|
                    0 <= k < pixels@.len() ==> #[trigger] pixels@[k] == beads.at(
                        (k % w) / s,
                        (k / w) / s,
                    ),
            decreases width - x,
        {
            proof {
                lemma_block(x as int, s, beads.width as int);
                lemma_index_split(w, x as int, y as int);
            }
            let pixel = beads.get_pixel(x / output_scale, row);
            pixels.push(pixel);
            x += 1;
        }
        assert(y * w + w == (y + 1) * w) by (nonlinear_arith);
        y += 1;
    }
    let out = Raster { width, height, pixels };
    proof {
        assert(height as int * w == w * height as int) by (nonlinear_arith);
        assert forall|x: int, y: int| out.contains(x, y) implies #[trigger] out.at(x, y)
            == beads.at(x / s, y / s) by {
            lemma_index_bounds(w, height as int, x, y);
            lemma_index_split(w, x, y);
        }
    }
    out
}

/// Renders `beads` through the tile `perla`: every cell becomes a copy of the tile whose
/// pixels are blended, channel by channel, with the cell's pixel.
pub fn show_pearls(beads: &Raster, perla: &Raster) -> (out: Raster)
    requires
        beads.wf(),
        perla.wf(),
        beads.width * perla.width <= u32::MAX,
        beads.height * perla.height <= u32::MAX,
    ensures
        is_tiled(out, *beads, *perla),
{
    let width: u32 = beads.width * perla.width;
    let height: u32 = beads.height * perla.height;
    let pw: u32 = perla.width;
    let ph: u32 = perla.height;
    let ghost w = width as int;
    let mut pixels: Vec<Rgba> = Vec::new();
    let mut y: u32 = 0;
    while y < height
        invariant
            y <= height,
            beads.wf(),
            perla.wf(),
            pw == perla.width,
            ph == perla.height,
            w == width == beads.width * pw,
            height == beads.height * ph,
            pixels@.len() == y * w,
            forall|k: int|
                0 <= k < pixels@.len() ==> #[trigger] pixels@[k] == product(
                    beads.at((k % w) / (pw as int), (k / w) / (ph as int)),
                    perla.at((k % w) % (pw as int), (k / w) % (ph as int)),
                ),
        decreases height - y,
    {
        proof {
            lemma_block(y as int, ph as int, beads.height as int);
        }
        let oy: u32 = y / ph;
        let py: u32 = y % ph;
        let mut x: u32 = 0;
        while x < width
            invariant
                x <= width,
                y < height,
                beads.wf(),
                perla.wf(),
                pw == perla.width,
                ph == perla.height,
                0 < ph,
                w == width == beads.width * pw,
                oy == y / ph,
                py == y % ph,
                oy < beads.height,
                py < ph,
                pixels@.len() == y * w + x,
                forall|k: int|
                    0 <= k < pixels@.len() ==> #[trigger] pixels@[k] == product(
                        beads.at((k % w) / (pw as int), (k / w) / (ph as int)),
                        perla.at((k % w) % (pw as int), (k / w) % (ph as int)),
                    ),
            decreases width - x,
        {
            proof {
                lemma_block(x as int, pw as int, beads.width as int);
                lemma_index_split(w, x as int, y as int);
            }
            let cell = beads.get_pixel(x / pw, oy);
            let shade = perla.get_pixel(x % pw, py);
            pixels.push(mul_rgba(cell, shade));
            x += 1;
        }
        assert(y * w + w == (y + 1) * w) by (nonlinear_arith);
        y += 1;
    }
    let out = Raster { width, height, pixels };
    proof {
        assert(height as int * w == w * height as int) by (nonlinear_arith);
        assert forall|x: int, y: int| out.contains(x, y) implies #[trigger] out.at(x, y)
            == product(
            beads.at(x / (pw as int), y / (ph as int)),
            perla.at(x % (pw as int), y % (ph as int)),
        ) by {
            lemma_index_bounds(w, height as int, x, y);
            lemma_index_split(w, x, y);
        }
    }
    out
}

/// Whether `beads` can be rendered in the mode that `output_scale` and `perla` select
/// without a side of the result passing the largest raster side.
pub open spec fn renderable(beads: Raster, output_scale: Option<u32>, perla: Option<&Raster>) -> bool {
    match output_scale {
        Some(scale) => beads.width * scale <= u32::MAX && beads.height * scale <= u32::MAX,
        None => match perla {
            Some(tile) => tile.wf() && beads.width * tile.width <= u32::MAX && beads.height
                * tile.height <= u32::MAX,
            None => true,
        },
    }
}

/// Renders the grid `beads`. With a scale the result is the grid magnified by it, and
/// the tile is not looked at. Without one the result is the grid shown through the
/// tile `perla`; where there is no tile, that fails with `TextureLoadError`.
pub fn output(beads: &Raster, output_scale: Option<u32>, perla: Option<&Raster>) -> (out: Result<
    Raster,
    BeadError,
>)
    requires
        beads.wf(),
        renderable(*beads, output_scale, perla),
    ensures
        out is Err <==> output_scale is None && perla is None,
        out matches Err(e) ==> e == BeadError::TextureLoadError,
        out matches Ok(image) ==> match output_scale {
            Some(scale) => is_flat_scale(image, *beads, scale),
            None => perla matches Some(tile) && is_tiled(image, *beads, *tile),
        },
{
    match output_scale {
        Some(scale) => Ok(flat_scale(beads, scale)),
        None => match perla {
            Some(tile) => Ok(show_pearls(beads, tile)),
            None => Err(BeadError::TextureLoadError),
        },
    }
}

} // verus!
