//! Rasters of RGBA pixels, row by row, and their exchange with raw bytes.

use vstd::prelude::*;
use vstd::arithmetic::div_mod::{lemma_fundamental_div_mod, lemma_fundamental_div_mod_converse};
use crate::color::Rgba;

verus! {

/// A raster of `width * height` pixels, stored row by row from the top left.
#[derive(Clone, Debug, PartialEq, Eq)]
pub struct Raster {
    pub width: u32,
    pub height: u32,
    pub pixels: Vec<Rgba>,
}

/// In a raster `w` wide and `h` high, the pixel in column `x` of row `y` has an index
/// inside the pixel sequence.
pub proof fn lemma_index_bounds(w: int, h: int, x: int, y: int)
    requires
        0 <= x < w,
        0 <= y < h,
    ensures
        0 <= y * w + x < w * h,
        0 <= y * w,
        y * w + w <= w * h,
{
    assert(y * w >= 0 && (y + 1) * w <= h * w && (y + 1) * w == y * w + w && h * w == w * h)
        by (nonlinear_arith)
        requires
            0 <= y < h,
            0 < w,
    ;
}

/// Row and column are recovered from an index by division and remainder.
pub proof fn lemma_index_split(w: int, x: int, y: int)
    requires
        0 <= x < w,
        0 <= y,
    ensures
        (y * w + x) / w == y,
        (y * w + x) % w == x,
{
    lemma_fundamental_div_mod_converse(y * w + x, w, y, x);
}

impl Raster {
    /// The pixel sequence has exactly `width * height` entries.
    pub open spec fn wf(&self) -> bool {
        self.pixels@.len() == self.width as int * self.height as int
    }

    /// Whether column `x` of row `y` lies inside the raster.
    pub open spec fn contains(&self, x: int, y: int) -> bool {
        0 <= x < self.width && 0 <= y < self.height
    }

    /// The pixel in column `x` of row `y`.
    pub open spec fn at(&self, x: int, y: int) -> Rgba {
        self.pixels@[y * self.width as int + x]
    }

    /// A raster of the given size over `pixels`, if there are exactly
    /// `width * height` of them.
    pub fn new(width: u32, height: u32, pixels: Vec<Rgba>) -> (made: Option<Raster>)
        ensures
            made is Some <==> pixels@.len() == width as int * height as int,
            made matches Some(raster) ==> raster.wf() && raster.width == width && raster.height
                == height && raster.pixels@ == pixels@,
    {
        assert(width as int * height as int <= 0xffff_ffff * 0xffff_ffff) by (nonlinear_arith)
            requires
                width <= 0xffff_ffff,
                height <= 0xffff_ffff,
        ;
        let area: u64 = (width as u64) * (height as u64);
        if pixels.len() as u64 == area {
            Some(Raster { width, height, pixels })
        } else {
            None
        }
    }

    /// The pixel in column `x` of row `y`.
    pub fn get_pixel(&self, x: u32, y: u32) -> (pixel: Rgba)
        requires
            self.wf(),
            self.contains(x as int, y as int),
        ensures
            pixel == self.at(x as int, y as int),
    {
        let count: usize = self.pixels.len();
        proof {
            lemma_index_bounds(self.width as int, self.height as int, x as int, y as int);
            assert(y * self.width + x < count);
        }
        let index: usize = (y as usize) * (self.width as usize) + (x as usize);
        self.pixels[index]
    }

    /// The pixels as raw bytes, four to a pixel in the order red, green, blue, alpha.
    pub fn to_rgba_bytes(&self) -> (bytes: Vec<u8>)
        ensures
            bytes@ == rgba_bytes(self.pixels@),
    {
        let mut bytes: Vec<u8> = Vec::new();
        let mut i: usize = 0;
        while i < self.pixels.len()
            invariant
                i <= self.pixels.len(),
                bytes@ == rgba_bytes(self.pixels@.take(i as int)),
            decreases self.pixels.len() - i,
        {
            let p = self.pixels[i];
            bytes.push(p.r);
            bytes.push(p.g);
            bytes.push(p.b);
            bytes.push(p.a);
            i += 1;
            assert(bytes@ =~= rgba_bytes(self.pixels@.take(i as int)));
        }
        assert(self.pixels@.take(i as int) =~= self.pixels@);
        bytes
    }

    /// A raster of the given size read from raw bytes, four to a pixel in the order red,
    /// green, blue, alpha, if there are exactly `4 * width * height` of them.
    pub fn from_rgba_bytes(width: u32, height: u32, bytes: &Vec<u8>) -> (made: Option<Raster>)
        ensures
            made is Some <==> bytes@.len() == 4 * (width as int * height as int),
            made matches Some(raster) ==> raster.wf() && raster.width == width && raster.height
                == height && raster.pixels@ == pixels_of(bytes@),
    {
        assert(width as int * height as int <= 0xffff_ffff * 0xffff_ffff) by (nonlinear_arith)
            requires
                width <= 0xffff_ffff,
                height <= 0xffff_ffff,
        ;
        let area: u64 = (width as u64) * (height as u64);
        let count: usize = bytes.len() / 4;
        if bytes.len() % 4 != 0 || count as u64 != area {
            return None;
        }
        let mut pixels: Vec<Rgba> = Vec::new();
        let mut k: usize = 0;
        while k < count
            invariant
                k <= count,
                bytes@.len() == 4 * count,
                4 * count <= usize::MAX,
                pixels@ == pixels_of(bytes@).take(k as int),
            decreases count - k,
        {
            let p = Rgba {
                r: bytes[4 * k],
                g: bytes[4 * k + 1],
                b: bytes[4 * k + 2],
                a: bytes[4 * k + 3],
            };
            pixels.push(p);
            k += 1;
            assert(pixels@ =~= pixels_of(bytes@).take(k as int));
        }
        assert(pixels_of(bytes@).take(k as int) =~= pixels_of(bytes@));
        Some(Raster { width, height, pixels })
    }
}

/// An index is its row times the width plus its column, and the column is below the width.
pub proof fn lemma_index_join(w: int, k: int)
    requires
        0 < w,
        0 <= k,
    ensures
        k == (k / w) * w + k % w,
        0 <= k % w < w,
        0 <= k / w,
{
    lemma_fundamental_div_mod(k, w);
    assert((k / w) * w == w * (k / w)) by (nonlinear_arith);
    if k / w < 0 {
        assert((k / w) * w <= -w) by (nonlinear_arith)
            requires
                k / w <= -1,
                0 < w,
        ;
    }
}

/// An index inside a raster `w` wide and `h` high lies in one of its rows.
pub proof fn lemma_index_row(w: int, h: int, k: int)
    requires
        0 <= k < w * h,
        0 <= w,
        0 <= h,
    ensures
        0 < w,
        0 <= k / w < h,
        0 <= k % w < w,
        k == (k / w) * w + k % w,
{
    assert(0 < w) by (nonlinear_arith)
        requires
            0 <= k < w * h,
            0 <= w,
            0 <= h,
    ;
    lemma_index_join(w, k);
    let q = k / w;
    assert(q < h) by (nonlinear_arith)
        requires
            q * w <= k < w * h,
            0 < w,
    ;
}

/// The index whose pixel the mirror image shows at index `k`: same row, the column
/// counted from the other end.
pub open spec fn mirror_index(w: int, k: int) -> int {
    (k / w) * w + (w - 1 - k % w)
}

/// The pixels of a raster `w` wide with every row reversed.
pub open spec fn mirrored(w: int, pixels: Seq<Rgba>) -> Seq<Rgba> {
    Seq::new(pixels.len(), |k: int| pixels[mirror_index(w, k)])
}

/// While rows are being reversed: whether the pixel at index `k` has been swapped once the
/// rows above `y` are done and `x` pairs of row `y` have been exchanged.
pub open spec fn swapped(w: int, y: int, x: int, k: int) -> bool {
    k / w < y || (k / w == y && (k % w < x || k % w >= w - x))
}

impl Raster {
    /// Reverses every row in place: the pixel in column `x` moves to column
    /// `width - 1 - x` of the same row.
    pub fn mirror(&mut self)
        requires
            old(self).wf(),
        ensures
            final(self).wf(),
            final(self).width == old(self).width,
            final(self).height == old(self).height,
            final(self).pixels@ == mirrored(old(self).width as int, old(self).pixels@),
            forall|x: int, y: int|
                old(self).contains(x, y) ==> #[trigger] final(self).at(x, y) == old(self).at(
                    old(self).width - 1 - x,
                    y,
                ),
    {
        let w: usize = self.width as usize;
        let h: usize = self.height as usize;
        let half: usize = w / 2;
        let ghost before = self.pixels@;
        let count: usize = self.pixels.len();
        let mut y: usize = 0;
        while y < h
            invariant
                y <= h,
                w == self.width == old(self).width,
                h == self.height == old(self).height,
                half == w / 2,
                before == old(self).pixels@,
                self.pixels@.len() == before.len() == w * h == count,
                forall|k: int|
                    0 <= k < before.len() ==> #[trigger] self.pixels@[k] == (if k / (w as int)
                        < y {
                        before[mirror_index(w as int, k)]
                    } else {
                        before[k]
                    }),
            decreases h - y,
        {
            proof {
                if w > 0 {
                    lemma_index_bounds(w as int, h as int, 0, y as int);
                } else {
                    assert(y as int * w as int == 0) by (nonlinear_arith)
                        requires
                            w == 0,
                    ;
                }
            }
            let row: usize = y * w;
            let mut x: usize = 0;
            while x < half
                invariant
                    x <= half,
                    y < h,
                    half == w / 2,
                    row == y * w,
                    row + w <= before.len() == count,
                    self.width == w,
                    self.height == h,
                    self.pixels@.len() == before.len() == w * h,
                    forall|k: int|
                        0 <= k < before.len() ==> #[trigger] self.pixels@[k] == (if swapped(
                            w as int,
                            y as int,
                            x as int,
                            k,
                        ) {
                            before[mirror_index(w as int, k)]
                        } else {
                            before[k]
                        }),
                decreases half - x,
            {
                let i: usize = row + x;
                let j: usize = row + (w - 1 - x);
                let ghost prior = self.pixels@;
                proof {
                    lemma_index_split(w as int, x as int, y as int);
                    lemma_index_split(w as int, w - 1 - x, y as int);
                }
                let a = self.pixels[i];
                let b = self.pixels[j];
                self.pixels.set(i, b);
                self.pixels.set(j, a);
                proof {
                    assert forall|k: int| 0 <= k < before.len() implies #[trigger] self.pixels@[k]
                        == (if swapped(w as int, y as int, x + 1, k) {
                        before[mirror_index(w as int, k)]
                    } else {
                        before[k]
                    }) by {
                        lemma_index_join(w as int, k);
                        assert(prior[k] == (if swapped(w as int, y as int, x as int, k) {
                            before[mirror_index(w as int, k)]
                        } else {
                            before[k]
                        }));
                    }
                }
                x += 1;
            }
            proof {
                assert forall|k: int| 0 <= k < before.len() implies #[trigger] self.pixels@[k]
                    == (if k / (w as int) < y + 1 {
                    before[mirror_index(w as int, k)]
                } else {
                    before[k]
                }) by {
                    lemma_index_join(w as int, k);
                }
            }
            y += 1;
        }
        proof {
            assert forall|k: int| 0 <= k < before.len() implies self.pixels@[k] == before[mirror_index(
                w as int,
                k,
            )] by {
                lemma_index_row(w as int, h as int, k);
            }
            assert(self.pixels@ =~= mirrored(w as int, before));
            assert forall|x: int, y: int| old(self).contains(x, y) implies #[trigger] self.at(x, y)
                == old(self).at(w - 1 - x, y) by {
                lemma_index_bounds(w as int, h as int, x, y);
                lemma_index_bounds(w as int, h as int, w - 1 - x, y);
                lemma_index_split(w as int, x, y);
            }
        }
    }
}

/// Mirroring moves every index to an index of the same raster, and back again.
pub proof fn lemma_mirror_index(w: int, h: int, k: int)
    requires
        0 <= k < w * h,
        0 <= w,
        0 <= h,
    ensures
        0 <= mirror_index(w, k) < w * h,
        mirror_index(w, mirror_index(w, k)) == k,
{
    lemma_index_row(w, h, k);
    let q = k / w;
    let r = k % w;
    assert(mirror_index(w, k) == q * w + (w - 1 - r));
    lemma_index_bounds(w, h, w - 1 - r, q);
    lemma_index_split(w, w - 1 - r, q);
}

/// Mirroring twice gives the raster back: for a raster `w` wide and `h` high,
/// reversing every row of the reversed rows yields the first pixels exactly.
pub proof fn lemma_mirror_twice(w: int, h: int, pixels: Seq<Rgba>)
    requires
        0 <= w,
        0 <= h,
        pixels.len() == w * h,
    ensures
        mirrored(w, mirrored(w, pixels)) == pixels,
{
    assert forall|k: int| 0 <= k < pixels.len() implies mirrored(w, mirrored(w, pixels))[k]
        == pixels[k] by {
        lemma_mirror_index(w, h, k);
    }
    assert(mirrored(w, mirrored(w, pixels)) =~= pixels);
}

/// Channel `c` of a pixel, counted red, green, blue, alpha.
pub open spec fn channel(p: Rgba, c: int) -> u8 {
    if c == 0 {
        p.r
    } else if c == 1 {
        p.g
    } else if c == 2 {
        p.b
    } else {
        p.a
    }
}

/// The raw bytes of a pixel sequence: four bytes to a pixel.
pub open spec fn rgba_bytes(pixels: Seq<Rgba>) -> Seq<u8> {
    Seq::new(4 * pixels.len(), |i: int| channel(pixels[i / 4], i % 4))
}

/// The pixels that raw bytes spell, four bytes to a pixel; bytes left over are dropped.
pub open spec fn pixels_of(bytes: Seq<u8>) -> Seq<Rgba> {
    Seq::new(
        bytes.len() / 4,
        |k: int|
            Rgba { r: bytes[4 * k], g: bytes[4 * k + 1], b: bytes[4 * k + 2], a: bytes[4 * k + 3] },
    )
}

/// Writing pixels out as bytes and reading them back gives the same pixels, and the
/// other way round for byte sequences whose length is a multiple of four.
pub proof fn lemma_bytes_round_trip(pixels: Seq<Rgba>, bytes: Seq<u8>)
    ensures
        pixels_of(rgba_bytes(pixels)) == pixels,
        bytes.len() % 4 == 0 ==> rgba_bytes(pixels_of(bytes)) == bytes,
{
    assert(pixels_of(rgba_bytes(pixels)) =~= pixels);
    if bytes.len() % 4 == 0 {
        assert(rgba_bytes(pixels_of(bytes)) =~= bytes);
    }
}

} // verus!
