//! Downscaling: a source raster is resampled to one cell for every block of pixels.

use vstd::prelude::*;
use crate::error::BeadError;
use crate::raster::{pixels_of, rgba_bytes, Raster};

verus! {

/// The kernel by which source pixels are weighted when a raster is resampled.
#[derive(Clone, Copy, Debug, PartialEq, Eq, Structural)]
pub enum DownscaleFilter {
    /// Nearest neighbour.
    Nearest,
    /// Linear.
    Triangle,
    /// Cubic.
    CatmullRom,
    /// Gaussian.
    Gaussian,
    /// Windowed sinc with window 3.
    Lanczos3,
}

/// The raw bytes of the raster that resampling gives: the source is `width` by `height`
/// with raw bytes `data`, the result `new_width` by `new_height`.
pub uninterp spec fn resampled(
    width: u32,
    height: u32,
    data: Seq<u8>,
    new_width: u32,
    new_height: u32,
    filter: DownscaleFilter,
) -> Seq<u8>;

/// Calls `image::imageops::resize` on an RGBA raster built from `data` by
/// `image::ImageBuffer::from_raw`, with the filter of the same name, and returns the raw
/// bytes of the raster that comes back. The contract gives those bytes their name and
/// states that there are four for every pixel of the new size. It asks that `data` has
/// four bytes for every source pixel, and that the intermediate raster, which holds
/// four 4-byte numbers for every pixel of the source's width and the new height, and
/// the result can be allocated.
#[verifier::external_body]
pub(crate) fn resample(
    width: u32,
    height: u32,
    data: Vec<u8>,
    new_width: u32,
    new_height: u32,
    filter: DownscaleFilter,
) -> (out: Vec<u8>)
    requires
        data@.len() == 4 * (width as int * height as int),
        16 * (width as int * new_height as int) <= isize::MAX,
        4 * (new_width as int * new_height as int) <= isize::MAX,
    ensures
        out@ == resampled(width, height, data@, new_width, new_height, filter),
        out@.len() == 4 * (new_width as int * new_height as int),
{
    let kind = match filter {
        DownscaleFilter::Nearest => image::imageops::FilterType::Nearest,
        DownscaleFilter::Triangle => image::imageops::FilterType::Triangle,
        DownscaleFilter::CatmullRom => image::imageops::FilterType::CatmullRom,
        DownscaleFilter::Gaussian => image::imageops::FilterType::Gaussian,
        DownscaleFilter::Lanczos3 => image::imageops::FilterType::Lanczos3,
    };
    let source = image::RgbaImage::from_raw(width, height, data).unwrap();
    image::imageops::resize(&source, new_width, new_height, kind).into_raw()
}

/// The pixels of the grid that `source` is downscaled to.
pub open spec fn downscaled(source: Raster, pixels_pr_bead: u32, filter: DownscaleFilter) -> Seq<
    crate::color::Rgba,
> {
    pixels_of(
        resampled(
            source.width,
            source.height,
            rgba_bytes(source.pixels@),
            source.width / pixels_pr_bead,
            source.height / pixels_pr_bead,
            filter,
        ),
    )
}

/// Whether a raster of this size, held as four 4-byte numbers to a pixel, can be
/// addressed on this machine.
pub open spec fn addressable(width: u32, height: u32) -> bool {
    16 * (width as int * height as int) <= isize::MAX
}

/// Tells whether a raster of this size can be downscaled on this machine.
pub fn is_addressable(width: u32, height: u32) -> (fits: bool)
    ensures
        fits == addressable(width, height),
{
    assert(width as int * height as int <= 0xffff_ffff * 0xffff_ffff) by (nonlinear_arith)
        requires
            width <= 0xffff_ffff,
            height <= 0xffff_ffff,
    ;
    let area: u64 = (width as u64) * (height as u64);
    area <= (isize::MAX as u64) / 16
}

/// Reduces `source` to a grid with one cell for every `pixels_pr_bead` pixels along each
/// side, rounded down, resampling with `filter`. Fails with `InvalidDimensions` exactly
/// when the grid would have no width or no height.
pub fn downscale(source: &Raster, pixels_pr_bead: u32, filter: DownscaleFilter) -> (out: Result<
    Raster,
    BeadError,
>)
    requires
        source.wf(),
        pixels_pr_bead >= 1,
        addressable(source.width, source.height),
    ensures
        out is Err <==> source.width / pixels_pr_bead == 0 || source.height / pixels_pr_bead == 0,
        out matches Err(e) ==> e == BeadError::InvalidDimensions,
        out matches Ok(grid) ==> grid.wf() && grid.width == source.width / pixels_pr_bead
            && grid.height == source.height / pixels_pr_bead && grid.pixels@ == downscaled(
            *source,
            pixels_pr_bead,
            filter,
        ),
{
    let width = source.width / pixels_pr_bead;
    let height = source.height / pixels_pr_bead;
    if width == 0 || height == 0 {
        return Err(BeadError::InvalidDimensions);
    }
    let data = source.to_rgba_bytes();
    proof {
        let w = source.width as int;
        let h = source.height as int;
        assert(width <= w && height <= h) by (nonlinear_arith)
            requires
                width == w / (pixels_pr_bead as int),
                height == h / (pixels_pr_bead as int),
                pixels_pr_bead >= 1,
                0 <= w,
                0 <= h,
        ;
        assert(w * height <= w * h && width * height <= w * h) by (nonlinear_arith)
            requires
                0 <= width <= w,
                0 <= height <= h,
        ;
    }
    let bytes = resample(source.width, source.height, data, width, height, filter);
    match Raster::from_rgba_bytes(width, height, &bytes) {
        Some(grid) => Ok(grid),
        None => Err(BeadError::InvalidDimensions),
    }
}

} // verus!
