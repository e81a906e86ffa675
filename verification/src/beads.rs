//! From a source raster to a grid of beads and the count of beads of every name.

use vstd::prelude::*;
use crate::color::Rgba;
use crate::distance::DistanceMeasure;
use crate::downscale::{addressable, downscale, downscaled, DownscaleFilter};
use crate::error::BeadError;
use crate::frequency::{named_total, tabulate, FrequencyTable};
use crate::palette::PaletteEntry;
use crate::quantize::{choice, hits, opaque_count, quantize, quantized};
use crate::raster::Raster;

verus! {

/// For every palette entry, the number of `cells` that take it.
pub open spec fn tally_of(cells: Seq<Rgba>, palette: Seq<PaletteEntry>, measure: DistanceMeasure) -> Seq<
    u64,
> {
    Seq::new(palette.len(), |k: int| hits(cells, palette, measure, k) as u64)
}

/// Whether a cell takes a palette entry called `name`.
pub open spec fn takes_name(
    cell: Rgba,
    palette: Seq<PaletteEntry>,
    measure: DistanceMeasure,
    name: Seq<char>,
) -> bool {
    match choice(cell, palette, measure) {
        Some(k) => palette[k].name@ == name,
        None => false,
    }
}

/// How many of `cells` take a palette entry called `name`.
pub open spec fn name_hits(
    cells: Seq<Rgba>,
    palette: Seq<PaletteEntry>,
    measure: DistanceMeasure,
    name: Seq<char>,
) -> nat
    decreases cells.len(),
{
    if cells.len() == 0 {
        0
    } else {
        name_hits(cells.drop_last(), palette, measure, name) + if takes_name(
            cells.last(),
            palette,
            measure,
            name,
        ) {
            1nat
        } else {
            0nat
        }
    }
}

proof fn lemma_hits_bound(cells: Seq<Rgba>, palette: Seq<PaletteEntry>, measure: DistanceMeasure, k: int)
    ensures
        hits(cells, palette, measure, k) <= cells.len(),
    decreases cells.len(),
{
    if cells.len() > 0 {
        lemma_hits_bound(cells.drop_last(), palette, measure, k);
    }
}

proof fn lemma_named_total_zero(palette: Seq<PaletteEntry>, tally: Seq<u64>, name: Seq<char>, n: int)
    requires
        0 <= n <= palette.len(),
        forall|i: int| 0 <= i < n ==> tally[i] == 0,
    ensures
        named_total(palette.take(n), tally, name) == 0,
    decreases n,
{
    if n > 0 {
        assert(palette.take(n).drop_last() =~= palette.take(n - 1));
        lemma_named_total_zero(palette, tally, name, n - 1);
    }
}

proof fn lemma_named_total_raised(
    palette: Seq<PaletteEntry>,
    lower: Seq<u64>,
    higher: Seq<u64>,
    name: Seq<char>,
    taken: Option<int>,
    n: int,
)
    requires
        0 <= n <= palette.len(),
        forall|i: int|
            0 <= i < n ==> higher[i] == lower[i] + if taken == Some(i) {
                1nat
            } else {
                0nat
            },
    ensures
        named_total(palette.take(n), higher, name) == named_total(palette.take(n), lower, name)
            + if taken matches Some(k) && 0 <= k < n && palette[k].name@ == name {
            1nat
        } else {
            0nat
        },
    decreases n,
{
    if n > 0 {
        assert(palette.take(n).drop_last() =~= palette.take(n - 1));
        lemma_named_total_raised(palette, lower, higher, name, taken, n - 1);
    }
}

/// Adding up, over the palette entries called `name`, the cells that took each entry
/// counts the cells that took an entry called `name`.
pub proof fn lemma_named_total_counts_names(
    cells: Seq<Rgba>,
    palette: Seq<PaletteEntry>,
    measure: DistanceMeasure,
    name: Seq<char>,
)
    requires
        cells.len() <= u64::MAX,
    ensures
        named_total(palette, tally_of(cells, palette, measure), name) == name_hits(
            cells,
            palette,
            measure,
            name,
        ),
    decreases cells.len(),
{
    let n = palette.len() as int;
    let tally = tally_of(cells, palette, measure);
    assert(palette.take(n) =~= palette);
    if cells.len() == 0 {
        lemma_named_total_zero(palette, tally, name, n);
    } else {
        let earlier = cells.drop_last();
        let lower = tally_of(earlier, palette, measure);
        let taken = choice(cells.last(), palette, measure);
        lemma_named_total_counts_names(earlier, palette, measure, name);
        assert forall|i: int| 0 <= i < n implies tally[i] == lower[i] + if taken == Some(i) {
            1nat
        } else {
            0nat
        } by {
            lemma_hits_bound(cells, palette, measure, i);
            lemma_hits_bound(earlier, palette, measure, i);
        }
        lemma_named_total_raised(palette, lower, tally, name, taken, n);
        if palette.len() > 0 && taken is Some {
            crate::quantize::lemma_first_minimum_exists(
                crate::quantize::scores_of(palette, cells.last().color(), measure),
            );
        }
    }
}

/// `table` and `grid` are what the cells `cells` give under the palette: every cell is
/// replaced by its quantized pixel, and the table holds for every name the number of
/// cells that took an entry of that name.
pub open spec fn is_bead_count(
    table: FrequencyTable,
    grid: Seq<Rgba>,
    cells: Seq<Rgba>,
    palette: Seq<PaletteEntry>,
    measure: DistanceMeasure,
) -> bool {
    &&& grid.len() == cells.len()
    &&& forall|i: int|
        0 <= i < cells.len() ==> #[trigger] grid[i] == quantized(cells[i], palette, measure)
    &&& table.wf()
    &&& forall|name: Seq<char>| #[trigger]
        table.count_of(name) == name_hits(cells, palette, measure, name)
    &&& table.sum() == if palette.len() > 0 {
        opaque_count(cells)
    } else {
        0
    }
}

/// No more cells reach the alpha threshold than there are cells.
pub proof fn lemma_opaque_count_bound(cells: Seq<Rgba>)
    ensures
        opaque_count(cells) <= cells.len(),
    decreases cells.len(),
{
    if cells.len() > 0 {
        lemma_opaque_count_bound(cells.drop_last());
    }
}

/// Quantizes the grid `cells` against the palette and counts the beads of every name.
/// A cell below the alpha threshold becomes transparent white and is not counted; with
/// an empty palette every other cell stays as it is, and nothing is counted.
pub fn count_beads(cells: &Raster, palette: &Vec<PaletteEntry>, distance: DistanceMeasure) -> (out: (
    FrequencyTable,
    Raster,
))
    requires
        cells.wf(),
    ensures
        out.1.wf(),
        out.1.width == cells.width,
        out.1.height == cells.height,
        is_bead_count(out.0, out.1.pixels@, cells.pixels@, palette@, distance),
{
    let done = quantize(cells, palette, distance);
    let count: usize = cells.pixels.len();
    proof {
        lemma_opaque_count_bound(cells.pixels@);
        assert(done.tally@ =~= tally_of(cells.pixels@, palette@, distance));
    }
    let table = tabulate(palette, &done.tally);
    proof {
        assert forall|name: Seq<char>| #[trigger]
            table.count_of(name) == name_hits(cells.pixels@, palette@, distance, name) by {
            lemma_named_total_counts_names(cells.pixels@, palette@, distance, name);
        }
    }
    (table, done.grid)
}

/// Downscales `source` to one cell for every `pixels_pr_bead` pixels along each side,
/// quantizes the cells against the palette and counts the beads of every name. Fails
/// with `InvalidDimensions` exactly when the grid would have no width or no height.
pub fn create_beads(
    source: &Raster,
    pixels_pr_bead: u32,
    palette: &Vec<PaletteEntry>,
    distance: DistanceMeasure,
    filter: DownscaleFilter,
) -> (out: Result<(FrequencyTable, Raster), BeadError>)
    requires
        source.wf(),
        pixels_pr_bead >= 1,
        addressable(source.width, source.height),
    ensures
        out is Err <==> source.width / pixels_pr_bead == 0 || source.height / pixels_pr_bead == 0,
        out matches Err(e) ==> e == BeadError::InvalidDimensions,
        out matches Ok(beads) ==> beads.1.wf() && beads.1.width == source.width / pixels_pr_bead
            && beads.1.height == source.height / pixels_pr_bead && is_bead_count(
            beads.0,
            beads.1.pixels@,
            downscaled(*source, pixels_pr_bead, filter),
            palette@,
            distance,
        ),
{
    match downscale(source, pixels_pr_bead, filter) {
        Ok(cells) => Ok(count_beads(&cells, palette, distance)),
        Err(e) => Err(e),
    }
}

} // verus!
