//! Quantization: every cell of a grid takes the nearest colour of the palette.

use vstd::prelude::*;
use crate::color::{transparent_white, Color, Rgba, ALPHA_THRESHOLD};
use crate::distance::{distance, score, DistanceMeasure};
use crate::palette::PaletteEntry;
use crate::raster::Raster;

verus! {

/// `k` is the first position of `scores` that holds their minimum.
pub open spec fn is_first_minimum(scores: Seq<u32>, k: int) -> bool {
    &&& 0 <= k < scores.len()
    &&& forall|j: int| 0 <= j < scores.len() ==> scores[k] <= #[trigger] scores[j]
    &&& forall|j: int| 0 <= j < k ==> scores[k] < #[trigger] scores[j]
}

/// The first position of `scores` that holds their minimum.
pub open spec fn nearest(scores: Seq<u32>) -> int {
    choose|k: int| is_first_minimum(scores, k)
}

/// At most one position is the first minimum.
pub proof fn lemma_first_minimum_unique(scores: Seq<u32>, k: int, m: int)
    requires
        is_first_minimum(scores, k),
        is_first_minimum(scores, m),
    ensures
        k == m,
        k == nearest(scores),
{
    if k < m {
        assert(scores[m] < scores[k]);
        assert(scores[k] <= scores[m]);
    }
    if m < k {
        assert(scores[k] < scores[m]);
        assert(scores[m] <= scores[k]);
    }
    let n = nearest(scores);
    if n < k {
        assert(scores[k] < scores[n]);
        assert(scores[n] <= scores[k]);
    }
    if k < n {
        assert(scores[n] < scores[k]);
        assert(scores[k] <= scores[n]);
    }
}

/// Scores that are not empty have a first minimum, and `nearest` is it.
pub proof fn lemma_first_minimum_exists(scores: Seq<u32>)
    requires
        scores.len() > 0,
    ensures
        is_first_minimum(scores, nearest(scores)),
    decreases scores.len(),
{
    let n = scores.len() - 1;
    if n == 0 {
        assert(is_first_minimum(scores, 0));
    } else {
        let earlier = scores.drop_last();
        lemma_first_minimum_exists(earlier);
        let k = nearest(earlier);
        assert(forall|j: int| 0 <= j < n ==> earlier[j] == scores[j]);
        if scores[n] < scores[k] {
            assert forall|j: int| 0 <= j < n implies scores[n] < #[trigger] scores[j] by {
                assert(earlier[k] <= earlier[j]);
            }
            assert(is_first_minimum(scores, n));
        } else {
            assert forall|j: int| 0 <= j < scores.len() implies scores[k] <= #[trigger] scores[j] by {
                if j < n {
                    assert(earlier[k] <= earlier[j]);
                }
            }
            assert forall|j: int| 0 <= j < k implies scores[k] < #[trigger] scores[j] by {
                assert(earlier[k] < earlier[j]);
            }
            assert(is_first_minimum(scores, k));
        }
    }
}

/// Of two equal scores the later one is never chosen: where positions `i < j` hold the
/// same score, the first minimum is not `j`.
pub proof fn lemma_tie_takes_first(scores: Seq<u32>, i: int, j: int)
    requires
        0 <= i < j < scores.len(),
        scores[i] == scores[j],
    ensures
        nearest(scores) != j,
        is_first_minimum(scores, nearest(scores)),
{
    lemma_first_minimum_exists(scores);
    if nearest(scores) == j {
        assert(scores[j] < scores[i]);
    }
}

/// The position of the smallest score; of equal scores the first wins. `None` only
/// for no scores at all.
pub fn first_minimum(scores: &Vec<u32>) -> (best: Option<usize>)
    ensures
        best is None <==> scores@.len() == 0,
        best matches Some(k) ==> is_first_minimum(scores@, k as int) && k == nearest(scores@),
{
    if scores.len() == 0 {
        return None;
    }
    let mut k: usize = 0;
    let mut i: usize = 1;
    while i < scores.len()
        invariant
            1 <= i <= scores.len(),
            k < i,
            forall|j: int| 0 <= j < i ==> scores@[k as int] <= #[trigger] scores@[j],
            forall|j: int| 0 <= j < k ==> scores@[k as int] < #[trigger] scores@[j],
        decreases scores.len() - i,
    {
        if scores[i] < scores[k] {
            k = i;
        }
        i += 1;
    }
    proof {
        lemma_first_minimum_unique(scores@, k as int, k as int);
    }
    Some(k)
}

/// The score of every palette entry against `target`, in palette order.
pub open spec fn scores_of(palette: Seq<PaletteEntry>, target: Color, measure: DistanceMeasure) -> Seq<
    u32,
> {
    Seq::new(palette.len(), |i: int| score(measure, palette[i].color, target) as u32)
}

/// The palette entry that a cell takes: none for a cell below the alpha threshold or
/// for an empty palette, else the first entry with the least score against the cell's
/// colour.
pub open spec fn choice(cell: Rgba, palette: Seq<PaletteEntry>, measure: DistanceMeasure) -> Option<
    int,
> {
    if cell.a < ALPHA_THRESHOLD || palette.len() == 0 {
        None
    } else {
        Some(nearest(scores_of(palette, cell.color(), measure)))
    }
}

/// The pixel that a cell becomes: transparent white below the alpha threshold, else
/// the chosen entry's colour, fully opaque; unchanged where the palette is empty.
pub open spec fn quantized(cell: Rgba, palette: Seq<PaletteEntry>, measure: DistanceMeasure) -> Rgba {
    if cell.a < ALPHA_THRESHOLD {
        transparent_white()
    } else {
        match choice(cell, palette, measure) {
            Some(k) => palette[k].color.opaque(),
            None => cell,
        }
    }
}

/// How many of `cells` take palette entry `k`.
pub open spec fn hits(
    cells: Seq<Rgba>,
    palette: Seq<PaletteEntry>,
    measure: DistanceMeasure,
    k: int,
) -> nat
    decreases cells.len(),
{
    if cells.len() == 0 {
        0
    } else {
        hits(cells.drop_last(), palette, measure, k) + if choice(cells.last(), palette, measure)
            == Some(k) {
            1nat
        } else {
            0nat
        }
    }
}

/// How many of `cells` reach the alpha threshold.
pub open spec fn opaque_count(cells: Seq<Rgba>) -> nat
    decreases cells.len(),
{
    if cells.len() == 0 {
        0
    } else {
        opaque_count(cells.drop_last()) + if cells.last().a >= ALPHA_THRESHOLD {
            1nat
        } else {
            0nat
        }
    }
}

/// The sum of a sequence of counts.
pub open spec fn total(counts: Seq<u64>) -> nat
    decreases counts.len(),
{
    if counts.len() == 0 {
        0
    } else {
        total(counts.drop_last()) + counts.last() as nat
    }
}

/// Raising one count by `amount` raises the sum by `amount`.
pub proof fn lemma_total_update(counts: Seq<u64>, k: int, value: u64)
    requires
        0 <= k < counts.len(),
    ensures
        total(counts.update(k, value)) == total(counts) - counts[k] + value,
    decreases counts.len(),
{
    let changed = counts.update(k, value);
    if k == counts.len() - 1 {
        assert(changed.drop_last() =~= counts.drop_last());
    } else {
        assert(changed.drop_last() =~= counts.drop_last().update(k, value));
        lemma_total_update(counts.drop_last(), k, value);
    }
}

/// A sequence of zeros sums to zero.
pub proof fn lemma_total_zero(counts: Seq<u64>)
    requires
        forall|i: int| 0 <= i < counts.len() ==> counts[i] == 0,
    ensures
        total(counts) == 0,
    decreases counts.len(),
{
    if counts.len() > 0 {
        lemma_total_zero(counts.drop_last());
    }
}

/// The scores of all palette entries against `target`.
pub fn score_all(palette: &Vec<PaletteEntry>, target: Color, measure: DistanceMeasure) -> (scores:
    Vec<u32>)
    ensures
        scores@ == scores_of(palette@, target, measure),
{
    let mut scores: Vec<u32> = Vec::new();
    let mut i: usize = 0;
    while i < palette.len()
        invariant
            i <= palette.len(),
            scores@ == scores_of(palette@, target, measure).take(i as int),
        decreases palette.len() - i,
    {
        let d = distance(measure, palette[i].color, target);
        scores.push(d);
        i += 1;
        assert(scores@ =~= scores_of(palette@, target, measure).take(i as int));
    }
    assert(scores_of(palette@, target, measure).take(i as int) =~= scores_of(
        palette@,
        target,
        measure,
    ));
    scores
}

/// The palette entry nearest to `target`: the first one with the least score.
pub fn nearest_entry(palette: &Vec<PaletteEntry>, target: Color, measure: DistanceMeasure) -> (best:
    Option<usize>)
    ensures
        best is None <==> palette@.len() == 0,
        best matches Some(k) ==> k < palette@.len() && k == nearest(
            scores_of(palette@, target, measure),
        ) && is_first_minimum(scores_of(palette@, target, measure), k as int),
{
    let scores = score_all(palette, target, measure);
    first_minimum(&scores)
}

/// A quantized grid and, for every palette entry, the number of cells that took it.
#[derive(Clone, Debug, PartialEq, Eq)]
pub struct Quantized {
    pub grid: Raster,
    pub tally: Vec<u64>,
}

/// Replaces every cell of `grid` by its quantized pixel and counts, for every palette
/// entry, the cells that took it.
pub fn quantize(grid: &Raster, palette: &Vec<PaletteEntry>, measure: DistanceMeasure) -> (out:
    Quantized)
    requires
        grid.wf(),
    ensures
        out.grid.wf(),
        out.grid.width == grid.width,
        out.grid.height == grid.height,
        out.grid.pixels@.len() == grid.pixels@.len(),
        forall|i: int|
            0 <= i < grid.pixels@.len() ==> #[trigger] out.grid.pixels@[i] == quantized(
                grid.pixels@[i],
                palette@,
                measure,
            ),
        out.tally@.len() == palette@.len(),
        forall|k: int|
            0 <= k < palette@.len() ==> #[trigger] out.tally@[k] == hits(
                grid.pixels@,
                palette@,
                measure,
                k,
            ),
        palette@.len() > 0 ==> total(out.tally@) == opaque_count(grid.pixels@),
        palette@.len() == 0 ==> total(out.tally@) == 0,
{
    let mut tally: Vec<u64> = Vec::new();
    let mut k: usize = 0;
    while k < palette.len()
        invariant
            k <= palette.len(),
            tally@.len() == k,
            forall|j: int| 0 <= j < k ==> tally@[j] == 0,
        decreases palette.len() - k,
    {
        tally.push(0);
        k += 1;
    }
    proof {
        lemma_total_zero(tally@);
    }
    let ghost cells = grid.pixels@;
    let mut pixels: Vec<Rgba> = Vec::new();
    let mut i: usize = 0;
    while i < grid.pixels.len()
        invariant
            i <= grid.pixels.len(),
            cells == grid.pixels@,
            pixels@.len() == i,
            forall|j: int|
                0 <= j < i ==> #[trigger] pixels@[j] == quantized(cells[j], palette@, measure),
            tally@.len() == palette@.len(),
            forall|m: int|
                0 <= m < palette@.len() ==> #[trigger] tally@[m] == hits(
                    cells.take(i as int),
                    palette@,
                    measure,
                    m,
                ),
            forall|m: int| 0 <= m < palette@.len() ==> #[trigger] tally@[m] <= i,
            palette@.len() > 0 ==> total(tally@) == opaque_count(cells.take(i as int)),
            palette@.len() == 0 ==> total(tally@) == 0,
        decreases grid.pixels.len() - i,
    {
        let cell = grid.pixels[i];
        proof {
            assert(cells.take(i + 1).drop_last() =~= cells.take(i as int));
            assert(cells.take(i + 1).last() == cell);
        }
        if cell.a < ALPHA_THRESHOLD {
            pixels.push(Rgba { r: 255, g: 255, b: 255, a: 0 });
        } else {
            match nearest_entry(palette, cell.to_rgb(), measure) {
                Some(best) => {
                    let ghost before = tally@;
                    let count = tally[best];
                    tally.set(best, count + 1);
                    pixels.push(palette[best].color.to_rgba());
                    proof {
                        lemma_total_update(before, best as int, (count + 1) as u64);
                    }
                },
                None => {
                    pixels.push(cell);
                },
            }
        }
        i += 1;
    }
    proof {
        assert(cells.take(i as int) =~= cells);
    }
    Quantized { grid: Raster { width: grid.width, height: grid.height, pixels }, tally }
}

/// A cell below the alpha threshold becomes transparent white, whatever the palette and
/// the metric, and adds to the count of no palette entry.
pub proof fn lemma_transparent_cell(
    cells: Seq<Rgba>,
    cell: Rgba,
    palette: Seq<PaletteEntry>,
    measure: DistanceMeasure,
    k: int,
)
    requires
        cell.a < ALPHA_THRESHOLD,
    ensures
        quantized(cell, palette, measure) == transparent_white(),
        choice(cell, palette, measure) is None,
        hits(cells.push(cell), palette, measure, k) == hits(cells, palette, measure, k),
        opaque_count(cells.push(cell)) == opaque_count(cells),
{
    assert(cells.push(cell).drop_last() =~= cells);
}

/// A cell that reaches the alpha threshold takes exactly one entry of a palette that is
/// not empty, becomes that entry's colour, fully opaque, and adds one to that entry's
/// count and to no other.
pub proof fn lemma_opaque_cell(
    cells: Seq<Rgba>,
    cell: Rgba,
    palette: Seq<PaletteEntry>,
    measure: DistanceMeasure,
    k: int,
)
    requires
        cell.a >= ALPHA_THRESHOLD,
        palette.len() > 0,
    ensures
        choice(cell, palette, measure) matches Some(taken) && 0 <= taken < palette.len()
            && quantized(cell, palette, measure) == palette[taken].color.opaque() && hits(
            cells.push(cell),
            palette,
            measure,
            k,
        ) == hits(cells, palette, measure, k) + if k == taken {
            1nat
        } else {
            0nat
        },
        opaque_count(cells.push(cell)) == opaque_count(cells) + 1,
{
    assert(cells.push(cell).drop_last() =~= cells);
    lemma_first_minimum_exists(scores_of(palette, cell.color(), measure));
}

/// First match wins under either metric: where the palette entries at `i < j` have the
/// same score against a cell's colour, the cell does not take entry `j`.
pub proof fn lemma_tie_break(
    cell: Rgba,
    palette: Seq<PaletteEntry>,
    measure: DistanceMeasure,
    i: int,
    j: int,
)
    requires
        0 <= i < j < palette.len(),
        score(measure, palette[i].color, cell.color()) == score(
            measure,
            palette[j].color,
            cell.color(),
        ),
    ensures
        choice(cell, palette, measure) != Some(j),
{
    let scores = scores_of(palette, cell.color(), measure);
    assert(scores[i] == scores[j]);
    lemma_tie_takes_first(scores, i, j);
}

} // verus!
