use beadwork::beads::count_beads;
use beadwork::color::{Color, Rgba};
use beadwork::distance::DistanceMeasure;
use beadwork::frequency::FrequencyEntry;
use beadwork::palette::PaletteEntry;
use beadwork::quantize::{first_minimum, nearest_entry, quantize, score_all};
use beadwork::raster::Raster;

const NO_BEAD: Rgba = Rgba { r: 255, g: 255, b: 255, a: 0 };

fn entry(name: &str, r: u8, g: u8, b: u8) -> PaletteEntry {
    PaletteEntry { name: name.to_string(), color: Color { r, g, b } }
}

fn line(name: &str, count: u64) -> FrequencyEntry {
    FrequencyEntry { name: name.to_string(), count }
}

fn row(pixels: Vec<Rgba>) -> Raster {
    Raster::new(pixels.len() as u32, 1, pixels).unwrap()
}

#[test]
fn first_minimum_of_nothing_is_none() {
    assert_eq!(first_minimum(&vec![]), None);
}

#[test]
fn first_minimum_takes_the_smallest() {
    assert_eq!(first_minimum(&vec![5]), Some(0));
    assert_eq!(first_minimum(&vec![5, 3, 9]), Some(1));
    assert_eq!(first_minimum(&vec![5, 3, 9, 0]), Some(3));
    assert_eq!(first_minimum(&vec![u32::MAX, u32::MAX - 1]), Some(1));
}

#[test]
fn first_minimum_takes_the_first_of_equals() {
    assert_eq!(first_minimum(&vec![4, 4]), Some(0));
    assert_eq!(first_minimum(&vec![7, 2, 2, 2]), Some(1));
    assert_eq!(first_minimum(&vec![2, 7, 2]), Some(0));
    assert_eq!(first_minimum(&vec![u32::MAX, u32::MAX]), Some(0));
}

#[test]
fn scores_follow_the_palette() {
    let palette = vec![entry("a", 0, 0, 0), entry("b", 10, 0, 0), entry("c", 0, 0, 3)];
    let scores = score_all(&palette, Color { r: 10, g: 0, b: 0 }, DistanceMeasure::Rgb);
    assert_eq!(scores, vec![100, 0, 109]);
    assert_eq!(
        nearest_entry(&palette, Color { r: 10, g: 0, b: 0 }, DistanceMeasure::Rgb),
        Some(1)
    );
    assert_eq!(nearest_entry(&vec![], Color { r: 10, g: 0, b: 0 }, DistanceMeasure::Rgb), None);
}

#[test]
fn ties_go_to_the_first_entry_under_both_metrics() {
    let twins = vec![entry("First", 10, 20, 30), entry("Second", 10, 20, 30)];
    let cells = row(vec![Rgba { r: 200, g: 100, b: 50, a: 255 }]);
    for measure in [DistanceMeasure::Rgb, DistanceMeasure::Lab] {
        let (table, grid) = count_beads(&cells, &twins, measure);
        assert_eq!(table.entries, vec![line("First", 1)]);
        assert_eq!(grid.pixels, vec![Rgba { r: 10, g: 20, b: 30, a: 255 }]);
    }
    let equidistant = vec![entry("Low", 90, 0, 0), entry("High", 110, 0, 0)];
    let middle = row(vec![Rgba { r: 100, g: 0, b: 0, a: 255 }]);
    let (table, grid) = count_beads(&middle, &equidistant, DistanceMeasure::Rgb);
    assert_eq!(table.entries, vec![line("Low", 1)]);
    assert_eq!(grid.pixels, vec![Rgba { r: 90, g: 0, b: 0, a: 255 }]);
}

#[test]
fn alpha_below_the_threshold_gives_no_bead() {
    let palette = vec![entry("Red", 255, 0, 0)];
    for measure in [DistanceMeasure::Rgb, DistanceMeasure::Lab] {
        let cells = row(vec![
            Rgba { r: 255, g: 0, b: 0, a: 127 },
            Rgba { r: 255, g: 0, b: 0, a: 0 },
            Rgba { r: 1, g: 2, b: 3, a: 128 },
            Rgba { r: 1, g: 2, b: 3, a: 255 },
        ]);
        let (table, grid) = count_beads(&cells, &palette, measure);
        let red = Rgba { r: 255, g: 0, b: 0, a: 255 };
        assert_eq!(grid.pixels, vec![NO_BEAD, NO_BEAD, red, red]);
        assert_eq!(table.entries, vec![line("Red", 2)]);
    }
}

#[test]
fn counts_add_up_to_the_opaque_cells() {
    let palette = vec![entry("Red", 255, 0, 0), entry("Green", 0, 255, 0), entry("Blue", 0, 0, 255)];
    let mut pixels = Vec::new();
    for k in 0..60u32 {
        pixels.push(Rgba {
            r: (k * 37 % 256) as u8,
            g: (k * 91 % 256) as u8,
            b: (k * 13 % 256) as u8,
            a: (k * 29 % 256) as u8,
        });
    }
    let opaque = pixels.iter().filter(|p| p.a >= 128).count() as u64;
    let cells = Raster::new(10, 6, pixels).unwrap();
    for measure in [DistanceMeasure::Rgb, DistanceMeasure::Lab] {
        let (table, grid) = count_beads(&cells, &palette, measure);
        assert_eq!(table.total(), opaque);
        assert_eq!(table.entries.iter().map(|e| e.count).sum::<u64>(), opaque);
        assert_eq!((grid.width, grid.height), (10, 6));
        let done = quantize(&cells, &palette, measure);
        assert_eq!(done.tally.iter().sum::<u64>(), opaque);
        assert_eq!(done.grid, grid);
    }
}

#[test]
fn entries_of_one_name_are_added_up() {
    let palette = vec![entry("Red", 255, 0, 0), entry("Sky", 0, 0, 255), entry("Red", 200, 0, 0)];
    let cells = row(vec![
        Rgba { r: 255, g: 0, b: 0, a: 255 },
        Rgba { r: 199, g: 0, b: 0, a: 255 },
        Rgba { r: 0, g: 0, b: 250, a: 255 },
    ]);
    let (table, grid) = count_beads(&cells, &palette, DistanceMeasure::Rgb);
    assert_eq!(table.entries, vec![line("Red", 2), line("Sky", 1)]);
    assert_eq!(
        grid.pixels,
        vec![
            Rgba { r: 255, g: 0, b: 0, a: 255 },
            Rgba { r: 200, g: 0, b: 0, a: 255 },
            Rgba { r: 0, g: 0, b: 255, a: 255 },
        ]
    );
    let done = quantize(&cells, &palette, DistanceMeasure::Rgb);
    assert_eq!(done.tally, vec![1, 1, 1]);
}

#[test]
fn an_empty_palette_changes_no_opaque_cell() {
    let cells = row(vec![
        Rgba { r: 9, g: 8, b: 7, a: 200 },
        Rgba { r: 9, g: 8, b: 7, a: 100 },
        Rgba { r: 1, g: 1, b: 1, a: 128 },
    ]);
    let (table, grid) = count_beads(&cells, &vec![], DistanceMeasure::Lab);
    assert!(table.entries.is_empty());
    assert_eq!(table.total(), 0);
    assert_eq!(
        grid.pixels,
        vec![Rgba { r: 9, g: 8, b: 7, a: 200 }, NO_BEAD, Rgba { r: 1, g: 1, b: 1, a: 128 }]
    );
}

#[test]
fn lab_can_choose_otherwise_than_rgb() {
    let palette = vec![entry("Grey", 128, 128, 128), entry("Navy", 0, 0, 110)];
    let cell = Color { r: 0, g: 0, b: 255 };
    let rgb = nearest_entry(&palette, cell, DistanceMeasure::Rgb);
    let lab = nearest_entry(&palette, cell, DistanceMeasure::Lab);
    assert_eq!(rgb, Some(1));
    assert_eq!(lab, Some(1));
    let scores = score_all(&palette, cell, DistanceMeasure::Lab);
    assert!(scores[1] < scores[0]);
}
