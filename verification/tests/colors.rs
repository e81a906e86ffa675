use beadwork::color::{make_rgb, mul_rgba, Color, Rgba, ALPHA_THRESHOLD};
use beadwork::distance::{distance, distance_rgb, DistanceMeasure};

fn rgb(r: u8, g: u8, b: u8) -> Color {
    Color { r, g, b }
}

#[test]
fn make_rgb_splits_the_channels() {
    assert_eq!(make_rgb(0xFF0000), rgb(255, 0, 0));
    assert_eq!(make_rgb(0x0000FF), rgb(0, 0, 255));
    assert_eq!(make_rgb(0x123456), rgb(0x12, 0x34, 0x56));
    assert_eq!(make_rgb(0), rgb(0, 0, 0));
}

#[test]
fn make_rgb_ignores_the_top_byte() {
    assert_eq!(make_rgb(0xAB123456), rgb(0x12, 0x34, 0x56));
    assert_eq!(make_rgb(u32::MAX), rgb(255, 255, 255));
}

#[test]
fn pixel_and_colour_convert() {
    assert_eq!(rgb(1, 2, 3).to_rgba(), Rgba { r: 1, g: 2, b: 3, a: 255 });
    assert_eq!(Rgba { r: 1, g: 2, b: 3, a: 7 }.to_rgb(), rgb(1, 2, 3));
    assert_eq!(ALPHA_THRESHOLD, 128);
}

#[test]
fn mul_rgba_truncates() {
    let cell = Rgba { r: 200, g: 100, b: 50, a: 255 };
    let shade = Rgba { r: 128, g: 255, b: 0, a: 128 };
    assert_eq!(mul_rgba(cell, shade), Rgba { r: 100, g: 100, b: 0, a: 128 });
    assert_eq!(
        mul_rgba(Rgba { r: 254, g: 1, b: 255, a: 3 }, Rgba { r: 254, g: 254, b: 254, a: 85 }),
        Rgba { r: 253, g: 0, b: 254, a: 1 }
    );
}

#[test]
fn mul_rgba_by_full_and_by_zero() {
    let full = Rgba { r: 255, g: 255, b: 255, a: 255 };
    let zero = Rgba { r: 0, g: 0, b: 0, a: 0 };
    for v in [0u8, 1, 77, 128, 254, 255] {
        let cell = Rgba { r: v, g: 255 - v, b: v / 2, a: v };
        assert_eq!(mul_rgba(cell, full), cell);
        assert_eq!(mul_rgba(cell, zero), zero);
    }
}

#[test]
fn mul_rgba_is_the_floor_for_every_pair() {
    for c in 0..=255u32 {
        for t in 0..=255u32 {
            let out = mul_rgba(
                Rgba { r: c as u8, g: 0, b: 0, a: 0 },
                Rgba { r: t as u8, g: 0, b: 0, a: 0 },
            );
            assert_eq!(out.r as u32, c * t / 255);
        }
    }
}

#[test]
fn rgb_distance_values() {
    assert_eq!(distance_rgb(rgb(0, 0, 0), rgb(255, 255, 255)), 195075);
    assert_eq!(distance_rgb(rgb(255, 0, 0), rgb(0, 0, 255)), 130050);
    assert_eq!(distance_rgb(rgb(10, 20, 30), rgb(13, 16, 30)), 25);
    assert_eq!(distance(DistanceMeasure::Rgb, rgb(1, 2, 3), rgb(3, 2, 1)), 8);
}

#[test]
fn rgb_distance_is_zero_on_itself_and_symmetric() {
    let samples = [rgb(0, 0, 0), rgb(255, 255, 255), rgb(12, 200, 99), rgb(255, 0, 1)];
    for a in samples {
        assert_eq!(distance_rgb(a, a), 0);
        for b in samples {
            assert_eq!(distance_rgb(a, b), distance_rgb(b, a));
            assert_eq!(distance_rgb(a, b) == 0, a == b);
        }
    }
}

#[test]
fn lab_distance_is_zero_on_itself_and_symmetric() {
    let samples = [rgb(0, 0, 0), rgb(255, 255, 255), rgb(12, 200, 99), rgb(240, 33, 95)];
    for a in samples {
        assert_eq!(distance(DistanceMeasure::Lab, a, a), 0);
        for b in samples {
            assert_eq!(
                distance(DistanceMeasure::Lab, a, b),
                distance(DistanceMeasure::Lab, b, a)
            );
        }
    }
}

#[test]
fn lab_distance_of_black_and_white() {
    let bits = distance(DistanceMeasure::Lab, rgb(0, 0, 0), rgb(255, 255, 255));
    let value = f32::from_bits(bits);
    assert!((value - 10000.0).abs() < 1.0, "{}", value);
}

#[test]
fn lab_scores_are_ordered_as_the_distances() {
    let red = rgb(255, 0, 0);
    let near = distance(DistanceMeasure::Lab, red, rgb(250, 10, 10));
    let far = distance(DistanceMeasure::Lab, red, rgb(0, 0, 255));
    assert!(near < far);
    assert!(f32::from_bits(near) < f32::from_bits(far));
    assert!(f32::from_bits(near) > 0.0);
}
