use beadwork::color::Rgba;
use beadwork::raster::Raster;

fn px(v: u8) -> Rgba {
    Rgba { r: v, g: v.wrapping_mul(3), b: 255 - v, a: 255 }
}

fn numbered(width: u32, height: u32) -> Raster {
    let pixels = (0..width * height).map(|k| px(k as u8)).collect();
    Raster::new(width, height, pixels).unwrap()
}

#[test]
fn new_checks_the_number_of_pixels() {
    assert!(Raster::new(2, 2, vec![px(0); 4]).is_some());
    assert!(Raster::new(2, 2, vec![px(0); 3]).is_none());
    assert!(Raster::new(2, 2, vec![px(0); 5]).is_none());
    assert!(Raster::new(0, 7, vec![]).is_some());
    assert!(Raster::new(0, 7, vec![px(0)]).is_none());
}

#[test]
fn get_pixel_reads_row_by_row() {
    let r = numbered(3, 2);
    assert_eq!(r.get_pixel(0, 0), px(0));
    assert_eq!(r.get_pixel(2, 0), px(2));
    assert_eq!(r.get_pixel(0, 1), px(3));
    assert_eq!(r.get_pixel(2, 1), px(5));
}

#[test]
fn bytes_are_four_to_a_pixel() {
    let r = Raster::new(
        2,
        1,
        vec![Rgba { r: 1, g: 2, b: 3, a: 4 }, Rgba { r: 5, g: 6, b: 7, a: 8 }],
    )
    .unwrap();
    assert_eq!(r.to_rgba_bytes(), vec![1, 2, 3, 4, 5, 6, 7, 8]);
}

#[test]
fn from_bytes_checks_the_length() {
    let bytes = vec![1, 2, 3, 4, 5, 6, 7, 8];
    let r = Raster::from_rgba_bytes(1, 2, &bytes).unwrap();
    assert_eq!((r.width, r.height), (1, 2));
    assert_eq!(r.pixels, vec![Rgba { r: 1, g: 2, b: 3, a: 4 }, Rgba { r: 5, g: 6, b: 7, a: 8 }]);
    assert!(Raster::from_rgba_bytes(2, 2, &bytes).is_none());
    assert!(Raster::from_rgba_bytes(1, 1, &bytes).is_none());
    assert!(Raster::from_rgba_bytes(1, 2, &bytes[..7].to_vec()).is_none());
    assert!(Raster::from_rgba_bytes(0, 0, &vec![]).is_some());
}

#[test]
fn bytes_round_trip() {
    let r = numbered(5, 4);
    let back = Raster::from_rgba_bytes(5, 4, &r.to_rgba_bytes()).unwrap();
    assert_eq!(back, r);
}

#[test]
fn mirror_reverses_every_row() {
    let mut even = numbered(4, 2);
    even.mirror();
    assert_eq!(
        even.pixels,
        vec![px(3), px(2), px(1), px(0), px(7), px(6), px(5), px(4)]
    );
    let mut odd = numbered(3, 2);
    odd.mirror();
    assert_eq!(odd.pixels, vec![px(2), px(1), px(0), px(5), px(4), px(3)]);
    assert_eq!((odd.width, odd.height), (3, 2));
}

#[test]
fn mirror_of_narrow_and_empty_rasters() {
    let mut column = numbered(1, 3);
    column.mirror();
    assert_eq!(column, numbered(1, 3));
    let mut empty = numbered(0, 3);
    empty.mirror();
    assert_eq!(empty, numbered(0, 3));
    let mut flat = numbered(3, 0);
    flat.mirror();
    assert_eq!(flat, numbered(3, 0));
}

#[test]
fn mirror_twice_is_the_identity() {
    for (w, h) in [(1, 1), (2, 3), (5, 4), (6, 1), (7, 7)] {
        let mut r = numbered(w, h);
        r.mirror();
        r.mirror();
        assert_eq!(r, numbered(w, h));
    }
}
