use beadwork::color::Color;
use beadwork::error::BeadError;
use beadwork::palette::{hex_digit, is_whitespace, parse_palette_line, read_palette, PaletteEntry};

fn entry(name: &str, r: u8, g: u8, b: u8) -> PaletteEntry {
    PaletteEntry { name: name.to_string(), color: Color { r, g, b } }
}

#[test]
fn a_line_is_a_name_and_a_colour() {
    assert_eq!(parse_palette_line("Red FF0000"), Ok(entry("Red", 255, 0, 0)));
    assert_eq!(parse_palette_line("Blue 0000ff"), Ok(entry("Blue", 0, 0, 255)));
    assert_eq!(parse_palette_line("x 12aBcD"), Ok(entry("x", 0x12, 0xab, 0xcd)));
    assert_eq!(parse_palette_line("Ljósblár 89abCD"), Ok(entry("Ljósblár", 0x89, 0xab, 0xcd)));
}

#[test]
fn white_space_around_a_line_is_dropped() {
    assert_eq!(parse_palette_line("  Red FF0000\r\n"), Ok(entry("Red", 255, 0, 0)));
    assert_eq!(parse_palette_line("\tRed FF0000 \u{3000}"), Ok(entry("Red", 255, 0, 0)));
    assert_eq!(parse_palette_line("\u{a0}Red 010203"), Ok(entry("Red", 1, 2, 3)));
}

#[test]
fn the_name_ends_at_the_first_space() {
    assert_eq!(parse_palette_line("Dark Red 800000"), Err(BeadError::PaletteParseError));
    assert_eq!(parse_palette_line("Dark\tRed 800000"), Ok(entry("Dark\tRed", 128, 0, 0)));
    assert_eq!(parse_palette_line("Red  800000"), Err(BeadError::PaletteParseError));
}

#[test]
fn malformed_lines_are_refused() {
    for line in [
        "",
        "   ",
        "Red",
        "Red ",
        "FF0000",
        "Red FF000",
        "Red FF00000",
        "Red GG0000",
        "Red 0xFF00",
        "Red +F0000",
        "Red FF0000 x",
        "Red\tFF0000",
        "Red ff00０0",
    ] {
        assert_eq!(parse_palette_line(line), Err(BeadError::PaletteParseError), "{:?}", line);
    }
}

#[test]
fn digits_and_spaces() {
    assert_eq!(hex_digit('0'), Some(0));
    assert_eq!(hex_digit('9'), Some(9));
    assert_eq!(hex_digit('a'), Some(10));
    assert_eq!(hex_digit('f'), Some(15));
    assert_eq!(hex_digit('A'), Some(10));
    assert_eq!(hex_digit('F'), Some(15));
    for c in ['g', 'G', '/', ':', '@', '`', ' ', 'é'] {
        assert_eq!(hex_digit(c), None);
    }
    for c in 0..0x3100u32 {
        if let Some(c) = char::from_u32(c) {
            assert_eq!(is_whitespace(c), c.is_whitespace(), "{:?}", c);
            assert_eq!(hex_digit(c), c.to_digit(16), "{:?}", c);
        }
    }
}

#[test]
fn a_palette_keeps_the_order_of_its_lines() {
    let lines = vec!["Red FF0000".to_string(), " Blue 0000FF".to_string(), "Red 800000 ".to_string()];
    assert_eq!(
        read_palette(&lines),
        Ok(vec![entry("Red", 255, 0, 0), entry("Blue", 0, 0, 255), entry("Red", 128, 0, 0)])
    );
    assert_eq!(read_palette(&vec![]), Ok(vec![]));
}

#[test]
fn one_bad_line_fails_the_palette() {
    let lines = vec!["Red FF0000".to_string(), String::new(), "Blue 0000FF".to_string()];
    assert_eq!(read_palette(&lines), Err(BeadError::PaletteParseError));
    let lines = vec!["Red FF0000".to_string(), "Blue 0000FG".to_string()];
    assert_eq!(read_palette(&lines), Err(BeadError::PaletteParseError));
}
