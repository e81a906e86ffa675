//! The palette: named colours in order of priority, and the text they are read from.
//!
//! A palette is written one entry to a line: a name, one space, and the colour as six
//! hexadecimal digits, `RRGGBB`. White space around a line is ignored. The name ends at
//! the first space of the line, so it holds none.

use vstd::prelude::*;
use vstd::string::StrSliceExecFns;
use crate::color::{make_rgb, unpacked, Color};
use crate::error::BeadError;

verus! {

/// One named colour of a palette. Where two entries are equally near to a cell, the one
/// that comes first in the palette is taken.
#[derive(Clone, Debug, PartialEq, Eq)]
pub struct PaletteEntry {
    pub name: String,
    pub color: Color,
}

/// The characters that Unicode calls white space.
pub open spec fn is_space(c: char) -> bool {
    let u = c as u32;
    ||| 0x09 <= u <= 0x0d
    ||| u == 0x20
    ||| u == 0x85
    ||| u == 0xa0
    ||| u == 0x1680
    ||| 0x2000 <= u <= 0x200a
    ||| u == 0x2028
    ||| u == 0x2029
    ||| u == 0x202f
    ||| u == 0x205f
    ||| u == 0x3000
}

/// The value of a hexadecimal digit of either case; `None` for any other character.
pub open spec fn digit_of(c: char) -> Option<int> {
    let u = c as u32;
    if 0x30 <= u <= 0x39 {
        Some(u - 0x30)
    } else if 0x61 <= u <= 0x66 {
        Some(u - 0x61 + 10)
    } else if 0x41 <= u <= 0x46 {
        Some(u - 0x41 + 10)
    } else {
        None
    }
}

/// The first position at or after `i` that holds no white space; the length of `s`
/// where there is none.
pub open spec fn skip_spaces(s: Seq<char>, i: int) -> int
    decreases s.len() - i,
{
    if 0 <= i < s.len() && is_space(s[i]) {
        skip_spaces(s, i + 1)
    } else {
        i
    }
}

/// The end of the text that is left when the white space before position `end` is cut
/// off, going back no further than `start`.
pub open spec fn cut_spaces(s: Seq<char>, start: int, end: int) -> int
    decreases end - start,
{
    if start < end <= s.len() && is_space(s[end - 1]) {
        cut_spaces(s, start, end - 1)
    } else {
        end
    }
}

/// A line without the white space at its two ends.
pub open spec fn trimmed(line: Seq<char>) -> Seq<char> {
    let start = skip_spaces(line, 0);
    line.subrange(start, cut_spaces(line, start, line.len() as int))
}

/// The first position at or after `i` that holds a space; the length of `s` where
/// there is none.
pub open spec fn find_space(s: Seq<char>, i: int) -> int
    decreases s.len() - i,
{
    if 0 <= i < s.len() && s[i] != ' ' {
        find_space(s, i + 1)
    } else {
        i
    }
}

/// Whether `hex` is six hexadecimal digits.
pub open spec fn is_hex_color(hex: Seq<char>) -> bool {
    hex.len() == 6 && forall|i: int| 0 <= i < 6 ==> (#[trigger] digit_of(hex[i])) is Some
}

/// The number that six hexadecimal digits spell.
pub open spec fn hex_number(hex: Seq<char>) -> int {
    ((((digit_of(hex[0])->0 * 16 + digit_of(hex[1])->0) * 16 + digit_of(hex[2])->0) * 16
        + digit_of(hex[3])->0) * 16 + digit_of(hex[4])->0) * 16 + digit_of(hex[5])->0
}

/// What a palette line says: the name, and the colour that the digits spell. `None`
/// for a line that, white space at its ends aside, is not a name, a space and six
/// hexadecimal digits.
pub open spec fn parsed_line(line: Seq<char>) -> Option<(Seq<char>, Color)> {
    let text = trimmed(line);
    let space = find_space(text, 0);
    let hex = text.subrange(space + 1, text.len() as int);
    if space < text.len() && is_hex_color(hex) {
        Some((text.subrange(0, space), unpacked(hex_number(hex) as u32)))
    } else {
        None
    }
}

/// Tells whether `c` is white space.
pub fn is_whitespace(c: char) -> (space: bool)
    ensures
        space == is_space(c),
{
    let u: u32 = c as u32;
    (0x09 <= u && u <= 0x0d) || u == 0x20 || u == 0x85 || u == 0xa0 || u == 0x1680 || (0x2000 <= u
        && u <= 0x200a) || u == 0x2028 || u == 0x2029 || u == 0x202f || u == 0x205f || u == 0x3000
}

/// The value of the hexadecimal digit `c`.
pub fn hex_digit(c: char) -> (value: Option<u32>)
    ensures
        value is Some <==> digit_of(c) is Some,
        value matches Some(d) ==> d < 16 && digit_of(c) == Some(d as int),
{
    let u: u32 = c as u32;
    if 0x30 <= u && u <= 0x39 {
        Some(u - 0x30)
    } else if 0x61 <= u && u <= 0x66 {
        Some(u - 0x61 + 10)
    } else if 0x41 <= u && u <= 0x46 {
        Some(u - 0x41 + 10)
    } else {
        None
    }
}

/// Reads one palette line: a name, a space and six hexadecimal digits, with white space
/// allowed at both ends. Any other line fails with `PaletteParseError`.
pub fn parse_palette_line(line: &str) -> (out: Result<PaletteEntry, BeadError>)
    ensures
        match parsed_line(line@) {
            Some((name, color)) => out matches Ok(entry) && entry.name@ == name && entry.color
                == color,
            None => out == Err::<PaletteEntry, BeadError>(BeadError::PaletteParseError),
        },
{
    let n: usize = line.unicode_len();
    let mut start: usize = 0;
    while start < n && is_whitespace(line.get_char(start))
        invariant
            start <= n,
            n == line@.len(),
            skip_spaces(line@, 0) == skip_spaces(line@, start as int),
        decreases n - start,
    {
        start += 1;
    }
    let mut end: usize = n;
    while end > start && is_whitespace(line.get_char(end - 1))
        invariant
            start <= end <= n,
            n == line@.len(),
            cut_spaces(line@, start as int, n as int) == cut_spaces(line@, start as int, end as int),
        decreases end,
    {
        end -= 1;
    }
    let ghost text = line@.subrange(start as int, end as int);
    assert(text == trimmed(line@));
    let mut space: usize = start;
    while space < end && line.get_char(space) != ' '
        invariant
            start <= space <= end <= n,
            n == line@.len(),
            text == line@.subrange(start as int, end as int),
            find_space(text, 0) == find_space(text, space - start),
        decreases end - space,
    {
        assert(text[space - start] == line@[space as int]);
        space += 1;
    }
    proof {
        if space < end {
            assert(text[space - start] == line@[space as int]);
        }
        assert(find_space(text, 0) == space - start);
    }
    let ghost hex = text.subrange(space - start + 1, text.len() as int);
    if space >= end || end - space != 7 {
        return Err(BeadError::PaletteParseError);
    }
    assert(hex.len() == 6);
    let mut digits: Vec<u32> = Vec::new();
    let mut i: usize = 0;
    while i < 6
        invariant
            i <= 6,
            space + 7 == end <= n,
            n == line@.len(),
            start <= space,
            text == line@.subrange(start as int, end as int),
            text == trimmed(line@),
            find_space(text, 0) == space - start,
            hex == text.subrange(space - start + 1, text.len() as int),
            hex.len() == 6,
            digits@.len() == i,
            forall|j: int|
                0 <= j < i ==> (#[trigger] digits@[j]) < 16 && digit_of(hex[j]) == Some(
                    digits@[j] as int,
                ),
        decreases 6 - i,
    {
        let c = line.get_char(space + 1 + i);
        assert(hex[i as int] == c);
        match hex_digit(c) {
            Some(d) => {
                digits.push(d);
            },
            None => {
                assert(!is_hex_color(hex));
                return Err(BeadError::PaletteParseError);
            },
        }
        i += 1;
    }
    assert(is_hex_color(hex)) by {
        assert forall|j: int| 0 <= j < 6 implies (#[trigger] digit_of(hex[j])) is Some by {
            assert(digits@[j] < 16);
        }
    }
    assert(digits@[0] < 16 && digits@[1] < 16 && digits@[2] < 16 && digits@[3] < 16 && digits@[4]
        < 16 && digits@[5] < 16);
    let packed: u32 = ((((digits[0] * 16 + digits[1]) * 16 + digits[2]) * 16 + digits[3]) * 16
        + digits[4]) * 16 + digits[5];
    assert(packed == hex_number(hex));
    let color = make_rgb(packed);
    let name = line.substring_char(start, space).to_owned();
    assert(name@ =~= text.subrange(0, space - start));
    Ok(PaletteEntry { name, color })
}

/// Reads a palette, one entry from every line, in the order of the lines. Fails with
/// `PaletteParseError` exactly when some line is not an entry.
pub fn read_palette(lines: &Vec<String>) -> (out: Result<Vec<PaletteEntry>, BeadError>)
    ensures
        out is Ok <==> forall|i: int| 0 <= i < lines@.len() ==> (#[trigger] parsed_line(lines@[i]@)) is Some,
        out matches Err(e) ==> e == BeadError::PaletteParseError,
        out matches Ok(palette) ==> palette@.len() == lines@.len() && forall|i: int|
            0 <= i < lines@.len() ==> parsed_line(lines@[i]@) == Some(
                ((#[trigger] palette@[i]).name@, palette@[i].color),
            ),
{
    let mut palette: Vec<PaletteEntry> = Vec::new();
    let mut i: usize = 0;
    while i < lines.len()
        invariant
            i <= lines@.len(),
            palette@.len() == i,
            forall|j: int| 0 <= j < i ==> (#[trigger] parsed_line(lines@[j]@)) is Some,
            forall|j: int|
                0 <= j < i ==> parsed_line(lines@[j]@) == Some(
                    ((#[trigger] palette@[j]).name@, palette@[j].color),
                ),
        decreases lines@.len() - i,
    {
        match parse_palette_line(lines[i].as_str()) {
            Ok(entry) => {
                palette.push(entry);
            },
            Err(e) => {
                assert(parsed_line(lines@[i as int]@) is None);
                return Err(e);
            },
        }
        i += 1;
    }
    Ok(palette)
}

} // verus!
