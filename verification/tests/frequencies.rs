use beadwork::color::Color;
use beadwork::frequency::{name_less, tabulate, FrequencyEntry, FrequencyTable};
use beadwork::palette::PaletteEntry;

fn line(name: &str, count: u64) -> FrequencyEntry {
    FrequencyEntry { name: name.to_string(), count }
}

fn entry(name: &str) -> PaletteEntry {
    PaletteEntry { name: name.to_string(), color: Color { r: 0, g: 0, b: 0 } }
}

#[test]
fn names_are_ordered_by_character() {
    assert!(name_less("Blue", "Red"));
    assert!(!name_less("Red", "Blue"));
    assert!(!name_less("Red", "Red"));
    assert!(name_less("Re", "Red"));
    assert!(!name_less("Red", "Re"));
    assert!(name_less("", "a"));
    assert!(!name_less("", ""));
    assert!(name_less("Z", "a"));
    assert!(name_less("a", "é"));
    assert!(name_less("é", "日"));
}

#[test]
fn name_order_agrees_with_the_order_of_strings() {
    let names = ["", "a", "ab", "b", "B", "é", "e", "zz", "日本", "Red", "Re", "red"];
    for a in names {
        for b in names {
            assert_eq!(name_less(a, b), a < b, "{:?} {:?}", a, b);
        }
    }
}

#[test]
fn add_keeps_the_lines_in_order() {
    let mut table = FrequencyTable::new();
    assert!(table.entries.is_empty());
    table.add("Red", 2);
    table.add("Blue", 1);
    table.add("White", 5);
    table.add("Green", 3);
    assert_eq!(
        table.entries,
        vec![line("Blue", 1), line("Green", 3), line("Red", 2), line("White", 5)]
    );
    table.add("Green", 4);
    table.add("Blue", 1);
    table.add("White", 1);
    assert_eq!(
        table.entries,
        vec![line("Blue", 2), line("Green", 7), line("Red", 2), line("White", 6)]
    );
    assert_eq!(table.total(), 17);
}

#[test]
fn get_finds_a_count_or_zero() {
    let mut table = FrequencyTable::new();
    assert_eq!(table.get("Red"), 0);
    table.add("Red", 2);
    table.add("Blue", 9);
    assert_eq!(table.get("Red"), 2);
    assert_eq!(table.get("Blue"), 9);
    assert_eq!(table.get("Green"), 0);
    assert_eq!(table.get("Re"), 0);
    assert_eq!(table.get("Reds"), 0);
}

#[test]
fn tabulate_drops_untaken_entries_and_merges_names() {
    let palette = vec![entry("b"), entry("a"), entry("c"), entry("a"), entry("d")];
    let table = tabulate(&palette, &vec![4, 1, 0, 2, 0]);
    assert_eq!(table.entries, vec![line("a", 3), line("b", 4)]);
    assert_eq!(table.total(), 7);
    let none = tabulate(&vec![], &vec![]);
    assert!(none.entries.is_empty());
}
