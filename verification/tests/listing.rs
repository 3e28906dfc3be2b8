use items_cleaner::entry::Entry;
use items_cleaner::listing::get_formatted_entries;

fn entry(tag: &str, data: &[u8]) -> Entry {
    Entry { tag: tag.as_bytes().to_vec(), data: data.to_vec() }
}

fn lines(entries: &Vec<Entry>) -> Vec<String> {
    get_formatted_entries(entries).into_iter().map(|l| String::from_utf8(l).unwrap()).collect()
}

#[test]
fn counter_records_are_listed_with_their_number() {
    let entries = vec![
        entry("BeerCaseID", &[0xFF, 0x56, 0x08, 0xA8, 0xE2, 0x0A, 0, 0, 0]),
        entry("SausagesxID", &[0xFF, 0x56, 0x08, 0xA8, 0xE2, 0x36, 0, 0, 0]),
        entry("pikexID", &[0, 0, 0, 0, 0, 0xFF, 0xFF, 0xFF, 0xFF, 9, 9]),
        entry("sugarID", &[0, 0, 0, 0, 0, 0, 0, 0, 0]),
    ];
    assert_eq!(
        lines(&entries),
        vec!["BeerCaseID (10)", "SausagesxID (54)", "pikexID (4294967295)", "sugarID (0)"]
    );
}

#[test]
fn other_records_are_listed_by_tag() {
    let entries = vec![
        entry("pikex36Transform", &[1, 2, 3, 4, 5, 6, 7, 8, 9, 10]),
        entry("", &[]),
        entry("Spraycan01ID", &[0, 0, 0, 0, 0, 3, 0, 0, 0]),
        entry("pikexid", &[0, 0, 0, 0, 0, 3, 0, 0, 0]),
    ];
    assert_eq!(lines(&entries), vec!["pikex36Transform", "", "Spraycan01ID", "pikexid"]);
}

#[test]
fn counter_record_without_a_number_is_listed_by_tag() {
    let entries = vec![entry("yeastID", &[0, 0, 0, 0, 0, 3, 0, 0])];
    assert_eq!(lines(&entries), vec!["yeastID"]);
}

#[test]
fn listing_has_one_line_for_each_record() {
    assert!(get_formatted_entries(&Vec::new()).is_empty());
    let entries = vec![entry("a", &[]), entry("b", &[]), entry("a", &[])];
    assert_eq!(lines(&entries), vec!["a", "b", "a"]);
}
