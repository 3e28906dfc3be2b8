use items_cleaner::codec::{encode_entries, generate_entries, FormatError};
use items_cleaner::engine::clean_entries;
use items_cleaner::entry::Entry;
use items_cleaner::repair::{repair_store, RepairError};

const AT_LANDFILL: [u8; 20] = [
    0xFF, 0x76, 0xFA, 0x7A, 0x09, 0x04, 0xFA, 0xD4, 0x29, 0xC4, 0xB8, 0x4F, 0x92, 0x40, 0xEF, 0xD2,
    0x35, 0xC4, 0xA1, 0x1F,
];

fn entry(tag: &[u8], data: &[u8]) -> Entry {
    Entry { tag: tag.to_vec(), data: data.to_vec() }
}

fn sample() -> Vec<Entry> {
    vec![
        entry(b"pikexID", &[0xFF, 0x56, 0x08, 0xA8, 0xE2, 0x24, 0, 0, 0]),
        entry(b"pikex36Transform", &[1; 20]),
        entry(b"pikex36Condition", &[2; 4]),
        entry(b"pikex12Transform", &AT_LANDFILL),
        entry(b"pikex12Condition", &[3; 4]),
        entry(b"pikex3Transform", &[4; 20]),
        entry(b"pikex3Condition", &[5; 4]),
    ]
}

#[test]
fn store_is_repaired_from_bytes_to_bytes() {
    let repaired = repair_store(encode_entries(&sample())).unwrap();
    let expected = vec![
        entry(b"pikexID", &[0xFF, 0x56, 0x08, 0xA8, 0xE2, 2, 0, 0, 0]),
        entry(b"pikex2Transform", &[1; 20]),
        entry(b"pikex2Condition", &[2; 4]),
        entry(b"pikex1Transform", &[4; 20]),
        entry(b"pikex1Condition", &[5; 4]),
    ];
    assert_eq!(repaired, encode_entries(&expected));
    assert_eq!(generate_entries(repaired), Ok(expected));
}

#[test]
fn repaired_store_decodes_to_repaired_records() {
    let repaired = repair_store(encode_entries(&sample())).unwrap();
    assert_eq!(generate_entries(repaired), Ok(clean_entries(sample())));
}

#[test]
fn empty_store_is_repaired_to_empty_store() {
    assert_eq!(repair_store(Vec::new()), Ok(Vec::new()));
}

#[test]
fn store_that_needs_no_repair_stays_as_it_is() {
    let entries = vec![
        entry(b"yeastID", &[0xFF, 0x56, 0x08, 0xA8, 0xE2, 2, 0, 0, 0]),
        entry(b"yeast2Transform", &[1; 20]),
        entry(b"yeast1Transform", &[2; 20]),
        entry(b"player", &[3; 7]),
    ];
    let buf = encode_entries(&entries);
    assert_eq!(repair_store(buf.clone()), Ok(buf));
}

#[test]
fn malformed_store_is_not_repaired() {
    let mut buf = encode_entries(&sample());
    let cut = buf.len() - 3;
    buf.truncate(cut);
    let last = encode_entries(&sample()[..6].to_vec()).len();
    assert_eq!(
        repair_store(buf),
        Err(RepairError::Format(FormatError::UnexpectedEnd { position: last }))
    );
    assert_eq!(
        repair_store(vec![0x00]),
        Err(RepairError::Format(FormatError::InvalidHeader { position: 0 }))
    );
    assert_eq!(
        repair_store(vec![0x7E, 0, 1, 0, 0, 0, 0x7A]),
        Err(RepairError::Format(FormatError::InvalidFooter { position: 6 }))
    );
}

#[test]
fn tag_that_grows_too_long_stops_the_repair() {
    // ten items of yeast: the first takes the number 10, one digit more than it had
    let mut long_tag = b"yeast7".to_vec();
    long_tag.extend(std::iter::repeat(b'a').take(255 - 6 - 9));
    long_tag.extend_from_slice(b"Transform");
    assert_eq!(long_tag.len(), 255);
    let mut entries = vec![entry(&long_tag, &[0; 20])];
    for n in 0..9 {
        entries.push(entry(format!("yeast{}Transform", n + 10).as_bytes(), &[0; 20]));
    }
    let buf = encode_entries(&entries);
    assert_eq!(repair_store(buf), Err(RepairError::TagTooLong));
    let cleaned = clean_entries(entries);
    assert_eq!(cleaned[0].tag.len(), 256);
    assert!(cleaned[0].tag.starts_with(b"yeast10a"));
    assert!(!cleaned[0].is_well_formed());
}

#[test]
fn tag_of_full_length_that_does_not_grow_is_repaired() {
    let mut long_tag = b"yeast7".to_vec();
    long_tag.extend(std::iter::repeat(b'a').take(255 - 6 - 9));
    long_tag.extend_from_slice(b"Transform");
    let entries = vec![entry(&long_tag, &[0; 20])];
    let repaired = repair_store(encode_entries(&entries)).unwrap();
    let mut renamed = long_tag.clone();
    renamed[5] = b'1';
    assert_eq!(generate_entries(repaired), Ok(vec![entry(&renamed, &[0; 20])]));
}
