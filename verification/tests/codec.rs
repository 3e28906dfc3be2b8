use items_cleaner::codec::{encode_entries, generate_entries, get_string, FormatError};
use items_cleaner::entry::{all_well_formed, Entry};
use items_cleaner::{get_u32_le, mk_u32_le};

fn entry(tag: &str, data: &[u8]) -> Entry {
    Entry { tag: tag.as_bytes().to_vec(), data: data.to_vec() }
}

fn sample_store() -> Vec<u8> {
    let mut buf = Vec::new();
    // "ab" with the payload 01 02 03
    buf.extend_from_slice(&[0x7E, 2, b'a', b'b', 4, 0, 0, 0, 1, 2, 3, 0x7B]);
    // an empty tag with an empty payload
    buf.extend_from_slice(&[0x7E, 0, 1, 0, 0, 0, 0x7B]);
    // "pikex3Transform" with a payload that holds the header and footer bytes
    buf.extend_from_slice(&[0x7E, 15]);
    buf.extend_from_slice(b"pikex3Transform");
    buf.extend_from_slice(&[3, 0, 0, 0, 0x7E, 0x7B, 0x7B]);
    buf
}

#[test]
fn reads_little_endian_field() {
    let buf = vec![0xAA, 0x78, 0x56, 0x34, 0x12, 0xBB];
    let mut idx = 1;
    assert_eq!(get_u32_le(&buf, &mut idx), 0x1234_5678);
    assert_eq!(idx, 5);
}

#[test]
fn reads_largest_little_endian_field() {
    let buf = vec![0xFF, 0xFF, 0xFF, 0xFF];
    let mut idx = 0;
    assert_eq!(get_u32_le(&buf, &mut idx), u32::MAX);
    assert_eq!(idx, 4);
}

#[test]
fn writes_little_endian_field() {
    assert_eq!(mk_u32_le(&0x1234_5678), vec![0x78, 0x56, 0x34, 0x12]);
    assert_eq!(mk_u32_le(&0), vec![0, 0, 0, 0]);
    assert_eq!(mk_u32_le(&54), vec![0x36, 0, 0, 0]);
}

#[test]
fn little_endian_field_keeps_low_bits() {
    let n: usize = usize::MAX;
    assert_eq!(mk_u32_le(&n), vec![0xFF, 0xFF, 0xFF, 0xFF]);
    let m: usize = 0x1_0000;
    assert_eq!(mk_u32_le(&m), vec![0, 0, 1, 0]);
}

#[test]
fn little_endian_field_reads_back() {
    for n in [0usize, 1, 255, 256, 65_535, 65_536, 0x00FF_FFFF, 0x0100_0000, 0xFFFF_FFFF] {
        let bytes = mk_u32_le(&n);
        let mut idx = 0;
        assert_eq!(get_u32_le(&bytes, &mut idx) as usize, n);
    }
}

#[test]
fn reads_text_and_moves_on() {
    let buf = b"xxpikexyy".to_vec();
    let mut idx = 2;
    assert_eq!(get_string(&buf, &mut idx, 5), b"pikex".to_vec());
    assert_eq!(idx, 7);
    assert_eq!(get_string(&buf, &mut idx, 0), Vec::<u8>::new());
    assert_eq!(idx, 7);
}

#[test]
fn text_is_one_byte_per_character() {
    let buf = vec![0x80, 0xFF, 0x41];
    let mut idx = 0;
    assert_eq!(get_string(&buf, &mut idx, 3), vec![0x80, 0xFF, 0x41]);
}

#[test]
fn decodes_records_in_order() {
    let entries = generate_entries(sample_store()).unwrap();
    assert_eq!(
        entries,
        vec![
            entry("ab", &[1, 2, 3]),
            entry("", &[]),
            entry("pikex3Transform", &[0x7E, 0x7B]),
        ]
    );
}

#[test]
fn decodes_empty_buffer_to_no_records() {
    assert_eq!(generate_entries(Vec::new()), Ok(Vec::new()));
}

#[test]
fn encodes_records_in_order() {
    let entries = vec![
        entry("ab", &[1, 2, 3]),
        entry("", &[]),
        entry("pikex3Transform", &[0x7E, 0x7B]),
    ];
    assert_eq!(encode_entries(&entries), sample_store());
}

#[test]
fn encodes_no_records_to_empty_buffer() {
    assert_eq!(encode_entries(&Vec::new()), Vec::<u8>::new());
}

#[test]
fn encoding_decoded_store_gives_store_back() {
    let buf = sample_store();
    let entries = generate_entries(buf.clone()).unwrap();
    assert_eq!(encode_entries(&entries), buf);
}

#[test]
fn decoding_encoded_records_gives_records_back() {
    let entries = vec![
        entry("SausagesxID", &[0xFF, 0x56, 0x08, 0xA8, 0xE2, 0x36, 0, 0, 0]),
        entry("sausagesx11Transform", &[0; 55]),
        Entry { tag: vec![0x80, 0xFF], data: vec![0x7B] },
    ];
    assert_eq!(generate_entries(encode_entries(&entries)), Ok(entries));
}

#[test]
fn round_trip_keeps_longest_tag() {
    let e = Entry { tag: vec![b'a'; 255], data: vec![9; 300] };
    assert!(e.is_well_formed());
    let buf = encode_entries(&vec![e.clone()]);
    assert_eq!(buf.len(), 2 + 255 + 4 + 300 + 1);
    assert_eq!(buf[1], 255);
    assert_eq!(&buf[257..261], &[45, 1, 0, 0]);
    assert_eq!(generate_entries(buf), Ok(vec![e]));
}

#[test]
fn rejects_wrong_header() {
    assert_eq!(
        generate_entries(vec![0x7F, 0, 1, 0, 0, 0, 0x7B]),
        Err(FormatError::InvalidHeader { position: 0 })
    );
}

#[test]
fn rejects_wrong_header_of_later_record() {
    let mut buf = sample_store();
    let at = buf.len();
    buf.extend_from_slice(&[0x00, 0, 1, 0, 0, 0, 0x7B]);
    assert_eq!(generate_entries(buf), Err(FormatError::InvalidHeader { position: at }));
}

#[test]
fn rejects_wrong_footer() {
    assert_eq!(
        generate_entries(vec![0x7E, 1, b'a', 2, 0, 0, 0, 5, 0x7C]),
        Err(FormatError::InvalidFooter { position: 8 })
    );
}

#[test]
fn rejects_stored_length_of_zero() {
    assert_eq!(
        generate_entries(vec![0x7E, 1, b'a', 0, 0, 0, 0, 0x7B]),
        Err(FormatError::InvalidFooter { position: 6 })
    );
    assert_eq!(
        generate_entries(vec![0x7E, 0, 0, 0, 0, 0]),
        Err(FormatError::InvalidFooter { position: 5 })
    );
}

#[test]
fn rejects_buffer_that_ends_after_header() {
    assert_eq!(generate_entries(vec![0x7E]), Err(FormatError::UnexpectedEnd { position: 0 }));
}

#[test]
fn rejects_buffer_that_ends_in_tag() {
    assert_eq!(
        generate_entries(vec![0x7E, 5, b'a', b'b']),
        Err(FormatError::UnexpectedEnd { position: 0 })
    );
}

#[test]
fn rejects_buffer_that_ends_in_length() {
    assert_eq!(
        generate_entries(vec![0x7E, 1, b'a', 2, 0, 0]),
        Err(FormatError::UnexpectedEnd { position: 0 })
    );
}

#[test]
fn rejects_buffer_that_ends_in_payload() {
    assert_eq!(
        generate_entries(vec![0x7E, 1, b'a', 3, 0, 0, 0, 1, 2]),
        Err(FormatError::UnexpectedEnd { position: 0 })
    );
    assert_eq!(
        generate_entries(vec![0x7E, 1, b'a', 0xFF, 0xFF, 0xFF, 0xFF, 1, 2, 0x7B]),
        Err(FormatError::UnexpectedEnd { position: 0 })
    );
}

#[test]
fn rejects_second_record_that_is_cut_short() {
    let mut buf = sample_store();
    let at = buf.len();
    buf.extend_from_slice(&[0x7E, 3, b'a']);
    assert_eq!(generate_entries(buf), Err(FormatError::UnexpectedEnd { position: at }));
}

#[test]
fn first_error_wins() {
    // the first record has a wrong footer, the second a wrong header
    let buf = vec![0x7E, 0, 1, 0, 0, 0, 0x00, 0x11, 0, 1, 0, 0, 0, 0x7B];
    assert_eq!(generate_entries(buf), Err(FormatError::InvalidFooter { position: 6 }));
}

#[test]
fn well_formed_records_have_short_tags() {
    assert!(entry("pikex", &[1]).is_well_formed());
    assert!(Entry { tag: vec![b'a'; 255], data: Vec::new() }.is_well_formed());
    assert!(!Entry { tag: vec![b'a'; 256], data: Vec::new() }.is_well_formed());
    assert!(all_well_formed(&vec![entry("a", &[]), entry("b", &[1, 2])]));
    assert!(!all_well_formed(&vec![
        entry("a", &[]),
        Entry { tag: vec![b'a'; 300], data: Vec::new() }
    ]));
    assert!(all_well_formed(&Vec::new()));
}
