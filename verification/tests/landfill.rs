use items_cleaner::entry::Entry;
use items_cleaner::landfill::{is_in_landfill, LANDFILL_POSITION};

const PIKE_IN_LANDFILL: [u8; 55] = [
    0xFF, 0x76, 0xFA, 0x7A, 0x09, 0x04, 0xFA, 0xD4, 0x29, 0xC4, 0xB8, 0x4F, 0x92, 0x40, 0xEF, 0xD2,
    0x35, 0xC4, 0xA1, 0x1F, 0x6B, 0x3D, 0x9C, 0x62, 0xEF, 0x3E, 0xBB, 0xF8, 0x80, 0x3D, 0xE0, 0x3D,
    0x61, 0xBF, 0x00, 0x00, 0x80, 0x3F, 0x01, 0x00, 0x80, 0x3F, 0x01, 0x00, 0x80, 0x3F, 0x08, 0x55,
    0x6E, 0x74, 0x61, 0x67, 0x67, 0x65, 0x64,
];

fn with_payload(data: Vec<u8>) -> Entry {
    Entry { tag: b"pikex36Transform".to_vec(), data }
}

#[test]
fn landfill_position_is_three_floats() {
    assert_eq!(
        LANDFILL_POSITION,
        [0xFA, 0xD4, 0x29, 0xC4, 0xB8, 0x4F, 0x92, 0x40, 0xEF, 0xD2, 0x35, 0xC4]
    );
    let x = f32::from_le_bytes([0xFA, 0xD4, 0x29, 0xC4]);
    let y = f32::from_le_bytes([0xB8, 0x4F, 0x92, 0x40]);
    let z = f32::from_le_bytes([0xEF, 0xD2, 0x35, 0xC4]);
    assert!((x - -679.327_76).abs() < 0.001);
    assert!((y - 4.572_231_3).abs() < 0.001);
    assert!((z - -727.295_84).abs() < 0.001);
}

#[test]
fn item_at_landfill_position_is_in_landfill() {
    assert!(is_in_landfill(&with_payload(PIKE_IN_LANDFILL.to_vec())));
}

#[test]
fn shortest_payload_with_position_is_in_landfill() {
    let data = PIKE_IN_LANDFILL[..18].to_vec();
    assert_eq!(data.len(), 18);
    assert!(is_in_landfill(&with_payload(data)));
}

#[test]
fn payload_of_seventeen_bytes_is_never_in_landfill() {
    assert!(!is_in_landfill(&with_payload(PIKE_IN_LANDFILL[..17].to_vec())));
    assert!(!is_in_landfill(&with_payload(vec![0; 17])));
    assert!(!is_in_landfill(&with_payload(Vec::new())));
}

#[test]
fn every_byte_of_the_position_counts() {
    for at in 6..18 {
        let mut data = PIKE_IN_LANDFILL.to_vec();
        data[at] ^= 1;
        assert!(!is_in_landfill(&with_payload(data)), "byte {}", at);
    }
}

#[test]
fn bytes_outside_the_position_do_not_count() {
    for at in (0..6).chain(18..55) {
        let mut data = PIKE_IN_LANDFILL.to_vec();
        data[at] ^= 0xFF;
        assert!(is_in_landfill(&with_payload(data)), "byte {}", at);
    }
}

#[test]
fn tag_does_not_count() {
    let e = Entry { tag: Vec::new(), data: PIKE_IN_LANDFILL.to_vec() };
    assert!(is_in_landfill(&e));
}
