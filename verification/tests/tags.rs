use items_cleaner::entry::Entry;
use items_cleaner::tag::{get_item_id, tag_set_new_count};
use items_cleaner::text::{
    any_prefix_of, bytes_eq, decimal_text, ends_with, list_contains, replace_all, starts_with,
};

fn id(tag: &str) -> Vec<u8> {
    get_item_id(&tag.as_bytes().to_vec())
}

fn renumber(tag: &str, n: usize) -> Vec<u8> {
    let mut e = Entry { tag: tag.as_bytes().to_vec(), data: vec![1, 2, 3] };
    tag_set_new_count(&mut e, n);
    assert_eq!(e.data, vec![1, 2, 3]);
    e.tag
}

#[test]
fn identity_ends_with_first_digits() {
    assert_eq!(id("sausagesx11Transform"), b"sausagesx11".to_vec());
    assert_eq!(id("pikex36Transform"), b"pikex36".to_vec());
    assert_eq!(id("pikex3Condition"), b"pikex3".to_vec());
    assert_eq!(id("a1b2c3"), b"a1".to_vec());
}

#[test]
fn identity_of_spraycan_ends_after_second_digit() {
    assert_eq!(id("spraycan0145Transform"), b"spraycan01".to_vec());
    assert_eq!(id("spraycan013Transform"), b"spraycan01".to_vec());
    assert_eq!(id("spraycan0145"), b"spraycan01".to_vec());
}

#[test]
fn identity_of_spraycan_with_few_digits_ends_with_them() {
    assert_eq!(id("spraycan01Transform"), b"spraycan01".to_vec());
    assert_eq!(id("spraycan7Transform"), b"spraycan7".to_vec());
    assert_eq!(id("spraycan12"), b"spraycan12".to_vec());
    assert_eq!(id("spraycanTransform"), b"spraycanTransform".to_vec());
}

#[test]
fn only_a_leading_spraycan_cuts_the_digits() {
    assert_eq!(id("xspraycan0145Transform"), b"xspraycan0145".to_vec());
    assert_eq!(id("Spraycan0145ID"), b"Spraycan0145".to_vec());
    assert_eq!(id("spraycanx0145Transform"), b"spraycanx01".to_vec());
}

#[test]
fn identity_without_digits_is_whole_tag() {
    assert_eq!(id("milkxTransform"), b"milkxTransform".to_vec());
    assert_eq!(id(""), Vec::<u8>::new());
}

#[test]
fn identity_with_digits_to_the_end_is_whole_tag() {
    assert_eq!(id("sausagesx0"), b"sausagesx0".to_vec());
    assert_eq!(id("beercase0"), b"beercase0".to_vec());
    assert_eq!(id("42"), b"42".to_vec());
}

#[test]
fn identity_of_tag_that_begins_with_digits() {
    assert_eq!(id("12abc34"), b"12".to_vec());
    assert_eq!(id("r20 battery3"), b"r20".to_vec());
}

#[test]
fn digits_are_ascii_zero_to_nine_only() {
    // '/' comes before '0' and ':' after '9'
    assert_eq!(id("a/:b"), b"a/:b".to_vec());
    assert_eq!(id("a/0:b"), b"a/0".to_vec());
}

#[test]
fn number_replaces_first_digits() {
    assert_eq!(renumber("sausagesx11Transform", 7), b"sausagesx7Transform".to_vec());
    assert_eq!(renumber("pikex3Condition", 12), b"pikex12Condition".to_vec());
    assert_eq!(renumber("a1b2c3", 45), b"a45b2c3".to_vec());
    assert_eq!(renumber("yeast007Consumed", 0), b"yeast0Consumed".to_vec());
}

#[test]
fn number_leaves_tag_without_digits() {
    assert_eq!(renumber("milkxTransform", 7), b"milkxTransform".to_vec());
    assert_eq!(renumber("", 7), Vec::<u8>::new());
}

#[test]
fn number_replaces_digits_at_either_end() {
    assert_eq!(renumber("sausagesx0", 15), b"sausagesx15".to_vec());
    assert_eq!(renumber("12abc34", 5), b"5abc34".to_vec());
    assert_eq!(renumber("9", 10), b"10".to_vec());
}

#[test]
fn number_replaces_all_digits_of_spraycan() {
    assert_eq!(renumber("spraycan0145Transform", 3), b"spraycan3Transform".to_vec());
}

#[test]
fn decimal_text_of_numbers() {
    assert_eq!(decimal_text(0), b"0".to_vec());
    assert_eq!(decimal_text(7), b"7".to_vec());
    assert_eq!(decimal_text(10), b"10".to_vec());
    assert_eq!(decimal_text(99), b"99".to_vec());
    assert_eq!(decimal_text(100), b"100".to_vec());
    assert_eq!(decimal_text(4_294_967_295), b"4294967295".to_vec());
    assert_eq!(decimal_text(usize::MAX), format!("{}", usize::MAX).into_bytes());
}

#[test]
fn prefixes_and_suffixes() {
    assert!(starts_with(b"pikex3Transform", b"pikex"));
    assert!(starts_with(b"pikex", b"pikex"));
    assert!(starts_with(b"pikex", b""));
    assert!(!starts_with(b"pike", b"pikex"));
    assert!(!starts_with(b"Pikex3", b"pikex"));
    assert!(ends_with(b"pikex3Transform", b"Transform"));
    assert!(ends_with(b"Transform", b"Transform"));
    assert!(ends_with(b"abc", b""));
    assert!(!ends_with(b"ransform", b"Transform"));
    assert!(!ends_with(b"pikex3Transforms", b"Transform"));
}

#[test]
fn equality_of_byte_strings() {
    assert!(bytes_eq(b"abc", b"abc"));
    assert!(bytes_eq(b"", b""));
    assert!(!bytes_eq(b"abc", b"abd"));
    assert!(!bytes_eq(b"abc", b"ab"));
}

#[test]
fn membership_in_lists() {
    let list = vec![b"battery".to_vec(), b"fuse".to_vec()];
    assert!(list_contains(&list, b"fuse"));
    assert!(!list_contains(&list, b"fuses"));
    assert!(!list_contains(&Vec::new(), b"fuse"));
    assert!(any_prefix_of(&list, b"fuse package3Transform"));
    assert!(any_prefix_of(&list, b"battery"));
    assert!(!any_prefix_of(&list, b"r20 battery"));
    assert!(!any_prefix_of(&Vec::new(), b"battery"));
}

#[test]
fn replaces_every_occurrence() {
    assert_eq!(
        replace_all(b"pikex3Condition", b"pikex3", b"pikex12"),
        b"pikex12Condition".to_vec()
    );
    assert_eq!(replace_all(b"a1a1b", b"a1", b"a22"), b"a22a22b".to_vec());
    assert_eq!(replace_all(b"aaa", b"aa", b"b"), b"ba".to_vec());
    assert_eq!(replace_all(b"abc", b"x", b"y"), b"abc".to_vec());
    assert_eq!(replace_all(b"abc", b"abc", b""), Vec::<u8>::new());
    assert_eq!(replace_all(b"ab", b"abc", b"x"), b"ab".to_vec());
    assert_eq!(replace_all(b"", b"a", b"x"), Vec::<u8>::new());
}

#[test]
fn replacing_nothing_changes_nothing() {
    assert_eq!(replace_all(b"abc", b"", b"x"), b"abc".to_vec());
    assert_eq!(replace_all(b"", b"", b"x"), Vec::<u8>::new());
}
