use items_cleaner::engine::{
    clean_entries, clean_entries_with, count_groups, patch_counters, remove_landfill, rename_items,
};
use items_cleaner::entry::Entry;
use items_cleaner::rules::{Group, Rules};
use items_cleaner::tag::get_item_id;
use items_cleaner::{encode_entries, generate_entries, get_u32_le};

const AT_LANDFILL: [u8; 20] = [
    0xFF, 0x76, 0xFA, 0x7A, 0x09, 0x04, 0xFA, 0xD4, 0x29, 0xC4, 0xB8, 0x4F, 0x92, 0x40, 0xEF, 0xD2,
    0x35, 0xC4, 0xA1, 0x1F,
];

const ELSEWHERE: [u8; 20] = [
    0xFF, 0x76, 0xFA, 0x7A, 0x09, 0x04, 0x00, 0x00, 0x80, 0x3F, 0xB8, 0x4F, 0x92, 0x40, 0xEF, 0xD2,
    0x35, 0xC4, 0xA1, 0x1F,
];

const COUNTER: [u8; 9] = [0xFF, 0x56, 0x08, 0xA8, 0xE2, 0x36, 0x00, 0x00, 0x00];

fn entry(tag: &str, data: &[u8]) -> Entry {
    Entry { tag: tag.as_bytes().to_vec(), data: data.to_vec() }
}

fn here(tag: &str) -> Entry {
    entry(tag, &ELSEWHERE)
}

fn dumped(tag: &str) -> Entry {
    entry(tag, &AT_LANDFILL)
}

fn counter(tag: &str) -> Entry {
    entry(tag, &COUNTER)
}

fn counter_with(tag: &str, n: u8) -> Entry {
    entry(tag, &[0xFF, 0x56, 0x08, 0xA8, 0xE2, n, 0x00, 0x00, 0x00])
}

fn tags(entries: &[Entry]) -> Vec<String> {
    entries.iter().map(|e| String::from_utf8(e.tag.clone()).unwrap()).collect()
}

fn stored_counter(e: &Entry) -> u32 {
    let mut idx = 5;
    get_u32_le(&e.data, &mut idx)
}

fn group(tagname: &str, tagid: &str, zero: bool) -> Group {
    Group::new(tagname, tagid, zero)
}

fn rules(allow: &[&str], block: &[&str], groups: Vec<Group>) -> Rules {
    Rules {
        allowlist: allow.iter().map(|s| s.as_bytes().to_vec()).collect(),
        blocklist: block.iter().map(|s| s.as_bytes().to_vec()).collect(),
        groups,
    }
}

#[test]
fn three_sausages_keep_dense_numbers() {
    let input = vec![
        here("sausagesx2Transform"),
        here("sausagesx2Consumed"),
        here("sausagesx1Transform"),
        here("sausagesx1Consumed"),
        here("sausagesx0Transform"),
        here("sausagesx0Consumed"),
        counter("SausagesxID"),
    ];
    let output = clean_entries(input.clone());
    assert_eq!(
        tags(&output),
        vec![
            "sausagesx2Transform",
            "sausagesx2Consumed",
            "sausagesx1Transform",
            "sausagesx1Consumed",
            "sausagesx0Transform",
            "sausagesx0Consumed",
            "SausagesxID",
        ]
    );
    assert_eq!(stored_counter(&output[6]), 2);
    assert_eq!(output[6].data, vec![0xFF, 0x56, 0x08, 0xA8, 0xE2, 2, 0, 0, 0]);
    for k in 0..6 {
        assert_eq!(output[k].data, input[k].data);
    }
}

#[test]
fn three_sausages_are_numbered_from_the_highest_down() {
    let input = vec![
        here("sausagesx0Transform"),
        here("sausagesx0Consumed"),
        here("sausagesx1Transform"),
        here("sausagesx1Consumed"),
        here("sausagesx2Transform"),
        here("sausagesx2Consumed"),
        counter("SausagesxID"),
    ];
    let output = clean_entries(input);
    assert_eq!(
        tags(&output),
        vec![
            "sausagesx2Transform",
            "sausagesx2Consumed",
            "sausagesx1Transform",
            "sausagesx1Consumed",
            "sausagesx0Transform",
            "sausagesx0Consumed",
            "SausagesxID",
        ]
    );
    assert_eq!(stored_counter(&output[6]), 2);
}

#[test]
fn gaps_in_the_numbers_are_closed() {
    let input = vec![
        counter("pikexID"),
        here("pikex36Transform"),
        here("pikex36Condition"),
        here("pikex12Transform"),
        here("pikex12Condition"),
        here("pikex3Transform"),
        here("pikex3Condition"),
    ];
    let output = clean_entries(input);
    assert_eq!(
        tags(&output),
        vec![
            "pikexID",
            "pikex3Transform",
            "pikex3Condition",
            "pikex2Transform",
            "pikex2Condition",
            "pikex1Transform",
            "pikex1Condition",
        ]
    );
    assert_eq!(stored_counter(&output[0]), 3);
}

#[test]
fn records_of_one_item_share_the_new_number() {
    let input = vec![
        here("pikex7Transform"),
        here("pikex3Transform"),
        here("pikex7Condition"),
        here("pikex3Condition"),
    ];
    let output = clean_entries(input);
    assert_eq!(
        tags(&output),
        vec!["pikex2Transform", "pikex1Transform", "pikex2Condition", "pikex1Condition"]
    );
    assert_eq!(get_item_id(&output[1].tag), get_item_id(&output[3].tag));
    assert_eq!(get_item_id(&output[0].tag), get_item_id(&output[2].tag));
}

#[test]
fn items_in_the_landfill_are_removed_with_all_their_records() {
    let input = vec![
        here("pikex1Transform"),
        here("pikex1Condition"),
        here("pikex2Condition"),
        dumped("pikex2Transform"),
        here("pikex3Transform"),
        here("pikex3Condition"),
        counter("pikexID"),
    ];
    let output = clean_entries(input);
    assert_eq!(
        tags(&output),
        vec!["pikex2Transform", "pikex2Condition", "pikex1Transform", "pikex1Condition", "pikexID"]
    );
    assert_eq!(stored_counter(&output[4]), 2);
}

#[test]
fn removal_keeps_the_order_of_the_rest() {
    let input = vec![
        here("zzz"),
        dumped("yeast4Transform"),
        here("aaa"),
        here("yeast4Consumed"),
        here("mmm"),
    ];
    let output = remove_landfill(input, &Rules::standard());
    assert_eq!(tags(&output), vec!["zzz", "aaa", "mmm"]);
}

#[test]
fn store_without_landfill_items_keeps_all_records() {
    let input = vec![here("yeast4Transform"), here("yeast4Consumed"), here("whatever")];
    assert_eq!(remove_landfill(input.clone(), &Rules::standard()), input);
    assert_eq!(remove_landfill(Vec::new(), &Rules::standard()), Vec::new());
}

#[test]
fn allowlisted_items_stay_in_the_landfill() {
    let input = vec![
        dumped("sausagesx0Transform"),
        here("sausagesx0Consumed"),
        dumped("milkxTransform"),
        dumped("beercase0Transform"),
        dumped("oilfilter0Transform"),
        dumped("macaron boxxTransform"),
        dumped("pizzaxCondition"),
    ];
    let output = remove_landfill(input.clone(), &Rules::standard());
    assert_eq!(output, input);
}

#[test]
fn allowlisted_tags_are_not_renumbered() {
    let input = vec![
        dumped("sausagesx0"),
        dumped("beercase0"),
        dumped("milkxTransform"),
        dumped("milkxCondition"),
        dumped("pizzaxTransform"),
        here("beercase4Transform"),
    ];
    let output = clean_entries(input.clone());
    assert_eq!(
        tags(&output),
        vec![
            "sausagesx0",
            "beercase0",
            "milkxTransform",
            "milkxCondition",
            "pizzaxTransform",
            "beercase0Transform",
        ]
    );
    for k in 0..5 {
        assert_eq!(output[k], input[k]);
    }
}

#[test]
fn blocklisted_items_are_neither_removed_nor_renumbered() {
    let input = vec![
        dumped("battery7Transform"),
        dumped("fireextinguisher2Transform"),
        dumped("spark plug5Transform"),
        dumped("light bulb9Transform"),
        dumped("fuse16Transform"),
        dumped("alternator belt4Transform"),
        dumped("n2obottle3Transform"),
        dumped("r20 battery8Transform"),
        dumped("oil filter,2Transform"),
        dumped("spark plug box6Transform"),
        dumped("fuse package2Transform"),
    ];
    let output = clean_entries(input.clone());
    assert_eq!(output, input);
}

#[test]
fn removal_goes_by_identity() {
    // The identity of both tags is "n2": the second record condemns it.
    let input = vec![here("n2obottle1Transform"), dumped("n2x"), here("other")];
    let output = clean_entries(input);
    assert_eq!(tags(&output), vec!["other"]);
}

#[test]
fn one_item_of_a_group_with_a_zero_item_is_numbered_zero() {
    let input =
        vec![here("sausagesx5Transform"), here("sausagesx5Consumed"), counter("SausagesxID")];
    let output = clean_entries(input);
    assert_eq!(tags(&output), vec!["sausagesx0Transform", "sausagesx0Consumed", "SausagesxID"]);
    assert_eq!(stored_counter(&output[2]), 0);
}

#[test]
fn one_item_of_a_group_without_a_zero_item_is_numbered_one() {
    let input = vec![here("yeast5Transform"), here("yeast5Consumed"), counter("yeastID")];
    let output = clean_entries(input);
    assert_eq!(tags(&output), vec!["yeast1Transform", "yeast1Consumed", "yeastID"]);
    assert_eq!(stored_counter(&output[2]), 1);
}

#[test]
fn empty_group_has_counter_zero() {
    let output = clean_entries(vec![counter("sugarID"), here("unrelated")]);
    assert_eq!(stored_counter(&output[0]), 0);
    assert_eq!(output[1], here("unrelated"));
}

#[test]
fn count_stays_at_zero() {
    // Neither item has a record that ends in "Transform": both count for nothing.
    let input = vec![here("yeast4Consumed"), here("yeast9Consumed")];
    let output = clean_entries(input);
    assert_eq!(tags(&output), vec!["yeast0Consumed", "yeast0Consumed"]);
}

#[test]
fn counter_counts_what_is_left_after_removal() {
    let input = vec![
        counter("BeerCaseID"),
        dumped("beercase3Transform"),
        here("beercase2Transform"),
        dumped("beercase1Transform"),
        here("beercase4Transform"),
        dumped("beercase0Transform"),
    ];
    let output = clean_entries(input);
    // "beercase0" is allowlisted and stays: three items, numbered 2, 1, 0
    assert_eq!(
        tags(&output),
        vec!["BeerCaseID", "beercase2Transform", "beercase1Transform", "beercase0Transform"]
    );
    assert_eq!(stored_counter(&output[0]), 2);
    assert_eq!(output[3].data, AT_LANDFILL.to_vec());
}

#[test]
fn counter_record_keeps_the_rest_of_its_payload() {
    let mut data = vec![1, 2, 3, 4, 5, 0xAA, 0xBB, 0xCC, 0xDD, 6, 7, 8];
    let input = vec![entry("pikexID", &data), here("pikex9Transform")];
    let output = clean_entries(input);
    data[5..9].copy_from_slice(&[1, 0, 0, 0]);
    assert_eq!(output[0].data, data);
}

#[test]
fn counter_record_that_is_too_short_is_left_alone() {
    let input = vec![entry("pikexID", &[1, 2, 3, 4, 5, 6, 7, 8]), here("pikex9Transform")];
    let output = clean_entries(input);
    assert_eq!(output[0], entry("pikexID", &[1, 2, 3, 4, 5, 6, 7, 8]));
    assert_eq!(tags(&output), vec!["pikexID", "pikex1Transform"]);
}

#[test]
fn counter_records_are_not_renumbered() {
    let input = vec![counter("milkxID"), counter("sugarID"), counter("Spraycan01ID")];
    let output = clean_entries(input);
    assert_eq!(tags(&output), vec!["milkxID", "sugarID", "Spraycan01ID"]);
    assert_eq!(stored_counter(&output[0]), 0);
}

#[test]
fn counter_record_in_the_landfill_is_removed() {
    let mut data = AT_LANDFILL.to_vec();
    data[0] = 1;
    let output = clean_entries(vec![entry("yeastID", &data), here("yeast3Transform")]);
    assert_eq!(tags(&output), vec!["yeast1Transform"]);
}

#[test]
fn groups_are_numbered_apart() {
    let input = vec![
        here("yeast8Transform"),
        here("sugar8Transform"),
        here("yeast5Transform"),
        here("sugar2Transform"),
        here("sugar1Transform"),
        counter("sugarID"),
        counter("yeastID"),
    ];
    let output = clean_entries(input);
    assert_eq!(
        tags(&output),
        vec![
            "yeast2Transform",
            "sugar3Transform",
            "yeast1Transform",
            "sugar2Transform",
            "sugar1Transform",
            "sugarID",
            "yeastID",
        ]
    );
    assert_eq!(stored_counter(&output[5]), 3);
    assert_eq!(stored_counter(&output[6]), 2);
}

#[test]
fn records_of_no_group_are_left_alone() {
    let input = vec![here("player7Transform"), dumped("Sugar3Transform"), here("")];
    let output = clean_entries(input);
    // "Sugar3" lies in the landfill and is removed; the others belong to no group
    assert_eq!(output, vec![here("player7Transform"), here("")]);
}

#[test]
fn tag_without_digits_in_a_group_is_left_alone() {
    let input = vec![here("sugarTransform"), here("sugar4Transform")];
    let output = clean_entries(input);
    // two items are counted; the first takes the number 2 and has no digits to show it
    assert_eq!(tags(&output), vec!["sugarTransform", "sugar1Transform"]);
}

#[test]
fn spraycan_digits_are_all_replaced() {
    let input = vec![
        here("spraycan0145Transform"),
        here("spraycan0145Condition"),
        counter("Spraycan01ID"),
    ];
    let output = clean_entries(input);
    assert_eq!(
        tags(&output),
        vec!["spraycan1Transform", "spraycan145Condition", "Spraycan01ID"]
    );
    assert_eq!(stored_counter(&output[2]), 1);
}

#[test]
fn population_equals_counter_after_adjustment() {
    let input = vec![
        counter("SausagesxID"),
        counter("pikexID"),
        here("sausagesx9Transform"),
        dumped("sausagesx8Transform"),
        here("sausagesx7Transform"),
        here("sausagesx7Consumed"),
        here("sausagesx4Transform"),
        here("pikex5Transform"),
        here("pikex5Condition"),
        dumped("pikex6Transform"),
        here("pikex7Transform"),
    ];
    let output = clean_entries(input);
    let count = |prefix: &str| {
        output
            .iter()
            .filter(|e| e.tag.starts_with(prefix.as_bytes()) && e.tag.ends_with(b"Transform"))
            .count() as u32
    };
    assert_eq!(count("sausagesx"), 3);
    assert_eq!(count("pikex"), 2);
    // the sausages have an item numbered zero, the pikes have none
    assert_eq!(stored_counter(&output[0]), count("sausagesx") - 1);
    assert_eq!(stored_counter(&output[1]), count("pikex"));
}

#[test]
fn passes_can_be_run_one_by_one() {
    let mut rules = Rules::standard();
    let input = vec![
        here("yeast8Transform"),
        dumped("yeast5Transform"),
        here("yeast2Transform"),
        counter("yeastID"),
    ];
    let mut kept = remove_landfill(input.clone(), &rules);
    assert_eq!(tags(&kept), vec!["yeast8Transform", "yeast2Transform", "yeastID"]);
    count_groups(&kept, &mut rules);
    assert_eq!(rules.groups[4].tagname, b"yeast".to_vec());
    assert_eq!(rules.groups[4].count, 2);
    assert_eq!(rules.groups[4].max, 2);
    assert_eq!(rules.groups[3].count, 0);
    rename_items(&mut kept, &mut rules);
    assert_eq!(tags(&kept), vec!["yeast2Transform", "yeast1Transform", "yeastID"]);
    assert_eq!(rules.groups[4].count, 0);
    assert_eq!(rules.groups[4].max, 2);
    assert_eq!(stored_counter(&kept[2]), 0x36);
    patch_counters(&mut kept, &rules);
    assert_eq!(stored_counter(&kept[2]), 2);
    assert_eq!(kept, clean_entries(input));
}

#[test]
fn counting_adjusts_for_the_zero_item() {
    let mut rules = rules(
        &[],
        &[],
        vec![group("a", "aID", true), group("b", "bID", false), group("c", "cID", true)],
    );
    rules.groups[2].count = 77;
    rules.groups[2].max = 78;
    let entries = vec![
        here("a1Transform"),
        here("a2Transform"),
        here("a3Condition"),
        here("b1Transform"),
        here("b2Transform"),
        here("xa1Transform"),
    ];
    count_groups(&entries, &mut rules);
    assert_eq!((rules.groups[0].count, rules.groups[0].max), (1, 1));
    assert_eq!((rules.groups[1].count, rules.groups[1].max), (2, 2));
    assert_eq!((rules.groups[2].count, rules.groups[2].max), (0, 0));
}

#[test]
fn rules_can_be_extended() {
    let rules = rules(
        &["keep1"],
        &["fixed"],
        vec![group("crate", "CrateID", false), group("keep", "KeepID", false)],
    );
    let input = vec![
        dumped("keep1Transform"),
        dumped("fixed3Transform"),
        dumped("crate9Transform"),
        here("crate8Transform"),
        here("crate8Lid"),
        counter("CrateID"),
        here("keep1"),
    ];
    let output = clean_entries_with(input, rules);
    assert_eq!(
        tags(&output),
        vec![
            "keep1Transform",
            "fixed3Transform",
            "crate1Transform",
            "crate1Lid",
            "CrateID",
            "keep1",
        ]
    );
    assert_eq!(stored_counter(&output[4]), 1);
}

#[test]
fn later_group_sees_the_renamed_tag() {
    let rules = rules(&[], &[], vec![group("ab", "abID", false), group("a", "aID", false)]);
    let input = vec![here("ab7Transform"), here("ab7Condition"), here("ab5Transform")];
    let output = clean_entries_with(input, rules);
    // Both groups count two items. The first record takes 2 from "ab" and then 2 from "a".
    // The second follows it through both mappings. The third takes 1 and then 1.
    assert_eq!(tags(&output), vec!["ab2Transform", "ab2Condition", "ab1Transform"]);
}

#[test]
fn every_occurrence_of_the_identity_is_replaced() {
    let rules = rules(&[], &[], vec![group("a", "aID", false)]);
    let input = vec![here("a7Transform"), here("a7a7b"), here("a7.a70")];
    let output = clean_entries_with(input, rules);
    assert_eq!(tags(&output), vec!["a1Transform", "a1a1b", "a1.a10"]);
}

#[test]
fn renumbering_changes_only_the_number() {
    let input = vec![
        counter("pikexID"),
        here("pikex36Transform"),
        entry("pikex36Condition", &[9, 8, 7]),
        dumped("pikex5Transform"),
        here("sugar100Transform"),
        here("sugar100Consumed"),
        here("player"),
        here("yeast3.5"),
    ];
    let kept: Vec<Entry> =
        input.iter().filter(|e| !e.tag.starts_with(b"pikex5")).cloned().collect();
    let output = clean_entries(input);
    assert_eq!(output.len(), kept.len());
    let parts = |tag: &[u8]| {
        let start = tag.iter().position(|b| b.is_ascii_digit()).unwrap_or(tag.len());
        let end = start + tag[start..].iter().take_while(|b| b.is_ascii_digit()).count();
        (tag[..start].to_vec(), tag[end..].to_vec())
    };
    for (before, after) in kept.iter().zip(output.iter()) {
        assert_eq!(parts(&before.tag), parts(&after.tag));
        assert_eq!(before.data.len(), after.data.len());
        if after.tag != b"pikexID" {
            assert_eq!(before.data, after.data);
        }
    }
    assert_eq!(
        tags(&output),
        vec![
            "pikexID",
            "pikex1Transform",
            "pikex1Condition",
            "sugar1Transform",
            "sugar1Consumed",
            "player",
            "yeast0.5",
        ]
    );
}

#[test]
fn last_group_with_a_counter_tag_writes_last() {
    let rules = rules(&[], &[], vec![group("a", "ID", false), group("b", "ID", false)]);
    let input = vec![here("a1Transform"), here("b1Transform"), here("b2Transform"), counter("ID")];
    let output = clean_entries_with(input, rules);
    assert_eq!(stored_counter(&output[3]), 2);
}

#[test]
fn no_records_are_cleaned_to_no_records() {
    assert_eq!(clean_entries(Vec::new()), Vec::<Entry>::new());
}

#[test]
fn cleaning_is_repeatable() {
    let input = vec![
        here("pikex36Transform"),
        dumped("pikex12Transform"),
        here("pikex3Transform"),
        counter("pikexID"),
    ];
    let once = clean_entries(input.clone());
    assert_eq!(once, clean_entries(input));
    assert_eq!(clean_entries(once.clone()), once);
}

#[test]
fn store_is_cleaned_from_bytes_to_bytes() {
    let input = vec![
        counter_with("SausagesxID", 54),
        here("sausagesx54Transform"),
        here("sausagesx54Consumed"),
        dumped("sausagesx53Transform"),
        here("sausagesx53Consumed"),
        here("sausagesx0Transform"),
        here("sausagesx0Consumed"),
    ];
    let buf = encode_entries(&input);
    let cleaned = clean_entries(generate_entries(buf).unwrap());
    let expected = vec![
        counter_with("SausagesxID", 1),
        here("sausagesx1Transform"),
        here("sausagesx1Consumed"),
        here("sausagesx0Transform"),
        here("sausagesx0Consumed"),
    ];
    assert_eq!(cleaned, expected);
    assert_eq!(generate_entries(encode_entries(&cleaned)), Ok(expected));
}

#[test]
fn standard_rules_hold_the_tables() {
    let rules = Rules::standard();
    assert_eq!(rules.allowlist.len(), 9);
    assert_eq!(rules.blocklist.len(), 9);
    assert_eq!(rules.groups.len(), 38);
    assert_eq!(rules.allowlist[2], b"sausagesx0".to_vec());
    assert_eq!(rules.blocklist[3], b"oil filter,".to_vec());
    assert_eq!(rules.groups[0], group("beercase", "BeerCaseID", true));
    assert_eq!(rules.groups[7], group("macaronbox", "macaronboxxID", false));
    assert_eq!(rules.groups[37], group("spraycan13", "Spraycan13ID", false));
    let with_zero: Vec<String> = rules
        .groups
        .iter()
        .filter(|g| g.has_default_zero_item)
        .map(|g| String::from_utf8(g.tagname.clone()).unwrap())
        .collect();
    assert_eq!(with_zero, vec!["beercase", "sausagesx", "milkx", "pizzax"]);
    assert!(rules.groups.iter().all(|g| g.count == 0 && g.max == 0));
}
