//! What holds of the standard rules, and of every repair that goes by them.

use crate::bytes::u32_from_le;
use crate::engine::{cleaned, is_counter_tag, is_skipped, survives, survivors};
use crate::entry::EntryView;
use crate::laws::{
    lemma_protected_identity_survives, lemma_skipped_record_keeps_tag, position_of_survivor,
};
use crate::rules::{
    standard_allowlist, standard_blocklist, standard_groups, standard_rules, PLAIN_GROUPS,
};
use crate::siblings::{lemma_siblings_share_number, takes_alone};
use crate::tag::{
    item_identity, lemma_digit_free_prefix_of_identity, lemma_digit_run, lemma_identity_shape,
    lemma_identity_with_last_digit, lemma_identity_without_digits, lemma_stem_holds_prefix,
    spraycan, stem,
};
use crate::text::{digit_free, has_prefix_in, is_digit};
use vstd::prelude::*;
use vstd::string::{is_ascii_spec_bytes, StringSliceAdditionalSpecFns};

verus! {

/// The number that the first four bytes of a text hold, the first byte
/// lowest. Texts that begin with the same four bytes have the same head.
pub open spec fn head(s: Seq<u8>) -> int {
    u32_from_le(s.subrange(0, 4))
}

/// The text is four bytes or more and has the head `h`.
pub open spec fn begins_with(text: &str, h: int) -> bool {
    text.spec_bytes().len() >= 4 && head(text.spec_bytes()) == h
}

/// The text is the prefix of a group of spraycans: it has the head of
/// `spraycan`, and is ten bytes with a digit as the ninth.
pub open spec fn names_spraycans(text: &str) -> bool {
    text.spec_bytes().len() == 10 && begins_with(text, 0x6172_7073) && is_digit(
        text.spec_bytes()[8],
    )
}

/// No text begins with two texts of four bytes or more whose heads differ.
pub proof fn lemma_heads_differ(p: Seq<u8>, q: Seq<u8>, t: Seq<u8>)
    requires
        p.len() >= 4,
        q.len() >= 4,
        head(p) != head(q),
        p.is_prefix_of(t),
    ensures
        !q.is_prefix_of(t),
{
    if q.is_prefix_of(t) {
        assert forall|k: int| 0 <= k < 4 implies p[k] == q[k] by {
            assert(p[k] == t.subrange(0, p.len() as int)[k]);
            assert(q[k] == t.subrange(0, q.len() as int)[k]);
        }
        assert(p.subrange(0, 4) =~= q.subrange(0, 4));
    }
}

/// The heads of the prefixes of the groups 0 to 4 of the table.
proof fn lemma_heads_0_to_4()
    ensures
        begins_with("beercase", 0x7265_6562),
        begins_with("sausagesx", 0x7375_6173),
        begins_with("milkx", 0x6B6C_696D),
        begins_with("sugar", 0x6167_7573),
        begins_with("yeast", 0x7361_6579),
{
    reveal_strlit("beercase");
    is_ascii_spec_bytes("beercase");
    reveal_strlit("sausagesx");
    is_ascii_spec_bytes("sausagesx");
    reveal_strlit("milkx");
    is_ascii_spec_bytes("milkx");
    reveal_strlit("sugar");
    is_ascii_spec_bytes("sugar");
    reveal_strlit("yeast");
    is_ascii_spec_bytes("yeast");
}

/// The heads of the prefixes of the groups 5 to 9 of the table.
proof fn lemma_heads_5_to_9()
    ensures
        begins_with("potatochips", 0x6174_6F70),
        begins_with("pizzax", 0x7A7A_6970),
        begins_with("macaronbox", 0x6163_616D),
        begins_with("shoppingbagx", 0x706F_6873),
        begins_with("moosemeatx", 0x736F_6F6D),
{
    reveal_strlit("potatochips");
    is_ascii_spec_bytes("potatochips");
    reveal_strlit("pizzax");
    is_ascii_spec_bytes("pizzax");
    reveal_strlit("macaronbox");
    is_ascii_spec_bytes("macaronbox");
    reveal_strlit("shoppingbagx");
    is_ascii_spec_bytes("shoppingbagx");
    reveal_strlit("moosemeatx");
    is_ascii_spec_bytes("moosemeatx");
}

/// The heads of the prefixes of the groups 10 to 14 of the table.
proof fn lemma_heads_10_to_14()
    ensures
        begins_with("Booze", 0x7A6F_6F42),
        begins_with("pikex", 0x656B_6970),
        begins_with("juiceconcentrate", 0x6369_756A),
        begins_with("motoroil", 0x6F74_6F6D),
        begins_with("brakefluid", 0x6B61_7262),
{
    reveal_strlit("Booze");
    is_ascii_spec_bytes("Booze");
    reveal_strlit("pikex");
    is_ascii_spec_bytes("pikex");
    reveal_strlit("juiceconcentrate");
    is_ascii_spec_bytes("juiceconcentrate");
    reveal_strlit("motoroil");
    is_ascii_spec_bytes("motoroil");
    reveal_strlit("brakefluid");
    is_ascii_spec_bytes("brakefluid");
}

/// The heads of the prefixes of the groups 15 to 19 of the table.
proof fn lemma_heads_15_to_19()
    ensures
        begins_with("coolant", 0x6C6F_6F63),
        begins_with("twostroke", 0x736F_7774),
        begins_with("cigarettes", 0x6167_6963),
        begins_with("spark plug box", 0x7261_7073),
        begins_with("groundcoffee", 0x756F_7267),
{
    reveal_strlit("coolant");
    is_ascii_spec_bytes("coolant");
    reveal_strlit("twostroke");
    is_ascii_spec_bytes("twostroke");
    reveal_strlit("cigarettes");
    is_ascii_spec_bytes("cigarettes");
    reveal_strlit("spark plug box");
    is_ascii_spec_bytes("spark plug box");
    reveal_strlit("groundcoffee");
    is_ascii_spec_bytes("groundcoffee");
}

/// The heads of the prefixes of the groups 20 to 24 of the table.
proof fn lemma_heads_20_to_24()
    ensures
        begins_with("grillcharcoal", 0x6C69_7267),
        begins_with("light bulb box", 0x6867_696C),
        begins_with("fuse package", 0x6573_7566),
        begins_with("r20 battery box", 0x2030_3272),
        begins_with("mosquitospray", 0x7173_6F6D),
{
    reveal_strlit("grillcharcoal");
    is_ascii_spec_bytes("grillcharcoal");
    reveal_strlit("light bulb box");
    is_ascii_spec_bytes("light bulb box");
    reveal_strlit("fuse package");
    is_ascii_spec_bytes("fuse package");
    reveal_strlit("r20 battery box");
    is_ascii_spec_bytes("r20 battery box");
    reveal_strlit("mosquitospray");
    is_ascii_spec_bytes("mosquitospray");
}

/// The prefixes of the groups 25 to 29 of the table name spraycans.
proof fn lemma_heads_25_to_29()
    ensures
        names_spraycans("spraycan01"),
        names_spraycans("spraycan02"),
        names_spraycans("spraycan03"),
        names_spraycans("spraycan04"),
        names_spraycans("spraycan05"),
{
    reveal_strlit("spraycan01");
    is_ascii_spec_bytes("spraycan01");
    reveal_strlit("spraycan02");
    is_ascii_spec_bytes("spraycan02");
    reveal_strlit("spraycan03");
    is_ascii_spec_bytes("spraycan03");
    reveal_strlit("spraycan04");
    is_ascii_spec_bytes("spraycan04");
    reveal_strlit("spraycan05");
    is_ascii_spec_bytes("spraycan05");
}

/// The prefixes of the groups 30 to 34 of the table name spraycans.
proof fn lemma_heads_30_to_34()
    ensures
        names_spraycans("spraycan06"),
        names_spraycans("spraycan07"),
        names_spraycans("spraycan08"),
        names_spraycans("spraycan09"),
        names_spraycans("spraycan10"),
{
    reveal_strlit("spraycan06");
    is_ascii_spec_bytes("spraycan06");
    reveal_strlit("spraycan07");
    is_ascii_spec_bytes("spraycan07");
    reveal_strlit("spraycan08");
    is_ascii_spec_bytes("spraycan08");
    reveal_strlit("spraycan09");
    is_ascii_spec_bytes("spraycan09");
    reveal_strlit("spraycan10");
    is_ascii_spec_bytes("spraycan10");
}

/// The prefixes of the groups 35 to 37 of the table name spraycans.
proof fn lemma_heads_35_to_37()
    ensures
        names_spraycans("spraycan11"),
        names_spraycans("spraycan12"),
        names_spraycans("spraycan13"),
{
    reveal_strlit("spraycan11");
    is_ascii_spec_bytes("spraycan11");
    reveal_strlit("spraycan12");
    is_ascii_spec_bytes("spraycan12");
    reveal_strlit("spraycan13");
    is_ascii_spec_bytes("spraycan13");
}

/// The prefixes of the standard groups are four bytes or more. The heads
/// of those that stand before the groups of spraycans differ from the head
/// of every other.
#[verifier::rlimit(40)]
pub proof fn lemma_standard_prefixes_differ(g: int, h: int)
    requires
        0 <= g < PLAIN_GROUPS,
        0 <= h < standard_groups().len(),
        g != h,
    ensures
        standard_groups()[g].tagname.len() >= 4,
        standard_groups()[h].tagname.len() >= 4,
        head(standard_groups()[g].tagname) != head(standard_groups()[h].tagname),
{
    lemma_heads_0_to_4();
    lemma_heads_5_to_9();
    lemma_heads_10_to_14();
    lemma_heads_15_to_19();
    lemma_heads_20_to_24();
    lemma_heads_25_to_29();
    lemma_heads_30_to_34();
    lemma_heads_35_to_37();
}

/// The prefixes of the groups of spraycans hold a digit and have the head
/// of `spraycan`.
pub proof fn lemma_spraycan_groups(h: int)
    requires
        PLAIN_GROUPS <= h < standard_groups().len(),
    ensures
        standard_groups()[h].tagname.len() == 10,
        is_digit(standard_groups()[h].tagname[8]),
        head(standard_groups()[h].tagname) == head(spraycan()),
{
    lemma_heads_25_to_29();
    lemma_heads_30_to_34();
    lemma_heads_35_to_37();
    assert(head(spraycan()) == 0x6172_7073) by {
        reveal_strlit("spraycan");
        is_ascii_spec_bytes("spraycan");
    }
}

/// The standard group whose prefix holds no digit takes its records alone:
/// no other group takes a tag with the stem of a tag that it takes. Such a
/// tag does not begin with `spraycan`.
pub proof fn lemma_standard_group_takes_alone(g: int, tag: Seq<u8>)
    requires
        0 <= g < standard_groups().len(),
        digit_free(standard_groups()[g].tagname),
        standard_groups()[g].tagname.is_prefix_of(tag),
    ensures
        takes_alone(standard_groups(), stem(tag), g),
        !spraycan().is_prefix_of(tag),
{
    let groups = standard_groups();
    let prefix = groups[g].tagname;
    if g >= PLAIN_GROUPS {
        lemma_spraycan_groups(g);
    }
    lemma_stem_holds_prefix(tag, prefix);
    lemma_digit_run(tag);
    assert forall|h: int, t: Seq<u8>|
        0 <= h < groups.len() && h != g && stem(t) == stem(tag) implies !(
    #[trigger] groups[h].tagname.is_prefix_of(t)) by {
        lemma_standard_prefixes_differ(g, h);
        lemma_digit_run(t);
        assert(prefix.is_prefix_of(t)) by {
            assert(prefix =~= t.subrange(0, prefix.len() as int)) by {
                assert forall|k: int| 0 <= k < prefix.len() implies prefix[k] == t[k] by {
                    assert(prefix[k] == stem(tag).subrange(0, prefix.len() as int)[k]);
                    assert(stem(t)[k] == t[k]);
                }
            }
        }
        lemma_heads_differ(prefix, groups[h].tagname, t);
    }
    if spraycan().is_prefix_of(tag) {
        lemma_standard_prefixes_differ(g, PLAIN_GROUPS as int);
        lemma_spraycan_groups(PLAIN_GROUPS as int);
        assert(spraycan().len() == 8) by {
            reveal_strlit("spraycan");
            is_ascii_spec_bytes("spraycan");
        }
        assert(prefix.subrange(0, 4) =~= spraycan().subrange(0, 4)) by {
            assert forall|k: int| 0 <= k < 4 implies prefix[k] == spraycan()[k] by {
                assert(prefix[k] == tag.subrange(0, prefix.len() as int)[k]);
                assert(spraycan()[k] == tag.subrange(0, 8)[k]);
            }
        }
    }
}

/// Sibling consistency under the standard rules. Two records of one item
/// that are kept, neither of which the renumbering passes over, carry the
/// same number in the repaired store, where the item belongs to a group
/// whose prefix holds no digit.
pub proof fn lemma_standard_siblings_share_number(
    entries: Seq<EntryView>,
    a: int,
    b: int,
    g: int,
)
    requires
        0 <= a < survivors(standard_rules(), entries).len(),
        0 <= b < survivors(standard_rules(), entries).len(),
        item_identity(survivors(standard_rules(), entries)[a].tag) == item_identity(
            survivors(standard_rules(), entries)[b].tag,
        ),
        !is_skipped(standard_rules(), survivors(standard_rules(), entries)[a].tag),
        !is_skipped(standard_rules(), survivors(standard_rules(), entries)[b].tag),
        0 <= g < standard_groups().len(),
        digit_free(standard_groups()[g].tagname),
        standard_groups()[g].tagname.is_prefix_of(survivors(standard_rules(), entries)[a].tag),
    ensures
        cleaned(standard_rules(), entries).len() == survivors(standard_rules(), entries).len(),
        item_identity(cleaned(standard_rules(), entries)[a].tag) == item_identity(
            cleaned(standard_rules(), entries)[b].tag,
        ),
{
    let kept = survivors(standard_rules(), entries);
    let prefix = standard_groups()[g].tagname;
    lemma_standard_group_takes_alone(g, kept[a].tag);
    lemma_digit_free_prefix_of_identity(kept[a].tag, prefix);
    lemma_identity_shape(kept[b].tag);
    assert(prefix.is_prefix_of(kept[b].tag)) by {
        let id = item_identity(kept[b].tag);
        assert(prefix =~= kept[b].tag.subrange(0, prefix.len() as int)) by {
            assert forall|k: int| 0 <= k < prefix.len() implies prefix[k] == kept[b].tag[k] by {
                assert(prefix[k] == id.subrange(0, prefix.len() as int)[k]);
                assert(id[k] == kept[b].tag.subrange(0, id.len() as int)[k]);
            }
        }
    }
    lemma_siblings_share_number(standard_rules(), entries, a, b, g);
}

/// The tags of the fresh milk and pizza are their own identities.
proof fn lemma_allowlisted_food()
    ensures
        item_identity("milkxTransform".spec_bytes()) == "milkxTransform".spec_bytes(),
        item_identity("milkxCondition".spec_bytes()) == "milkxCondition".spec_bytes(),
        item_identity("pizzaxTransform".spec_bytes()) == "pizzaxTransform".spec_bytes(),
        item_identity("pizzaxCondition".spec_bytes()) == "pizzaxCondition".spec_bytes(),
{
    assert(item_identity("milkxTransform".spec_bytes()) == "milkxTransform".spec_bytes()) by {
        reveal_strlit("milkxTransform");
        is_ascii_spec_bytes("milkxTransform");
        lemma_identity_without_digits("milkxTransform".spec_bytes());
    }
    assert(item_identity("milkxCondition".spec_bytes()) == "milkxCondition".spec_bytes()) by {
        reveal_strlit("milkxCondition");
        is_ascii_spec_bytes("milkxCondition");
        lemma_identity_without_digits("milkxCondition".spec_bytes());
    }
    assert(item_identity("pizzaxTransform".spec_bytes()) == "pizzaxTransform".spec_bytes()) by {
        reveal_strlit("pizzaxTransform");
        is_ascii_spec_bytes("pizzaxTransform");
        lemma_identity_without_digits("pizzaxTransform".spec_bytes());
    }
    assert(item_identity("pizzaxCondition".spec_bytes()) == "pizzaxCondition".spec_bytes()) by {
        reveal_strlit("pizzaxCondition");
        is_ascii_spec_bytes("pizzaxCondition");
        lemma_identity_without_digits("pizzaxCondition".spec_bytes());
    }
}

/// The tags of the fresh macaroni are their own identities.
proof fn lemma_allowlisted_macaroni()
    ensures
        item_identity("macaron boxxTransform".spec_bytes())
            == "macaron boxxTransform".spec_bytes(),
        item_identity("macaron boxxCondition".spec_bytes())
            == "macaron boxxCondition".spec_bytes(),
{
    assert(item_identity("macaron boxxTransform".spec_bytes())
        == "macaron boxxTransform".spec_bytes()) by {
        reveal_strlit("macaron boxxTransform");
        is_ascii_spec_bytes("macaron boxxTransform");
        lemma_identity_without_digits("macaron boxxTransform".spec_bytes());
    }
    assert(item_identity("macaron boxxCondition".spec_bytes())
        == "macaron boxxCondition".spec_bytes()) by {
        reveal_strlit("macaron boxxCondition");
        is_ascii_spec_bytes("macaron boxxCondition");
        lemma_identity_without_digits("macaron boxxCondition".spec_bytes());
    }
}

/// The tags of the items numbered zero are their own identities.
proof fn lemma_allowlisted_zero_items()
    ensures
        item_identity("sausagesx0".spec_bytes()) == "sausagesx0".spec_bytes(),
        item_identity("beercase0".spec_bytes()) == "beercase0".spec_bytes(),
        item_identity("oilfilter0".spec_bytes()) == "oilfilter0".spec_bytes(),
{
    assert(item_identity("sausagesx0".spec_bytes()) == "sausagesx0".spec_bytes()) by {
        reveal_strlit("sausagesx0");
        is_ascii_spec_bytes("sausagesx0");
        lemma_identity_with_last_digit("sausagesx0".spec_bytes());
    }
    assert(item_identity("beercase0".spec_bytes()) == "beercase0".spec_bytes()) by {
        reveal_strlit("beercase0");
        is_ascii_spec_bytes("beercase0");
        lemma_identity_with_last_digit("beercase0".spec_bytes());
    }
    assert(item_identity("oilfilter0".spec_bytes()) == "oilfilter0".spec_bytes()) by {
        reveal_strlit("oilfilter0");
        is_ascii_spec_bytes("oilfilter0");
        lemma_identity_with_last_digit("oilfilter0".spec_bytes());
    }
}

/// Every member of the standard allowlist is its own identity: a record
/// whose tag is on the list belongs to an item whose identity is on it.
pub proof fn lemma_standard_allowlist_identities()
    ensures
        forall|k: int|
            0 <= k < standard_allowlist().len() ==> item_identity(
                #[trigger] standard_allowlist()[k],
            ) == standard_allowlist()[k],
{
    lemma_allowlisted_food();
    lemma_allowlisted_macaroni();
    lemma_allowlisted_zero_items();
}

/// The members of the standard blocklist that hold no digit: all but
/// `n2obottle` and `r20 battery`.
pub open spec fn plain_blocklist() -> Seq<Seq<u8>> {
    seq![
        "fireextinguisher".spec_bytes(),
        "battery".spec_bytes(),
        "oil filter,".spec_bytes(),
        "spark plug".spec_bytes(),
        "alternator belt".spec_bytes(),
        "light bulb".spec_bytes(),
        "fuse".spec_bytes(),
    ]
}

/// The first four members of the plain blocklist hold no digit.
proof fn lemma_plain_blocklist_first()
    ensures
        digit_free("fireextinguisher".spec_bytes()),
        digit_free("battery".spec_bytes()),
        digit_free("oil filter,".spec_bytes()),
        digit_free("spark plug".spec_bytes()),
{
    assert(digit_free("fireextinguisher".spec_bytes())) by {
        reveal_strlit("fireextinguisher");
        is_ascii_spec_bytes("fireextinguisher");
    }
    assert(digit_free("battery".spec_bytes())) by {
        reveal_strlit("battery");
        is_ascii_spec_bytes("battery");
    }
    assert(digit_free("oil filter,".spec_bytes())) by {
        reveal_strlit("oil filter,");
        is_ascii_spec_bytes("oil filter,");
    }
    assert(digit_free("spark plug".spec_bytes())) by {
        reveal_strlit("spark plug");
        is_ascii_spec_bytes("spark plug");
    }
}

/// The last three members of the plain blocklist hold no digit.
proof fn lemma_plain_blocklist_last()
    ensures
        digit_free("alternator belt".spec_bytes()),
        digit_free("light bulb".spec_bytes()),
        digit_free("fuse".spec_bytes()),
{
    assert(digit_free("alternator belt".spec_bytes())) by {
        reveal_strlit("alternator belt");
        is_ascii_spec_bytes("alternator belt");
    }
    assert(digit_free("light bulb".spec_bytes())) by {
        reveal_strlit("light bulb");
        is_ascii_spec_bytes("light bulb");
    }
    assert(digit_free("fuse".spec_bytes())) by {
        reveal_strlit("fuse");
        is_ascii_spec_bytes("fuse");
    }
}

/// The members of the plain blocklist are on the standard blocklist and
/// hold no digit.
pub proof fn lemma_plain_blocklist()
    ensures
        forall|k: int|
            0 <= k < plain_blocklist().len() ==> standard_blocklist().contains(
                #[trigger] plain_blocklist()[k],
            ) && digit_free(plain_blocklist()[k]),
{
    lemma_plain_blocklist_first();
    lemma_plain_blocklist_last();
    assert(standard_blocklist()[0] == plain_blocklist()[0]);
    assert(standard_blocklist()[2] == plain_blocklist()[1]);
    assert(standard_blocklist()[3] == plain_blocklist()[2]);
    assert(standard_blocklist()[4] == plain_blocklist()[3]);
    assert(standard_blocklist()[5] == plain_blocklist()[4]);
    assert(standard_blocklist()[6] == plain_blocklist()[5]);
    assert(standard_blocklist()[7] == plain_blocklist()[6]);
}

/// The protection that the standard rules give. A record whose tag is on
/// the allowlist, or begins with a member of the blocklist that holds no
/// digit, is never removed and never renumbered, wherever its item lies:
/// in the repaired store it has the place that it has among the records
/// that are kept and the tag that it had, and unless it is a counter record
/// it is unchanged.
pub proof fn lemma_standard_rules_protect(entries: Seq<EntryView>, i: int)
    requires
        0 <= i < entries.len(),
        standard_allowlist().contains(entries[i].tag) || has_prefix_in(
            plain_blocklist(),
            entries[i].tag,
        ),
    ensures
        survives(standard_rules(), entries, entries[i]),
        ({
            let k = position_of_survivor(standard_rules(), entries, i);
            let out = cleaned(standard_rules(), entries);
            &&& 0 <= k < out.len()
            &&& out[k].tag == entries[i].tag
            &&& out[k].data.len() == entries[i].data.len()
            &&& !is_counter_tag(standard_rules().groups, entries[i].tag) ==> out[k] == entries[i]
        }),
{
    let rules = standard_rules();
    let tag = entries[i].tag;
    if standard_allowlist().contains(tag) {
        lemma_standard_allowlist_identities();
        let k = choose|k: int|
            0 <= k < standard_allowlist().len() && standard_allowlist()[k] == tag;
        assert(item_identity(standard_allowlist()[k]) == tag);
        assert(rules.allowlist.contains(item_identity(tag)));
    } else {
        lemma_plain_blocklist();
        let k = choose|k: int|
            0 <= k < plain_blocklist().len() && (#[trigger] plain_blocklist()[k]).is_prefix_of(tag);
        let prefix = plain_blocklist()[k];
        lemma_digit_free_prefix_of_identity(tag, prefix);
        let j = choose|j: int|
            0 <= j < standard_blocklist().len() && standard_blocklist()[j] == prefix;
        assert(standard_blocklist()[j].is_prefix_of(tag));
        assert(standard_blocklist()[j].is_prefix_of(item_identity(tag)));
        assert(has_prefix_in(rules.blocklist, tag));
        assert(has_prefix_in(rules.blocklist, item_identity(tag)));
    }
    lemma_protected_identity_survives(rules, entries, i);
    lemma_skipped_record_keeps_tag(rules, entries, i);
}

} // verus!
