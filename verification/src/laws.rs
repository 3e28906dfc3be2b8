//! What holds of every repair, whatever the records are.

use crate::bytes::{lemma_u32_le_roundtrip, u32_from_le, u32_to_le};
use crate::engine::{
    cleaned, condemned, counted, counted_group, highest_number, is_counter_tag, is_protected,
    is_skipped, marks, patched_in_groups, population, renamed_in_group, renamed_in_groups,
    renamed_record, renamed_records, renumbered, survives, survivors, with_counter, COUNTER_END,
    COUNTER_OFFSET, Renumbering,
};
use crate::entry::EntryView;
use crate::rules::{GroupView, RulesView};
use crate::tag::{item_identity, lemma_digit_run};
use crate::text::has_prefix_in;
use vstd::prelude::*;

verus! {

/// Two groups that differ at most in their numbers.
pub open spec fn same_group(a: GroupView, b: GroupView) -> bool {
    a.tagname == b.tagname && a.tagid == b.tagid && a.has_default_zero_item
        == b.has_default_zero_item
}

/// The groups of two sets of rules have the same highest numbers.
pub open spec fn same_maxima(a: RulesView, b: RulesView) -> bool {
    &&& a.groups.len() == b.groups.len()
    &&& forall|g: int|
        #![trigger a.groups[g]]
        #![trigger b.groups[g]]
        0 <= g < a.groups.len() ==> a.groups[g].max == b.groups[g].max
}

/// Two sets of rules that differ at most in the numbers of their groups.
pub open spec fn same_tables(a: RulesView, b: RulesView) -> bool {
    &&& a.allowlist == b.allowlist
    &&& a.blocklist == b.blocklist
    &&& a.groups.len() == b.groups.len()
    &&& forall|g: int|
        #![trigger a.groups[g]]
        #![trigger b.groups[g]]
        0 <= g < a.groups.len() ==> same_group(a.groups[g], b.groups[g])
}

/// `after` differs from `before` at most in the tag of record `i`, in the
/// numbers that the groups have counted down to and in the items that are
/// known.
pub open spec fn renames_only(before: Renumbering, after: Renumbering, i: int) -> bool {
    &&& after.entries.len() == before.entries.len()
    &&& same_tables(before.rules, after.rules)
    &&& same_maxima(before.rules, after.rules)
    &&& after.entries[i].data == before.entries[i].data
    &&& forall|j: int|
        0 <= j < before.entries.len() && j != i ==> #[trigger] after.entries[j]
            == before.entries[j]
}

/// Which records the renumbering passes over does not depend on the numbers
/// that the groups have counted down to.
pub proof fn lemma_skipped_same_tables(a: RulesView, b: RulesView, tag: Seq<u8>)
    requires
        same_tables(a, b),
    ensures
        is_skipped(a, tag) == is_skipped(b, tag),
        is_protected(a, tag) == is_protected(b, tag),
        is_counter_tag(a.groups, tag) == is_counter_tag(b.groups, tag),
{
    if is_counter_tag(a.groups, tag) {
        let g = choose|g: int| 0 <= g < a.groups.len() && (#[trigger] a.groups[g]).tagid == tag;
        assert(b.groups[g].tagid == tag);
    }
    if is_counter_tag(b.groups, tag) {
        let g = choose|g: int| 0 <= g < b.groups.len() && (#[trigger] b.groups[g]).tagid == tag;
        assert(a.groups[g].tagid == tag);
    }
}

/// A group renames one record and leaves the others, the payloads and the
/// tables as they are.
pub proof fn lemma_renamed_in_group_frame(st: Renumbering, i: int, g: int)
    requires
        0 <= i < st.entries.len(),
        0 <= g < st.rules.groups.len(),
    ensures
        renames_only(st, renamed_in_group(st, i, g), i),
{
}

/// Groups rename one record and leave the others, the payloads and the
/// tables as they are.
pub proof fn lemma_renamed_in_groups_frame(st: Renumbering, i: int, upto: int)
    requires
        0 <= i < st.entries.len(),
        0 <= upto <= st.rules.groups.len(),
    ensures
        renames_only(st, renamed_in_groups(st, i, upto), i),
    decreases upto,
{
    if upto > 0 {
        let before = renamed_in_groups(st, i, upto - 1);
        lemma_renamed_in_groups_frame(st, i, upto - 1);
        lemma_renamed_in_group_frame(before, i, upto - 1);
    }
}

/// The renumbering of one record leaves the others, the payloads and the
/// tables as they are.
pub proof fn lemma_renamed_record_frame(st: Renumbering, i: int)
    requires
        0 <= i < st.entries.len(),
    ensures
        renames_only(st, renamed_record(st, i), i),
{
    lemma_renamed_in_groups_frame(st, i, st.rules.groups.len() as int);
}

/// The renumbering of the first `upto` records keeps the number of records,
/// the payloads and the tables, and leaves alone the records that follow and
/// the records that it passes over.
pub proof fn lemma_renamed_records_frame(st: Renumbering, upto: int)
    requires
        0 <= upto <= st.entries.len(),
    ensures
        renamed_records(st, upto).entries.len() == st.entries.len(),
        same_tables(st.rules, renamed_records(st, upto).rules),
        same_maxima(st.rules, renamed_records(st, upto).rules),
        forall|j: int|
            0 <= j < st.entries.len() ==> (#[trigger] renamed_records(st, upto).entries[j]).data
                == st.entries[j].data,
        forall|j: int|
            upto <= j < st.entries.len() ==> #[trigger] renamed_records(st, upto).entries[j]
                == st.entries[j],
        forall|j: int|
            0 <= j < upto && is_skipped(st.rules, st.entries[j].tag) ==> #[trigger] renamed_records(
                st,
                upto,
            ).entries[j] == st.entries[j],
    decreases upto,
{
    if upto > 0 {
        let before = renamed_records(st, upto - 1);
        let after = renamed_records(st, upto);
        lemma_renamed_records_frame(st, upto - 1);
        lemma_renamed_record_frame(before, upto - 1);
        lemma_skipped_same_tables(st.rules, before.rules, st.entries[upto - 1].tag);
        assert(before.entries[upto - 1] == st.entries[upto - 1]);
        assert forall|j: int| 0 <= j < st.entries.len() implies (#[trigger] after.entries[j]).data
            == st.entries[j].data by {
            if j != upto - 1 {
                assert(after.entries[j] == before.entries[j]);
            }
        }
        assert forall|j: int| upto <= j < st.entries.len() implies #[trigger] after.entries[j]
            == st.entries[j] by {
            assert(after.entries[j] == before.entries[j]);
        }
        assert forall|j: int|
            0 <= j < upto && is_skipped(
                st.rules,
                st.entries[j].tag,
            ) implies #[trigger] after.entries[j] == st.entries[j] by {
            if j != upto - 1 {
                assert(after.entries[j] == before.entries[j]);
            }
        }
    }
}

/// Writing the highest numbers changes no tag and the length of no payload,
/// changes of a payload at most the bytes of the highest number, and leaves
/// a record alone that is no counter record.
pub proof fn lemma_patched_in_groups(groups: Seq<GroupView>, e: EntryView, upto: int)
    requires
        0 <= upto <= groups.len(),
    ensures
        patched_in_groups(groups, e, upto).tag == e.tag,
        patched_in_groups(groups, e, upto).data.len() == e.data.len(),
        forall|j: int|
            0 <= j < e.data.len() && !(COUNTER_OFFSET <= j < COUNTER_END) ==> patched_in_groups(
                groups,
                e,
                upto,
            ).data[j] == e.data[j],
        !is_counter_tag(groups, e.tag) ==> patched_in_groups(groups, e, upto) == e,
    decreases upto,
{
    if upto > 0 {
        lemma_patched_in_groups(groups, e, upto - 1);
        if !is_counter_tag(groups, e.tag) {
            assert(groups[upto - 1].tagid != e.tag);
        }
    }
}

/// The counter record of a group holds the group's highest number, once
/// the group has had its turn and no later group with the same counter tag
/// has had one.
pub proof fn lemma_patched_by_last_group(
    groups: Seq<GroupView>,
    e: EntryView,
    g: int,
    upto: int,
)
    requires
        0 <= g < upto <= groups.len(),
        groups[g].tagid == e.tag,
        forall|h: int| g < h < groups.len() ==> (#[trigger] groups[h]).tagid != e.tag,
        e.data.len() >= COUNTER_END,
    ensures
        patched_in_groups(groups, e, upto).data.subrange(
            COUNTER_OFFSET as int,
            COUNTER_END as int,
        ) == u32_to_le(groups[g].max),
    decreases upto,
{
    lemma_patched_in_groups(groups, e, upto - 1);
    let before = patched_in_groups(groups, e, upto - 1);
    if upto - 1 == g {
        assert(with_counter(before.data, groups[g].max).subrange(
            COUNTER_OFFSET as int,
            COUNTER_END as int,
        ) =~= u32_to_le(groups[g].max));
    } else {
        lemma_patched_by_last_group(groups, e, g, upto - 1);
        assert(groups[upto - 1].tagid != e.tag);
    }
}

/// Where a record that is kept stands among the records that are kept.
pub open spec fn position_of_survivor(rules: RulesView, entries: Seq<EntryView>, i: int) -> int {
    entries.subrange(0, i).filter(|e: EntryView| survives(rules, entries, e)).len() as int
}

/// A member of a sequence that passes a filter stands in the filtered
/// sequence behind those before it that pass.
pub proof fn lemma_filter_position<A>(s: Seq<A>, pred: spec_fn(A) -> bool, i: int)
    requires
        0 <= i < s.len(),
        pred(s[i]),
    ensures
        s.subrange(0, i).filter(pred).len() < s.filter(pred).len(),
        s.filter(pred)[s.subrange(0, i).filter(pred).len() as int] == s[i],
{
    let before = s.subrange(0, i);
    let one = seq![s[i]];
    let after = s.subrange(i + 1, s.len() as int);
    assert(s =~= before + one + after);
    Seq::filter_distributes_over_add(before + one, after, pred);
    Seq::filter_distributes_over_add(before, one, pred);
    assert(one.filter(pred) =~= one) by {
        reveal(Seq::filter);
        assert(one.drop_last() =~= Seq::<A>::empty());
        assert(one.drop_last().filter(pred) =~= Seq::<A>::empty());
    }
}

/// A record that is kept stands among the records that are kept where
/// `position_of_survivor` says.
pub proof fn lemma_survivor_position(rules: RulesView, entries: Seq<EntryView>, i: int)
    requires
        0 <= i < entries.len(),
        survives(rules, entries, entries[i]),
    ensures
        0 <= position_of_survivor(rules, entries, i) < survivors(rules, entries).len(),
        survivors(rules, entries)[position_of_survivor(rules, entries, i)] == entries[i],
{
    lemma_filter_position(entries, |e: EntryView| survives(rules, entries, e), i);
}

/// When the groups have counted, the tables are those of the rules, and
/// each group holds its highest number.
pub proof fn lemma_counted_same_tables(rules: RulesView, entries: Seq<EntryView>)
    ensures
        same_tables(rules, counted(rules, entries)),
        forall|g: int|
            0 <= g < rules.groups.len() ==> (#[trigger] counted(rules, entries).groups[g]).max
                == highest_number(rules.groups[g], entries),
{
    let after = counted(rules, entries);
    assert forall|g: int|
        #![trigger rules.groups[g]]
        #![trigger after.groups[g]]
        0 <= g < rules.groups.len() implies same_group(rules.groups[g], after.groups[g]) by {
        assert(after.groups[g] == counted_group(rules.groups[g], entries));
    }
    assert forall|g: int| 0 <= g < rules.groups.len() implies (#[trigger] after.groups[g]).max
        == highest_number(rules.groups[g], entries) by {
        assert(after.groups[g] == counted_group(rules.groups[g], entries));
    }
}

/// The repaired store has as many records as are kept.
pub proof fn lemma_cleaned_len(rules: RulesView, entries: Seq<EntryView>)
    ensures
        cleaned(rules, entries).len() == survivors(rules, entries).len(),
{
    let kept = survivors(rules, entries);
    let st0 = Renumbering { entries: kept, rules: counted(rules, kept), known: Seq::empty() };
    lemma_renamed_records_frame(st0, kept.len() as int);
}

/// Protected records are never renumbered. A record that is kept and that
/// the renumbering passes over, because it is protected or because it is a
/// counter record, has in the repaired store the place that it has among
/// the records that are kept, the tag that it had and a payload of the
/// length that it had; unless it is a counter record, it is unchanged.
pub proof fn lemma_skipped_record_keeps_tag(rules: RulesView, entries: Seq<EntryView>, i: int)
    requires
        0 <= i < entries.len(),
        survives(rules, entries, entries[i]),
        is_skipped(rules, entries[i].tag),
    ensures
        ({
            let k = position_of_survivor(rules, entries, i);
            let out = cleaned(rules, entries);
            &&& out.len() == survivors(rules, entries).len()
            &&& 0 <= k < out.len()
            &&& out[k].tag == entries[i].tag
            &&& out[k].data.len() == entries[i].data.len()
            &&& !is_counter_tag(rules.groups, entries[i].tag) ==> out[k] == entries[i]
        }),
{
    let kept = survivors(rules, entries);
    let k = position_of_survivor(rules, entries, i);
    lemma_survivor_position(rules, entries, i);
    let start = counted(rules, kept);
    lemma_counted_same_tables(rules, kept);
    let st0 = Renumbering { entries: kept, rules: start, known: Seq::empty() };
    let st = renumbered(start, kept);
    lemma_renamed_records_frame(st0, kept.len() as int);
    lemma_skipped_same_tables(rules, start, entries[i].tag);
    assert(st.entries[k] == kept[k]);
    lemma_patched_in_groups(st.rules.groups, st.entries[k], st.rules.groups.len() as int);
    lemma_skipped_same_tables(start, st.rules, entries[i].tag);
}

/// An item whose identity is protected is never removed: no record whose
/// identity is on the allowlist, or begins with something on the blocklist,
/// is condemned by any record.
pub proof fn lemma_protected_identity_survives(rules: RulesView, entries: Seq<EntryView>, i: int)
    requires
        0 <= i < entries.len(),
        rules.allowlist.contains(item_identity(entries[i].tag)) || has_prefix_in(
            rules.blocklist,
            item_identity(entries[i].tag),
        ),
    ensures
        survives(rules, entries, entries[i]),
{
    let id = item_identity(entries[i].tag);
    if condemned(rules, entries, id) {
        let j = choose|j: int|
            0 <= j < entries.len() && marks(rules, #[trigger] entries[j]) && item_identity(
                entries[j].tag,
            ) == id;
        if !rules.allowlist.contains(id) {
            let k = choose|k: int|
                0 <= k < rules.blocklist.len() && (#[trigger] rules.blocklist[k]).is_prefix_of(id);
            lemma_digit_run(entries[j].tag);
            assert(rules.blocklist[k].is_prefix_of(entries[j].tag)) by {
                let p = rules.blocklist[k];
                assert(p =~= entries[j].tag.subrange(0, p.len() as int));
            }
        }
    }
}

/// The last of the first `upto` groups that names `tag` as the tag of its
/// counter record, or -1 if none of them does.
pub open spec fn last_group_named(groups: Seq<GroupView>, tag: Seq<u8>, upto: int) -> int
    decreases upto,
{
    if upto <= 0 {
        -1
    } else if groups[upto - 1].tagid == tag {
        upto - 1
    } else {
        last_group_named(groups, tag, upto - 1)
    }
}

/// The group whose highest number the records tagged `tag` hold: the last
/// group of the table that names `tag` as the tag of its counter record.
pub open spec fn counter_group(groups: Seq<GroupView>, tag: Seq<u8>) -> int {
    last_group_named(groups, tag, groups.len() as int)
}

/// `last_group_named` finds the last group that names the tag.
pub proof fn lemma_last_group_named(groups: Seq<GroupView>, tag: Seq<u8>, upto: int)
    requires
        0 <= upto <= groups.len(),
    ensures
        -1 <= last_group_named(groups, tag, upto) < upto,
        last_group_named(groups, tag, upto) >= 0 ==> groups[last_group_named(
            groups,
            tag,
            upto,
        )].tagid == tag,
        forall|h: int|
            last_group_named(groups, tag, upto) < h < upto ==> (#[trigger] groups[h]).tagid != tag,
    decreases upto,
{
    if upto > 0 && groups[upto - 1].tagid != tag {
        lemma_last_group_named(groups, tag, upto - 1);
    }
}

/// The counter record of a group holds the group's highest number, where
/// no later group names the same counter record.
proof fn lemma_counter_of_group(rules: RulesView, entries: Seq<EntryView>, g: int, k: int)
    requires
        0 <= g < rules.groups.len(),
        forall|h: int|
            g < h < rules.groups.len() ==> (#[trigger] rules.groups[h]).tagid
                != rules.groups[g].tagid,
        0 <= k < cleaned(rules, entries).len(),
        cleaned(rules, entries)[k].tag == rules.groups[g].tagid,
        cleaned(rules, entries)[k].data.len() >= COUNTER_END,
    ensures
        u32_from_le(
            cleaned(rules, entries)[k].data.subrange(COUNTER_OFFSET as int, COUNTER_END as int),
        ) == highest_number(rules.groups[g], survivors(rules, entries)) % 0x1_0000_0000,
{
    let kept = survivors(rules, entries);
    let start = counted(rules, kept);
    lemma_counted_same_tables(rules, kept);
    let st0 = Renumbering { entries: kept, rules: start, known: Seq::empty() };
    let st = renumbered(start, kept);
    lemma_renamed_records_frame(st0, kept.len() as int);
    let groups = st.rules.groups;
    let e = st.entries[k];
    lemma_patched_in_groups(groups, e, groups.len() as int);
    assert(groups[g].tagid == rules.groups[g].tagid) by {
        assert(same_group(rules.groups[g], start.groups[g]));
        assert(same_group(start.groups[g], groups[g]));
    }
    assert(groups[g].max == highest_number(rules.groups[g], kept)) by {
        assert(start.groups[g].max == highest_number(rules.groups[g], kept));
        assert(start.groups[g].max == groups[g].max);
    }
    assert forall|h: int| g < h < groups.len() implies (#[trigger] groups[h]).tagid != e.tag by {
        assert(same_group(rules.groups[h], start.groups[h]));
        assert(same_group(start.groups[h], groups[h]));
    }
    lemma_patched_by_last_group(groups, e, g, groups.len() as int);
    lemma_u32_le_roundtrip(groups[g].max);
}

/// The population of a group and its counter. The highest number of a
/// group is the number of its items among the records that are kept, less
/// one where the group has an item numbered zero. In the repaired store,
/// every counter record that is long enough to hold a number holds the
/// highest number of its group, modulo 2^32. Its group is the last of the
/// table that names the record's tag.
pub proof fn lemma_counter_holds_highest_number(
    rules: RulesView,
    entries: Seq<EntryView>,
    k: int,
)
    requires
        0 <= k < cleaned(rules, entries).len(),
        is_counter_tag(rules.groups, cleaned(rules, entries)[k].tag),
        cleaned(rules, entries)[k].data.len() >= COUNTER_END,
    ensures
        ({
            let g = counter_group(rules.groups, cleaned(rules, entries)[k].tag);
            let kept = survivors(rules, entries);
            let items = population(rules.groups[g], kept);
            &&& 0 <= g < rules.groups.len()
            &&& rules.groups[g].tagid == cleaned(rules, entries)[k].tag
            &&& items == if rules.groups[g].has_default_zero_item && items >= 1 {
                highest_number(rules.groups[g], kept) + 1
            } else {
                highest_number(rules.groups[g], kept)
            }
            &&& u32_from_le(
                cleaned(rules, entries)[k].data.subrange(COUNTER_OFFSET as int, COUNTER_END as int),
            ) == highest_number(rules.groups[g], kept) % 0x1_0000_0000
        }),
{
    let tag = cleaned(rules, entries)[k].tag;
    let g = counter_group(rules.groups, tag);
    lemma_last_group_named(rules.groups, tag, rules.groups.len() as int);
    if g < 0 {
        let h = choose|h: int|
            0 <= h < rules.groups.len() && (#[trigger] rules.groups[h]).tagid == tag;
        assert(rules.groups[h].tagid != tag);
    }
    lemma_counter_of_group(rules, entries, g, k);
}

} // verus!
