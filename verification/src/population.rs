//! The renumbering changes the number of an item and nothing else of its
//! tags: the items of a group whose prefix holds no digit are as many after
//! it as before.

use crate::bytes::u32_from_le;
use crate::engine::{
    cleaned, counted, counts_for, highest_number, is_counter_tag, lookup, population,
    renamed_in_group, renamed_in_groups, renamed_records, renumbered, survivors, transform,
    COUNTER_END, COUNTER_OFFSET, Renumbering,
};
use crate::entry::EntryView;
use crate::laws::{
    counter_group, lemma_counted_same_tables, lemma_counter_holds_highest_number,
    lemma_patched_in_groups, lemma_renamed_in_groups_frame, lemma_renamed_record_frame,
    lemma_renamed_records_frame, lemma_skipped_same_tables,
};
use crate::renaming::{alike, lemma_replaced_alike, lemma_with_number_alike};
use crate::rules::RulesView;
use crate::siblings::{
    all_renumber, lemma_lookup_renumbers, lemma_renamed_in_groups_known,
    lemma_renamed_record_known,
};
use crate::tag::{item_identity, lemma_prefix_of_stem, lemma_stem_holds_prefix};
use crate::text::digit_free;
use vstd::prelude::*;
use vstd::string::is_ascii_spec_bytes;

verus! {

/// A group leaves a record the stem and the ending that its tag had.
pub proof fn lemma_renamed_in_group_alike(st: Renumbering, i: int, g: int, ending: Seq<u8>)
    requires
        0 <= i < st.entries.len(),
        0 <= g < st.rules.groups.len(),
        all_renumber(st.known),
        digit_free(ending),
    ensures
        alike(st.entries[i].tag, renamed_in_group(st, i, g).entries[i].tag, ending),
{
    let tag = st.entries[i].tag;
    let id = item_identity(tag);
    if st.rules.groups[g].tagname.is_prefix_of(tag) {
        match lookup(st.known, id) {
            Some(newid) => {
                lemma_lookup_renumbers(st.known, id);
                lemma_replaced_alike(tag, newid, ending);
            },
            None => {
                lemma_with_number_alike(tag, st.rules.groups[g].count, ending);
            },
        }
    }
}

/// Groups leave a record the stem and the ending that its tag had.
pub proof fn lemma_renamed_in_groups_alike(st: Renumbering, i: int, upto: int, ending: Seq<u8>)
    requires
        0 <= i < st.entries.len(),
        0 <= upto <= st.rules.groups.len(),
        all_renumber(st.known),
        digit_free(ending),
    ensures
        alike(st.entries[i].tag, renamed_in_groups(st, i, upto).entries[i].tag, ending),
    decreases upto,
{
    if upto > 0 {
        let before = renamed_in_groups(st, i, upto - 1);
        lemma_renamed_in_groups_alike(st, i, upto - 1, ending);
        lemma_renamed_in_groups_frame(st, i, upto - 1);
        lemma_renamed_in_groups_known(st, i, upto - 1);
        lemma_renamed_in_group_alike(before, i, upto - 1, ending);
    }
}

/// The renumbering leaves each record the stem and the ending that its tag
/// had.
pub proof fn lemma_renamed_records_alike(st: Renumbering, upto: int, ending: Seq<u8>)
    requires
        0 <= upto <= st.entries.len(),
        all_renumber(st.known),
        digit_free(ending),
    ensures
        all_renumber(renamed_records(st, upto).known),
        renamed_records(st, upto).entries.len() == st.entries.len(),
        forall|j: int|
            0 <= j < st.entries.len() ==> alike(
                st.entries[j].tag,
                (#[trigger] renamed_records(st, upto).entries[j]).tag,
                ending,
            ),
    decreases upto,
{
    if upto > 0 {
        let i = upto - 1;
        let before = renamed_records(st, i);
        let after = renamed_records(st, upto);
        lemma_renamed_records_alike(st, i, ending);
        lemma_renamed_records_frame(st, i);
        lemma_renamed_record_frame(before, i);
        lemma_renamed_record_known(before, i);
        lemma_renamed_in_groups_alike(before, i, before.rules.groups.len() as int, ending);
        assert forall|j: int| 0 <= j < st.entries.len() implies alike(
            st.entries[j].tag,
            (#[trigger] after.entries[j]).tag,
            ending,
        ) by {
            assert(alike(st.entries[j].tag, before.entries[j].tag, ending));
            if j != i {
                assert(after.entries[j] == before.entries[j]);
            }
        }
    }
}

/// The ending `Transform` holds no digit.
pub proof fn lemma_transform()
    ensures
        digit_free(transform()),
{
    reveal_strlit("Transform");
    is_ascii_spec_bytes("Transform");
}

/// Sequences of one length whose members pass two filters alike have as
/// many members that pass.
pub proof fn lemma_filter_alike<A>(
    a: Seq<A>,
    b: Seq<A>,
    pass_a: spec_fn(A) -> bool,
    pass_b: spec_fn(A) -> bool,
)
    requires
        a.len() == b.len(),
        forall|j: int| 0 <= j < a.len() ==> pass_a(#[trigger] a[j]) == pass_b(b[j]),
    ensures
        a.filter(pass_a).len() == b.filter(pass_b).len(),
    decreases a.len(),
{
    reveal(Seq::filter);
    if a.len() > 0 {
        let a0 = a.drop_last();
        let b0 = b.drop_last();
        assert forall|j: int| 0 <= j < a0.len() implies pass_a(#[trigger] a0[j]) == pass_b(
            b0[j],
        ) by {
            assert(a0[j] == a[j]);
        }
        lemma_filter_alike(a0, b0, pass_a, pass_b);
        assert(pass_a(a[a.len() - 1]) == pass_b(b[a.len() - 1]));
    }
}

/// The population of a group after the repair. A group whose prefix holds
/// no digit has as many items in the repaired store as among the records
/// that are kept: the renumbering takes no record from the group and gives
/// it none.
pub proof fn lemma_population_is_kept(rules: RulesView, entries: Seq<EntryView>, g: int)
    requires
        0 <= g < rules.groups.len(),
        digit_free(rules.groups[g].tagname),
    ensures
        population(rules.groups[g], cleaned(rules, entries)) == population(
            rules.groups[g],
            survivors(rules, entries),
        ),
{
    let group = rules.groups[g];
    let kept = survivors(rules, entries);
    let start = counted(rules, kept);
    let st0 = Renumbering { entries: kept, rules: start, known: Seq::empty() };
    let st = renumbered(start, kept);
    let out = cleaned(rules, entries);
    lemma_transform();
    lemma_renamed_records_alike(st0, kept.len() as int, transform());
    assert forall|j: int| 0 <= j < out.len() implies counts_for(group, #[trigger] out[j])
        == counts_for(group, kept[j]) by {
        lemma_patched_in_groups(st.rules.groups, st.entries[j], st.rules.groups.len() as int);
        assert(out[j].tag == st.entries[j].tag);
        assert(alike(kept[j].tag, st.entries[j].tag, transform()));
        if group.tagname.is_prefix_of(kept[j].tag) {
            lemma_stem_holds_prefix(kept[j].tag, group.tagname);
            lemma_prefix_of_stem(out[j].tag, group.tagname);
        }
        if group.tagname.is_prefix_of(out[j].tag) {
            lemma_stem_holds_prefix(out[j].tag, group.tagname);
            lemma_prefix_of_stem(kept[j].tag, group.tagname);
        }
    }
    lemma_filter_alike(
        out,
        kept,
        |e: EntryView| counts_for(group, e),
        |e: EntryView| counts_for(group, e),
    );
}

/// The group population invariant. In the repaired store, the items of a
/// group whose prefix holds no digit are as many as the group's highest
/// number says: one more than it where the group has an item numbered zero
/// and any item at all, else as many as it. Every counter record of the
/// group that is long enough to hold a number holds the highest number,
/// modulo 2^32.
pub proof fn lemma_group_population(rules: RulesView, entries: Seq<EntryView>, g: int, k: int)
    requires
        0 <= g < rules.groups.len(),
        digit_free(rules.groups[g].tagname),
        0 <= k < cleaned(rules, entries).len(),
        is_counter_tag(rules.groups, cleaned(rules, entries)[k].tag),
        counter_group(rules.groups, cleaned(rules, entries)[k].tag) == g,
        cleaned(rules, entries)[k].data.len() >= COUNTER_END,
    ensures
        ({
            let items = population(rules.groups[g], cleaned(rules, entries));
            let highest = highest_number(rules.groups[g], survivors(rules, entries));
            &&& items == if rules.groups[g].has_default_zero_item && items >= 1 {
                highest + 1
            } else {
                highest
            }
            &&& u32_from_le(
                cleaned(rules, entries)[k].data.subrange(COUNTER_OFFSET as int, COUNTER_END as int),
            ) == highest % 0x1_0000_0000
        }),
{
    lemma_population_is_kept(rules, entries, g);
    lemma_counter_holds_highest_number(rules, entries, k);
}

/// The repair adds no record and moves none. Of a record that is kept it
/// changes at most the number in the tag: the tag keeps its stem, and every
/// ending that holds no digit. The payload keeps its length and all of its
/// bytes but those of the highest number, and these too unless the record
/// is a counter record.
pub proof fn lemma_repair_keeps_records(
    rules: RulesView,
    entries: Seq<EntryView>,
    k: int,
    ending: Seq<u8>,
)
    requires
        0 <= k < survivors(rules, entries).len(),
        digit_free(ending),
    ensures
        ({
            let kept = survivors(rules, entries);
            let out = cleaned(rules, entries);
            &&& out.len() == kept.len()
            &&& alike(kept[k].tag, out[k].tag, ending)
            &&& out[k].data.len() == kept[k].data.len()
            &&& forall|j: int|
                0 <= j < kept[k].data.len() && !(COUNTER_OFFSET <= j < COUNTER_END)
                    ==> out[k].data[j] == kept[k].data[j]
            &&& !is_counter_tag(rules.groups, out[k].tag) ==> out[k].data == kept[k].data
        }),
{
    let kept = survivors(rules, entries);
    let start = counted(rules, kept);
    let st0 = Renumbering { entries: kept, rules: start, known: Seq::empty() };
    let st = renumbered(start, kept);
    lemma_counted_same_tables(rules, kept);
    lemma_renamed_records_alike(st0, kept.len() as int, ending);
    lemma_renamed_records_frame(st0, kept.len() as int);
    lemma_patched_in_groups(st.rules.groups, st.entries[k], st.rules.groups.len() as int);
    lemma_skipped_same_tables(rules, start, st.entries[k].tag);
    lemma_skipped_same_tables(start, st.rules, st.entries[k].tag);
    assert(st.entries[k].data == kept[k].data);
}

} // verus!
