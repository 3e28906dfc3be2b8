//! The records of one item are renumbered alike: what the first of them is
//! given, the others follow.

use crate::engine::{
    cleaned, counted, is_skipped, lookup, lookup_from, renamed_in_group, renamed_in_groups,
    renamed_record, renamed_records, renumbered, survivors, IdentityMappingView, Renumbering,
};
use crate::entry::EntryView;
use crate::laws::{
    lemma_counted_same_tables, lemma_patched_in_groups, lemma_renamed_in_groups_frame,
    lemma_renamed_record_frame, lemma_renamed_records_frame, lemma_skipped_same_tables, same_group,
    same_tables,
};
use crate::renaming::{lemma_replaced_identity, lemma_with_number, renumbers};
use crate::rules::{GroupView, RulesView};
use crate::tag::{
    item_identity, lemma_identity_shape, lemma_spraycan_identity, spraycan, stem, with_number,
};
use crate::text::replaced;
use vstd::prelude::*;

verus! {

/// Every mapping gives an identity another number.
pub open spec fn all_renumber(known: Seq<IdentityMappingView>) -> bool {
    forall|m: int|
        0 <= m < known.len() ==> renumbers((#[trigger] known[m]).oldid, known[m].newid)
}

/// What `before` knows, `after` knows too.
pub open spec fn knows_more(
    before: Seq<IdentityMappingView>,
    after: Seq<IdentityMappingView>,
) -> bool {
    forall|id: Seq<u8>| #[trigger]
        lookup(before, id) is Some ==> lookup(after, id) == lookup(before, id)
}

/// No group but `g` takes a tag whose stem is `of`.
pub open spec fn takes_alone(groups: Seq<GroupView>, of: Seq<u8>, g: int) -> bool {
    forall|h: int, tag: Seq<u8>|
        0 <= h < groups.len() && h != g && stem(tag) == of ==> !(
        #[trigger] groups[h].tagname.is_prefix_of(tag))
}

/// No group takes the tag.
pub open spec fn untaken(groups: Seq<GroupView>, tag: Seq<u8>) -> bool {
    forall|h: int| 0 <= h < groups.len() ==> !(#[trigger] groups[h]).tagname.is_prefix_of(tag)
}

/// What a lookup finds is the new identity of a mapping for the identity
/// looked up.
proof fn lemma_lookup_from_found(known: Seq<IdentityMappingView>, id: Seq<u8>, k: int)
    requires
        0 <= k,
        lookup_from(known, id, k) is Some,
    ensures
        exists|m: int|
            k <= m < known.len() && (#[trigger] known[m]).oldid == id && known[m].newid
                == lookup_from(known, id, k)->Some_0,
    decreases known.len() - k,
{
    if k < known.len() {
        if known[k].oldid == id {
            assert(known[k].newid == lookup_from(known, id, k)->Some_0);
        } else {
            lemma_lookup_from_found(known, id, k + 1);
        }
    }
}

/// What is looked up among mappings that renumber is the identity with
/// another number.
pub proof fn lemma_lookup_renumbers(known: Seq<IdentityMappingView>, id: Seq<u8>)
    requires
        all_renumber(known),
        lookup(known, id) is Some,
    ensures
        renumbers(id, lookup(known, id)->Some_0),
{
    lemma_lookup_from_found(known, id, 0);
    let m = choose|m: int|
        0 <= m < known.len() && (#[trigger] known[m]).oldid == id && known[m].newid == lookup(
            known,
            id,
        )->Some_0;
    assert(renumbers(known[m].oldid, known[m].newid));
}

/// A mapping that is added is found only where none was found before.
proof fn lemma_lookup_from_push(
    known: Seq<IdentityMappingView>,
    mapping: IdentityMappingView,
    id: Seq<u8>,
    k: int,
)
    requires
        0 <= k <= known.len(),
    ensures
        lookup_from(known.push(mapping), id, k) == if lookup_from(known, id, k) is Some {
            lookup_from(known, id, k)
        } else if mapping.oldid == id {
            Some(mapping.newid)
        } else {
            None
        },
    decreases known.len() - k,
{
    let more = known.push(mapping);
    if k < known.len() {
        assert(more[k] == known[k]);
        if known[k].oldid != id {
            lemma_lookup_from_push(known, mapping, id, k + 1);
        }
    } else {
        assert(more[k] == mapping);
        assert(lookup_from(more, id, k + 1) is None);
    }
}

/// A mapping that is added changes nothing that was known.
pub proof fn lemma_lookup_push(known: Seq<IdentityMappingView>, mapping: IdentityMappingView)
    ensures
        knows_more(known, known.push(mapping)),
        lookup(known, mapping.oldid) is None ==> lookup(known.push(mapping), mapping.oldid)
            == Some(mapping.newid),
{
    assert forall|id: Seq<u8>| #[trigger] lookup(known, id) is Some implies lookup(
        known.push(mapping),
        id,
    ) == lookup(known, id) by {
        lemma_lookup_from_push(known, mapping, id, 0);
    }
    lemma_lookup_from_push(known, mapping, mapping.oldid, 0);
}

/// A group adds at most a mapping that renumbers, and changes nothing that
/// was known.
pub proof fn lemma_renamed_in_group_known(st: Renumbering, i: int, g: int)
    requires
        0 <= i < st.entries.len(),
        0 <= g < st.rules.groups.len(),
        all_renumber(st.known),
    ensures
        all_renumber(renamed_in_group(st, i, g).known),
        knows_more(st.known, renamed_in_group(st, i, g).known),
{
    let tag = st.entries[i].tag;
    let after = renamed_in_group(st, i, g);
    if st.rules.groups[g].tagname.is_prefix_of(tag) && lookup(st.known, item_identity(tag))
        is None {
        let renamed = with_number(tag, st.rules.groups[g].count);
        let mapping = IdentityMappingView {
            oldid: item_identity(tag),
            newid: item_identity(renamed),
        };
        lemma_with_number(tag, st.rules.groups[g].count);
        lemma_lookup_push(st.known, mapping);
        assert(after.known == st.known.push(mapping));
        assert forall|m: int| 0 <= m < after.known.len() implies renumbers(
            (#[trigger] after.known[m]).oldid,
            after.known[m].newid,
        ) by {
            if m < st.known.len() {
                assert(after.known[m] == st.known[m]);
            }
        }
    }
}

/// Groups add mappings that renumber, and change nothing that was known.
pub proof fn lemma_renamed_in_groups_known(st: Renumbering, i: int, upto: int)
    requires
        0 <= i < st.entries.len(),
        0 <= upto <= st.rules.groups.len(),
        all_renumber(st.known),
    ensures
        all_renumber(renamed_in_groups(st, i, upto).known),
        knows_more(st.known, renamed_in_groups(st, i, upto).known),
    decreases upto,
{
    if upto > 0 {
        let before = renamed_in_groups(st, i, upto - 1);
        lemma_renamed_in_groups_known(st, i, upto - 1);
        lemma_renamed_in_groups_frame(st, i, upto - 1);
        lemma_renamed_in_group_known(before, i, upto - 1);
        let after = renamed_in_groups(st, i, upto);
        assert forall|id: Seq<u8>| #[trigger] lookup(st.known, id) is Some implies lookup(
            after.known,
            id,
        ) == lookup(st.known, id) by {
            assert(lookup(before.known, id) == lookup(st.known, id));
            assert(lookup(before.known, id) is Some);
        }
    }
}

/// The renumbering of a record adds mappings that renumber, and changes
/// nothing that was known.
pub proof fn lemma_renamed_record_known(st: Renumbering, i: int)
    requires
        0 <= i < st.entries.len(),
        all_renumber(st.known),
    ensures
        all_renumber(renamed_record(st, i).known),
        knows_more(st.known, renamed_record(st, i).known),
{
    lemma_renamed_in_groups_known(st, i, st.rules.groups.len() as int);
}

/// Groups that do not take a record leave everything as it is.
pub proof fn lemma_renamed_in_groups_untaken(st: Renumbering, i: int, upto: int)
    requires
        0 <= i < st.entries.len(),
        0 <= upto <= st.rules.groups.len(),
        forall|h: int|
            0 <= h < upto ==> !(#[trigger] st.rules.groups[h]).tagname.is_prefix_of(
                st.entries[i].tag,
            ),
    ensures
        renamed_in_groups(st, i, upto) == st,
    decreases upto,
{
    if upto > 0 {
        lemma_renamed_in_groups_untaken(st, i, upto - 1);
        assert(!st.rules.groups[upto - 1].tagname.is_prefix_of(st.entries[i].tag));
    }
}

/// Groups that follow the one group which takes a record, and do not take
/// what it made of the record, leave everything as that group left it.
pub proof fn lemma_renamed_in_groups_after(st: Renumbering, i: int, g: int, upto: int)
    requires
        0 <= i < st.entries.len(),
        0 <= g < upto <= st.rules.groups.len(),
        forall|h: int|
            g < h < upto ==> !(#[trigger] st.rules.groups[h]).tagname.is_prefix_of(
                renamed_in_groups(st, i, g + 1).entries[i].tag,
            ),
    ensures
        renamed_in_groups(st, i, upto) == renamed_in_groups(st, i, g + 1),
    decreases upto,
{
    if upto > g + 1 {
        lemma_renamed_in_groups_after(st, i, g, upto - 1);
        let taken = renamed_in_groups(st, i, g + 1);
        lemma_renamed_in_groups_frame(st, i, g + 1);
        assert(same_group(st.rules.groups[upto - 1], taken.rules.groups[upto - 1]));
        assert(!st.rules.groups[upto - 1].tagname.is_prefix_of(taken.entries[i].tag));
    }
}

/// The group that takes a record gives it the identity that is then known
/// for the identity it had, and leaves it its stem.
pub proof fn lemma_renamed_in_group_taken(st: Renumbering, i: int, g: int)
    requires
        0 <= i < st.entries.len(),
        0 <= g < st.rules.groups.len(),
        all_renumber(st.known),
        st.rules.groups[g].tagname.is_prefix_of(st.entries[i].tag),
        !spraycan().is_prefix_of(st.entries[i].tag),
    ensures
        lookup(renamed_in_group(st, i, g).known, item_identity(st.entries[i].tag)) == Some(
            item_identity(renamed_in_group(st, i, g).entries[i].tag),
        ),
        stem(renamed_in_group(st, i, g).entries[i].tag) == stem(st.entries[i].tag),
{
    let tag = st.entries[i].tag;
    let id = item_identity(tag);
    let after = renamed_in_group(st, i, g);
    match lookup(st.known, id) {
        Some(newid) => {
            lemma_lookup_renumbers(st.known, id);
            lemma_replaced_identity(tag, newid);
            assert(after.entries[i].tag == replaced(tag, id, newid));
        },
        None => {
            let renamed = with_number(tag, st.rules.groups[g].count);
            let mapping = IdentityMappingView { oldid: id, newid: item_identity(renamed) };
            lemma_with_number(tag, st.rules.groups[g].count);
            lemma_lookup_push(st.known, mapping);
            assert(after.known == st.known.push(mapping));
            assert(after.entries[i].tag == renamed);
        },
    }
}

/// A record that one group alone takes is given the identity that is then
/// known for the identity it had.
pub proof fn lemma_renamed_record_taken(st: Renumbering, i: int, g: int)
    requires
        0 <= i < st.entries.len(),
        0 <= g < st.rules.groups.len(),
        all_renumber(st.known),
        !is_skipped(st.rules, st.entries[i].tag),
        st.rules.groups[g].tagname.is_prefix_of(st.entries[i].tag),
        !spraycan().is_prefix_of(st.entries[i].tag),
        takes_alone(st.rules.groups, stem(st.entries[i].tag), g),
    ensures
        lookup(renamed_record(st, i).known, item_identity(st.entries[i].tag)) == Some(
            item_identity(renamed_record(st, i).entries[i].tag),
        ),
{
    let tag = st.entries[i].tag;
    let groups = st.rules.groups;
    assert forall|h: int| 0 <= h < g implies !(#[trigger] groups[h]).tagname.is_prefix_of(tag) by {
        assert(stem(tag) == stem(tag));
    }
    lemma_renamed_in_groups_untaken(st, i, g);
    let taken = renamed_in_groups(st, i, g + 1);
    assert(taken == renamed_in_group(st, i, g));
    lemma_renamed_in_group_taken(st, i, g);
    assert forall|h: int| g < h < groups.len() implies !(#[trigger] groups[h]).tagname.is_prefix_of(
        taken.entries[i].tag,
    ) by {
        assert(stem(taken.entries[i].tag) == stem(tag));
    }
    lemma_renamed_in_groups_after(st, i, g, groups.len() as int);
}

/// Which tags no group takes does not depend on the numbers of the groups.
pub proof fn lemma_untaken_same_tables(a: RulesView, b: RulesView, tag: Seq<u8>)
    requires
        same_tables(a, b),
        untaken(a.groups, tag),
    ensures
        untaken(b.groups, tag),
{
    assert forall|h: int| 0 <= h < b.groups.len() implies !(
    #[trigger] b.groups[h]).tagname.is_prefix_of(tag) by {
        assert(same_group(a.groups[h], b.groups[h]));
    }
}

/// A record that no group takes stays as it is.
pub proof fn lemma_renamed_record_untaken(st: Renumbering, i: int)
    requires
        0 <= i < st.entries.len(),
        untaken(st.rules.groups, st.entries[i].tag),
    ensures
        renamed_record(st, i) == st,
{
    lemma_renamed_in_groups_untaken(st, i, st.rules.groups.len() as int);
}

/// The record is one of those of the item `id` that the group `g` takes and
/// the renumbering does not pass over.
pub open spec fn taken_for(rules: RulesView, g: int, id: Seq<u8>, tag: Seq<u8>) -> bool {
    item_identity(tag) == id && !is_skipped(rules, tag) && rules.groups[g].tagname.is_prefix_of(
        tag,
    )
}

/// After the renumbering of the first `upto` records, each of them that
/// belongs to the item `id` and was taken by the group `g` has the identity
/// that is known for `id`.
pub proof fn lemma_renamed_records_settle(st: Renumbering, id: Seq<u8>, g: int, upto: int)
    requires
        0 <= upto <= st.entries.len(),
        0 <= g < st.rules.groups.len(),
        all_renumber(st.known),
        !spraycan().is_prefix_of(id),
        takes_alone(st.rules.groups, stem(id), g),
    ensures
        all_renumber(renamed_records(st, upto).known),
        knows_more(st.known, renamed_records(st, upto).known),
        forall|j: int|
            0 <= j < upto && taken_for(st.rules, g, id, #[trigger] st.entries[j].tag) ==> lookup(
                renamed_records(st, upto).known,
                id,
            ) == Some(item_identity(renamed_records(st, upto).entries[j].tag)),
    decreases upto,
{
    if upto > 0 {
        let i = upto - 1;
        let before = renamed_records(st, i);
        let after = renamed_records(st, upto);
        lemma_renamed_records_settle(st, id, g, i);
        lemma_renamed_records_frame(st, i);
        lemma_renamed_record_frame(before, i);
        lemma_renamed_record_known(before, i);
        assert forall|x: Seq<u8>| #[trigger] lookup(st.known, x) is Some implies lookup(
            after.known,
            x,
        ) == lookup(st.known, x) by {
            assert(lookup(before.known, x) == lookup(st.known, x));
            assert(lookup(before.known, x) is Some);
        }
        let tag = st.entries[i].tag;
        assert(before.entries[i] == st.entries[i]);
        if taken_for(st.rules, g, id, tag) {
            lemma_skipped_same_tables(st.rules, before.rules, tag);
            assert(same_group(st.rules.groups[g], before.rules.groups[g]));
            lemma_spraycan_identity(tag);
            lemma_identity_shape(tag);
            assert(takes_alone(before.rules.groups, stem(tag), g)) by {
                assert forall|h: int, t: Seq<u8>|
                    0 <= h < before.rules.groups.len() && h != g && stem(t) == stem(
                        tag,
                    ) implies !(#[trigger] before.rules.groups[h].tagname.is_prefix_of(t)) by {
                    assert(same_group(st.rules.groups[h], before.rules.groups[h]));
                    assert(!st.rules.groups[h].tagname.is_prefix_of(t));
                }
            }
            lemma_renamed_record_taken(before, i, g);
        }
        assert forall|j: int|
            0 <= j < upto && taken_for(
                st.rules,
                g,
                id,
                #[trigger] st.entries[j].tag,
            ) implies lookup(after.known, id) == Some(item_identity(after.entries[j].tag)) by {
            if j < i {
                assert(after.entries[j] == before.entries[j]);
                assert(lookup(before.known, id) is Some);
            }
        }
    }
}

/// After the renumbering of the first `upto` records, each of them that no
/// group takes is as it was.
pub proof fn lemma_renamed_records_untaken(st: Renumbering, upto: int)
    requires
        0 <= upto <= st.entries.len(),
    ensures
        forall|j: int|
            0 <= j < upto && untaken(st.rules.groups, st.entries[j].tag)
                ==> #[trigger] renamed_records(st, upto).entries[j] == st.entries[j],
    decreases upto,
{
    if upto > 0 {
        let i = upto - 1;
        let before = renamed_records(st, i);
        let after = renamed_records(st, upto);
        lemma_renamed_records_untaken(st, i);
        lemma_renamed_records_frame(st, i);
        lemma_renamed_record_frame(before, i);
        assert forall|j: int|
            0 <= j < upto && untaken(
                st.rules.groups,
                st.entries[j].tag,
            ) implies #[trigger] after.entries[j] == st.entries[j] by {
            if j < i {
                assert(after.entries[j] == before.entries[j]);
            } else {
                assert(before.entries[i] == st.entries[i]);
                lemma_untaken_same_tables(st.rules, before.rules, st.entries[i].tag);
                lemma_renamed_record_untaken(before, i);
            }
        }
    }
}

/// Sibling consistency. Two records of one item that are kept, neither of
/// which the renumbering passes over, have one identity in the repaired
/// store too: they carry the same number. This is said of an item whose tags
/// do not begin with `spraycan`, whose records no group but `g` can take,
/// and of two records which that group takes both or neither.
pub proof fn lemma_siblings_share_number(
    rules: RulesView,
    entries: Seq<EntryView>,
    a: int,
    b: int,
    g: int,
)
    requires
        0 <= a < survivors(rules, entries).len(),
        0 <= b < survivors(rules, entries).len(),
        item_identity(survivors(rules, entries)[a].tag) == item_identity(
            survivors(rules, entries)[b].tag,
        ),
        !is_skipped(rules, survivors(rules, entries)[a].tag),
        !is_skipped(rules, survivors(rules, entries)[b].tag),
        !spraycan().is_prefix_of(survivors(rules, entries)[a].tag),
        takes_alone(rules.groups, stem(survivors(rules, entries)[a].tag), g),
        0 <= g < rules.groups.len() ==> (rules.groups[g].tagname.is_prefix_of(
            survivors(rules, entries)[a].tag,
        ) <==> rules.groups[g].tagname.is_prefix_of(survivors(rules, entries)[b].tag)),
    ensures
        cleaned(rules, entries).len() == survivors(rules, entries).len(),
        item_identity(cleaned(rules, entries)[a].tag) == item_identity(
            cleaned(rules, entries)[b].tag,
        ),
{
    let kept = survivors(rules, entries);
    let id = item_identity(kept[a].tag);
    let start = counted(rules, kept);
    lemma_counted_same_tables(rules, kept);
    let st0 = Renumbering { entries: kept, rules: start, known: Seq::empty() };
    let st = renumbered(start, kept);
    let n = kept.len() as int;
    lemma_renamed_records_frame(st0, n);
    lemma_patched_in_groups(st.rules.groups, st.entries[a], st.rules.groups.len() as int);
    lemma_patched_in_groups(st.rules.groups, st.entries[b], st.rules.groups.len() as int);
    assert(cleaned(rules, entries)[a].tag == st.entries[a].tag);
    assert(cleaned(rules, entries)[b].tag == st.entries[b].tag);
    lemma_identity_shape(kept[a].tag);
    lemma_identity_shape(kept[b].tag);
    lemma_spraycan_identity(kept[a].tag);
    lemma_skipped_same_tables(rules, start, kept[a].tag);
    lemma_skipped_same_tables(rules, start, kept[b].tag);
    assert(takes_alone(start.groups, stem(id), g)) by {
        assert forall|h: int, t: Seq<u8>|
            0 <= h < start.groups.len() && h != g && stem(t) == stem(id) implies !(
        #[trigger] start.groups[h].tagname.is_prefix_of(t)) by {
            assert(same_group(rules.groups[h], start.groups[h]));
            assert(!rules.groups[h].tagname.is_prefix_of(t));
        }
    }
    if 0 <= g < rules.groups.len() && rules.groups[g].tagname.is_prefix_of(kept[a].tag) {
        assert(same_group(rules.groups[g], start.groups[g]));
        lemma_renamed_records_settle(st0, id, g, n);
        assert(taken_for(start, g, id, st0.entries[a].tag));
        assert(taken_for(start, g, id, st0.entries[b].tag));
    } else {
        lemma_renamed_records_untaken(st0, n);
        assert(untaken(rules.groups, kept[a].tag) && untaken(rules.groups, kept[b].tag)) by {
            assert forall|h: int| 0 <= h < rules.groups.len() && h != g implies !(
            #[trigger] rules.groups[h]).tagname.is_prefix_of(kept[a].tag)
                && !rules.groups[h].tagname.is_prefix_of(kept[b].tag) by {
                assert(!rules.groups[h].tagname.is_prefix_of(kept[a].tag));
                assert(!rules.groups[h].tagname.is_prefix_of(kept[b].tag));
            }
        }
        lemma_untaken_same_tables(rules, start, kept[a].tag);
        lemma_untaken_same_tables(rules, start, kept[b].tag);
        assert(st.entries[a] == st0.entries[a]);
        assert(st.entries[b] == st0.entries[b]);
    }
}

} // verus!
