//! The passes of a repair. The first removes the items that lie in the
//! landfill. The others give the items of each group that are left the
//! numbers from the group's highest number down, in the order of their
//! records, and write the highest number into the group's counter record.

use crate::bytes::{mk_u32_le, u32_to_le};
use crate::entry::{Entry, EntryView};
use crate::landfill::{in_landfill, is_in_landfill};
use crate::rules::{standard_rules, Group, GroupView, Rules, RulesView};
use crate::tag::{get_item_id, item_identity, tag_set_new_count, with_number};
use crate::text::{
    any_prefix_of, bytes_eq, ends_with, has_prefix_in, list_contains, replace_all, replaced,
    starts_with, texts,
};
use vstd::prelude::*;
use vstd::string::StringSliceAdditionalSpecFns;

verus! {

/// The record condemns its item: it places the item in the landfill, the
/// identity of the item is not on the allowlist, and the tag begins with
/// nothing on the blocklist.
pub open spec fn marks(rules: RulesView, e: EntryView) -> bool {
    in_landfill(e.data) && !rules.allowlist.contains(item_identity(e.tag)) && !has_prefix_in(
        rules.blocklist,
        e.tag,
    )
}

/// One of the first `upto` records condemns the item `id`.
pub open spec fn condemned_within(
    rules: RulesView,
    entries: Seq<EntryView>,
    upto: int,
    id: Seq<u8>,
) -> bool {
    exists|j: int|
        0 <= j < upto && j < entries.len() && marks(rules, #[trigger] entries[j]) && item_identity(
            entries[j].tag,
        ) == id
}

/// The item `id` is removed: one of its records condemns it.
pub open spec fn condemned(rules: RulesView, entries: Seq<EntryView>, id: Seq<u8>) -> bool {
    condemned_within(rules, entries, entries.len() as int, id)
}

/// The record is kept: no record condemns its item.
pub open spec fn survives(rules: RulesView, entries: Seq<EntryView>, e: EntryView) -> bool {
    !condemned(rules, entries, item_identity(e.tag))
}

/// The records that are kept, in their order.
pub open spec fn survivors(rules: RulesView, entries: Seq<EntryView>) -> Seq<EntryView> {
    entries.filter(|e: EntryView| survives(rules, entries, e))
}

/// Whether the record condemns its item, whose identity is `id`.
fn entry_marks(e: &Entry, id: &Vec<u8>, rules: &Rules) -> (r: bool)
    requires
        id@ == item_identity(e@.tag),
    ensures
        r == marks(rules@, e@),
{
    is_in_landfill(e) && !list_contains(&rules.allowlist, id.as_slice()) && !any_prefix_of(
        &rules.blocklist,
        e.tag.as_slice(),
    )
}

/// The identities of the items that lie in the landfill and are not
/// protected.
fn landfill_identities(entries: &Vec<Entry>, rules: &Rules) -> (located: Vec<Vec<u8>>)
    ensures
        forall|id: Seq<u8>| #[trigger]
            texts(located@).contains(id) <==> condemned(rules@, entries.deep_view(), id),
{
    let mut located: Vec<Vec<u8>> = Vec::new();
    let ghost all = entries.deep_view();
    let mut i: usize = 0;
    while i < entries.len()
        invariant
            i <= entries.len(),
            all == entries.deep_view(),
            forall|k: int|
                0 <= k < located.len() ==> condemned_within(
                    rules@,
                    all,
                    i as int,
                    #[trigger] texts(located@)[k],
                ),
            forall|j: int|
                0 <= j < i && marks(rules@, #[trigger] all[j]) ==> texts(located@).contains(
                    item_identity(all[j].tag),
                ),
        decreases entries.len() - i,
    {
        let e = &entries[i];
        let itemid = get_item_id(&e.tag);
        let ghost before = texts(located@);
        if entry_marks(e, &itemid, rules) {
            located.push(itemid);
            proof {
                assert(texts(located@) =~= before.push(item_identity(all[i as int].tag)));
                assert forall|j: int|
                    0 <= j < i + 1 && marks(rules@, #[trigger] all[j]) implies texts(
                    located@,
                ).contains(item_identity(all[j].tag)) by {
                    if j < i {
                        let k = choose|k: int|
                            0 <= k < before.len() && before[k] == item_identity(all[j].tag);
                        assert(texts(located@)[k] == item_identity(all[j].tag));
                    } else {
                        assert(texts(located@)[before.len() as int] == item_identity(
                            all[j].tag,
                        ));
                    }
                }
            }
        }
        i += 1;
    }
    proof {
        assert forall|id: Seq<u8>| #[trigger]
            texts(located@).contains(id) <==> condemned(rules@, all, id) by {
            if texts(located@).contains(id) {
                let k = choose|k: int| 0 <= k < located.len() && texts(located@)[k] == id;
                assert(condemned_within(rules@, all, i as int, texts(located@)[k]));
            }
        }
    }
    located
}

/// Removes the items that lie in the landfill, each with all its records.
/// The records that are kept stay in their order.
pub fn remove_landfill(entries: Vec<Entry>, rules: &Rules) -> (res: Vec<Entry>)
    ensures
        res.deep_view() == survivors(rules@, entries.deep_view()),
{
    let located = landfill_identities(&entries, rules);
    let ghost all = entries.deep_view();
    let ghost items = entries@;
    let ghost kept = |e: EntryView| survives(rules@, all, e);
    let mut res: Vec<Entry> = Vec::new();
    assert(all.subrange(0, 0).filter(kept) =~= res.deep_view());
    for e in it: entries
        invariant
            it.seq() == items,
            all.len() == items.len(),
            forall|k: int| 0 <= k < items.len() ==> all[k] == (#[trigger] items[k])@,
            kept == |e: EntryView| survives(rules@, all, e),
            forall|id: Seq<u8>| #[trigger]
                texts(located@).contains(id) <==> condemned(rules@, all, id),
            res.deep_view() == all.subrange(0, it.index() as int).filter(kept),
    {
        let itemid = get_item_id(&e.tag);
        let ghost done = all.subrange(0, it.index() as int);
        let ghost before = res.deep_view();
        proof {
            assert(all.subrange(0, it.index() + 1) =~= done.push(e@));
            assert(done.push(e@).drop_last() =~= done);
            reveal(Seq::filter);
        }
        if !list_contains(&located, itemid.as_slice()) {
            res.push(e);
            assert(res.deep_view() =~= before.push(e@));
        }
    }
    assert(all.subrange(0, all.len() as int) =~= all);
    res
}

/// The end of the tags of the records that hold where an item is: each item
/// has one such record.
pub open spec fn transform() -> Seq<u8> {
    "Transform".spec_bytes()
}

/// The record counts as one item of the group.
pub open spec fn counts_for(g: GroupView, e: EntryView) -> bool {
    g.tagname.is_prefix_of(e.tag) && transform().is_suffix_of(e.tag)
}

/// The number of items of the group among the records.
pub open spec fn population(g: GroupView, entries: Seq<EntryView>) -> nat {
    entries.filter(|e: EntryView| counts_for(g, e)).len()
}

/// The highest number of the group when its items are numbered without
/// gaps: one less than their number where the group has an item numbered
/// zero, else their number.
pub open spec fn highest_number(g: GroupView, entries: Seq<EntryView>) -> nat {
    let items = population(g, entries);
    if items >= 1 && g.has_default_zero_item {
        (items - 1) as nat
    } else {
        items
    }
}

/// The group, about to number the items that the records hold.
pub open spec fn counted_group(g: GroupView, entries: Seq<EntryView>) -> GroupView {
    GroupView {
        tagname: g.tagname,
        tagid: g.tagid,
        has_default_zero_item: g.has_default_zero_item,
        count: highest_number(g, entries),
        max: highest_number(g, entries),
    }
}

/// The rules, with every group about to number its items.
pub open spec fn counted(rules: RulesView, entries: Seq<EntryView>) -> RulesView {
    RulesView {
        allowlist: rules.allowlist,
        blocklist: rules.blocklist,
        groups: rules.groups.map_values(|g: GroupView| counted_group(g, entries)),
    }
}

/// The number of items of the group among the records.
fn count_items(entries: &Vec<Entry>, g: &Group) -> (items: usize)
    ensures
        items == population(g@, entries.deep_view()),
{
    let ghost all = entries.deep_view();
    let ghost counts = |e: EntryView| counts_for(g@, e);
    let mut items: usize = 0;
    let mut i: usize = 0;
    assert(all.subrange(0, 0).filter(counts).len() == 0);
    while i < entries.len()
        invariant
            i <= entries.len(),
            all == entries.deep_view(),
            counts == |e: EntryView| counts_for(g@, e),
            items <= i,
            items == all.subrange(0, i as int).filter(counts).len(),
        decreases entries.len() - i,
    {
        proof {
            let done = all.subrange(0, i as int);
            assert(all.subrange(0, i + 1) =~= done.push(all[i as int]));
            assert(done.push(all[i as int]).drop_last() =~= done);
            reveal(Seq::filter);
        }
        let tag = entries[i].tag.as_slice();
        if starts_with(tag, g.tagname.as_slice()) && ends_with(tag, "Transform".as_bytes()) {
            items += 1;
        }
        i += 1;
    }
    assert(all.subrange(0, all.len() as int) =~= all);
    items
}

/// Counts the items of each group among the records, and sets the group to
/// number them from its highest number down.
pub fn count_groups(entries: &Vec<Entry>, rules: &mut Rules)
    ensures
        final(rules)@ == counted(old(rules)@, entries.deep_view()),
{
    let ghost before = rules@;
    let mut g: usize = 0;
    while g < rules.groups.len()
        invariant
            g <= rules.groups.len(),
            before == old(rules)@,
            rules@.allowlist == before.allowlist,
            rules@.blocklist == before.blocklist,
            rules.groups.len() == before.groups.len(),
            forall|h: int|
                0 <= h < g ==> (#[trigger] rules.groups[h])@ == counted_group(
                    before.groups[h],
                    entries.deep_view(),
                ),
            forall|h: int|
                g <= h < rules.groups.len() ==> (#[trigger] rules.groups[h])@ == before.groups[h],
        decreases rules.groups.len() - g,
    {
        let items = count_items(entries, &rules.groups[g]);
        let highest: usize = if items >= 1 && rules.groups[g].has_default_zero_item {
            items - 1
        } else {
            items
        };
        rules.groups[g].count = highest;
        rules.groups[g].max = highest;
        g += 1;
    }
    assert(rules@.groups =~= counted(before, entries.deep_view()).groups);
}

/// What is known of an item that has been renumbered: the identity it had
/// and the identity it has now.
#[derive(Debug, Clone, PartialEq, Eq)]
pub struct IdentityMapping {
    pub oldid: Vec<u8>,
    pub newid: Vec<u8>,
}

/// What a mapping holds.
pub struct IdentityMappingView {
    pub oldid: Seq<u8>,
    pub newid: Seq<u8>,
}

impl View for IdentityMapping {
    type V = IdentityMappingView;

    open spec fn view(&self) -> IdentityMappingView {
        IdentityMappingView { oldid: self.oldid@, newid: self.newid@ }
    }
}

impl DeepView for IdentityMapping {
    type V = IdentityMappingView;

    open spec fn deep_view(&self) -> IdentityMappingView {
        self@
    }
}

/// The state of the pass that renumbers: the records, the rules with what
/// the groups have counted down to, and the items renumbered so far.
pub struct Renumbering {
    pub entries: Seq<EntryView>,
    pub rules: RulesView,
    pub known: Seq<IdentityMappingView>,
}

/// The state that executable values stand for.
pub open spec fn renumbering(
    entries: Vec<Entry>,
    rules: Rules,
    known: Vec<IdentityMapping>,
) -> Renumbering {
    Renumbering { entries: entries.deep_view(), rules: rules@, known: known.deep_view() }
}

/// The new identity of the first mapping from `k` on whose old identity is
/// `id`.
pub open spec fn lookup_from(known: Seq<IdentityMappingView>, id: Seq<u8>, k: int) -> Option<
    Seq<u8>,
>
    decreases known.len() - k,
{
    if k < 0 || k >= known.len() {
        None
    } else if known[k].oldid == id {
        Some(known[k].newid)
    } else {
        lookup_from(known, id, k + 1)
    }
}

/// The new identity of the item that had the identity `id`, if it has been
/// renumbered.
pub open spec fn lookup(known: Seq<IdentityMappingView>, id: Seq<u8>) -> Option<Seq<u8>> {
    lookup_from(known, id, 0)
}

/// The tag is that of the counter record of some group.
pub open spec fn is_counter_tag(groups: Seq<GroupView>, tag: Seq<u8>) -> bool {
    exists|g: int| 0 <= g < groups.len() && (#[trigger] groups[g]).tagid == tag
}

/// The record is never renumbered: its tag is on the allowlist or begins
/// with something on the blocklist.
pub open spec fn is_protected(rules: RulesView, tag: Seq<u8>) -> bool {
    rules.allowlist.contains(tag) || has_prefix_in(rules.blocklist, tag)
}

/// The pass that renumbers passes over the record.
pub open spec fn is_skipped(rules: RulesView, tag: Seq<u8>) -> bool {
    is_protected(rules, tag) || is_counter_tag(rules.groups, tag)
}

/// The state with the tag of record `i` set to `tag`.
pub open spec fn with_tag(st: Renumbering, i: int, tag: Seq<u8>) -> Renumbering {
    Renumbering {
        entries: st.entries.update(i, EntryView { tag, data: st.entries[i].data }),
        rules: st.rules,
        known: st.known,
    }
}

/// The group after it has given out its current number: it counts down,
/// and stays at zero.
pub open spec fn counted_down(g: GroupView) -> GroupView {
    GroupView {
        tagname: g.tagname,
        tagid: g.tagid,
        has_default_zero_item: g.has_default_zero_item,
        count: if g.count > 0 {
            (g.count - 1) as nat
        } else {
            0
        },
        max: g.max,
    }
}

/// What group `g` does to record `i`. A record whose tag does not begin with
/// the group's prefix is left alone. The record of an item that has been
/// renumbered has the item's old identity replaced by the new one. Any other
/// record takes the group's current number, and its item is then known.
pub open spec fn renamed_in_group(st: Renumbering, i: int, g: int) -> Renumbering {
    let tag = st.entries[i].tag;
    let group = st.rules.groups[g];
    if group.tagname.is_prefix_of(tag) {
        let id = item_identity(tag);
        match lookup(st.known, id) {
            Some(newid) => with_tag(st, i, replaced(tag, id, newid)),
            None => {
                let renamed = with_number(tag, group.count);
                let taken = with_tag(st, i, renamed);
                Renumbering {
                    entries: taken.entries,
                    rules: RulesView {
                        allowlist: st.rules.allowlist,
                        blocklist: st.rules.blocklist,
                        groups: st.rules.groups.update(g, counted_down(group)),
                    },
                    known: st.known.push(
                        IdentityMappingView { oldid: id, newid: item_identity(renamed) },
                    ),
                }
            },
        }
    } else {
        st
    }
}

/// What the first `upto` groups do to record `i`, one after another.
pub open spec fn renamed_in_groups(st: Renumbering, i: int, upto: int) -> Renumbering
    decreases upto,
{
    if upto <= 0 {
        st
    } else {
        renamed_in_group(renamed_in_groups(st, i, upto - 1), i, upto - 1)
    }
}

/// What the pass does to record `i`.
pub open spec fn renamed_record(st: Renumbering, i: int) -> Renumbering {
    if is_skipped(st.rules, st.entries[i].tag) {
        st
    } else {
        renamed_in_groups(st, i, st.rules.groups.len() as int)
    }
}

/// What the pass does to the first `upto` records, one after another.
pub open spec fn renamed_records(st: Renumbering, upto: int) -> Renumbering
    decreases upto,
{
    if upto <= 0 {
        st
    } else {
        renamed_record(renamed_records(st, upto - 1), upto - 1)
    }
}

/// The state after the pass that renumbers.
pub open spec fn renumbered(rules: RulesView, entries: Seq<EntryView>) -> Renumbering {
    renamed_records(
        Renumbering { entries, rules, known: Seq::empty() },
        entries.len() as int,
    )
}

/// The first mapping from `k` on whose old identity is `id` is the first of
/// all, where none before `k` has that old identity.
proof fn lemma_lookup_from(known: Seq<IdentityMappingView>, id: Seq<u8>, k: int)
    requires
        0 <= k <= known.len(),
        forall|j: int| 0 <= j < k ==> (#[trigger] known[j]).oldid != id,
    ensures
        lookup(known, id) == lookup_from(known, id, k),
    decreases k,
{
    if k > 0 {
        lemma_lookup_from(known, id, k - 1);
    }
}

/// Where the first mapping with the old identity `id` stands.
fn find_mapping(known: &Vec<IdentityMapping>, id: &[u8]) -> (found: Option<usize>)
    ensures
        match found {
            Some(k) => k < known.len() && known[k as int].oldid@ == id@ && lookup(
                known.deep_view(),
                id@,
            ) == Some(known[k as int].newid@),
            None => lookup(known.deep_view(), id@) is None,
        },
{
    let mut k: usize = 0;
    while k < known.len()
        invariant
            k <= known.len(),
            forall|j: int| 0 <= j < k ==> (#[trigger] known.deep_view()[j]).oldid != id@,
        decreases known.len() - k,
    {
        if bytes_eq(known[k].oldid.as_slice(), id) {
            proof {
                lemma_lookup_from(known.deep_view(), id@, k as int);
            }
            return Some(k);
        }
        k += 1;
    }
    proof {
        lemma_lookup_from(known.deep_view(), id@, k as int);
    }
    None
}

/// Lets group `g` rename record `i`.
fn rename_in_group(
    entries: &mut Vec<Entry>,
    i: usize,
    rules: &mut Rules,
    g: usize,
    known: &mut Vec<IdentityMapping>,
)
    requires
        i < old(entries).len(),
        g < old(rules).groups.len(),
    ensures
        renumbering(*final(entries), *final(rules), *final(known)) == renamed_in_group(
            renumbering(*old(entries), *old(rules), *old(known)),
            i as int,
            g as int,
        ),
        final(entries).len() == old(entries).len(),
        final(rules).groups.len() == old(rules).groups.len(),
{
    let ghost st = renumbering(*entries, *rules, *known);
    if starts_with(entries[i].tag.as_slice(), rules.groups[g].tagname.as_slice()) {
        let id = get_item_id(&entries[i].tag);
        match find_mapping(known, id.as_slice()) {
            Some(k) => {
                let tag = replace_all(
                    entries[i].tag.as_slice(),
                    known[k].oldid.as_slice(),
                    known[k].newid.as_slice(),
                );
                entries[i].tag = tag;
                proof {
                    let after = renamed_in_group(st, i as int, g as int);
                    assert(entries.deep_view() =~= after.entries);
                }
            },
            None => {
                let count = rules.groups[g].count;
                tag_set_new_count(&mut entries[i], count);
                if count > 0 {
                    rules.groups[g].count = count - 1;
                }
                let newid = get_item_id(&entries[i].tag);
                known.push(IdentityMapping { oldid: id, newid });
                proof {
                    let after = renamed_in_group(st, i as int, g as int);
                    assert(entries.deep_view() =~= after.entries);
                    assert(rules@.groups =~= after.rules.groups);
                    assert(known.deep_view() =~= after.known);
                }
            },
        }
    }
}

/// Whether the tag is that of the counter record of some group.
fn tag_is_counter(groups: &Vec<Group>, tag: &[u8]) -> (r: bool)
    ensures
        r == is_counter_tag(groups.deep_view(), tag@),
{
    let mut g: usize = 0;
    while g < groups.len()
        invariant
            g <= groups.len(),
            forall|h: int| 0 <= h < g ==> (#[trigger] groups.deep_view()[h]).tagid != tag@,
        decreases groups.len() - g,
    {
        if bytes_eq(groups[g].tagid.as_slice(), tag) {
            assert(groups.deep_view()[g as int].tagid == tag@);
            return true;
        }
        g += 1;
    }
    false
}

/// Renames record `i`, unless the pass passes over it.
fn rename_record(
    entries: &mut Vec<Entry>,
    i: usize,
    rules: &mut Rules,
    known: &mut Vec<IdentityMapping>,
)
    requires
        i < old(entries).len(),
    ensures
        renumbering(*final(entries), *final(rules), *final(known)) == renamed_record(
            renumbering(*old(entries), *old(rules), *old(known)),
            i as int,
        ),
        final(entries).len() == old(entries).len(),
        final(rules).groups.len() == old(rules).groups.len(),
{
    let ghost st = renumbering(*entries, *rules, *known);
    let tag = entries[i].tag.as_slice();
    if list_contains(&rules.allowlist, tag) || any_prefix_of(&rules.blocklist, tag)
        || tag_is_counter(&rules.groups, tag) {
        return;
    }
    let groups: usize = rules.groups.len();
    let mut g: usize = 0;
    while g < groups
        invariant
            g <= groups,
            groups == st.rules.groups.len(),
            rules.groups.len() == groups,
            entries.len() == old(entries).len(),
            i < entries.len(),
            renumbering(*entries, *rules, *known) == renamed_in_groups(st, i as int, g as int),
        decreases groups - g,
    {
        rename_in_group(entries, i, rules, g, known);
        g += 1;
    }
}

/// Renumbers the items of each group: in the order of the records, the
/// first record of an item takes the group's current number, and the item's
/// other records follow it.
pub fn rename_items(entries: &mut Vec<Entry>, rules: &mut Rules)
    ensures
        final(entries).deep_view() == renumbered(old(rules)@, old(entries).deep_view()).entries,
        final(rules)@ == renumbered(old(rules)@, old(entries).deep_view()).rules,
{
    let mut known: Vec<IdentityMapping> = Vec::new();
    let ghost st = renumbering(*entries, *rules, known);
    let n: usize = entries.len();
    let mut i: usize = 0;
    while i < n
        invariant
            i <= n,
            n == st.entries.len(),
            entries.len() == n,
            renumbering(*entries, *rules, known) == renamed_records(st, i as int),
        decreases n - i,
    {
        rename_record(entries, i, rules, &mut known);
        i += 1;
    }
    assert(st.known =~= Seq::<IdentityMappingView>::empty());
}

/// Where the highest number of a group begins in the payload of the
/// group's counter record.
pub const COUNTER_OFFSET: usize = 5;

/// Where the highest number of a group ends in the payload of the group's
/// counter record.
pub const COUNTER_END: usize = 9;

/// The payload with `value` as the highest number that it holds. A payload
/// that is too short to hold a number stays as it is.
pub open spec fn with_counter(data: Seq<u8>, value: nat) -> Seq<u8> {
    if data.len() >= COUNTER_END {
        data.subrange(0, COUNTER_OFFSET as int) + u32_to_le(value) + data.subrange(
            COUNTER_END as int,
            data.len() as int,
        )
    } else {
        data
    }
}

/// The record after each of the first `upto` groups has written its highest
/// number into it, if the record is the group's counter record.
pub open spec fn patched_in_groups(groups: Seq<GroupView>, e: EntryView, upto: int) -> EntryView
    decreases upto,
{
    if upto <= 0 {
        e
    } else {
        let before = patched_in_groups(groups, e, upto - 1);
        if before.tag == groups[upto - 1].tagid {
            EntryView { tag: before.tag, data: with_counter(before.data, groups[upto - 1].max) }
        } else {
            before
        }
    }
}

/// The records, with the highest number of each group in the group's
/// counter records.
pub open spec fn patched(groups: Seq<GroupView>, entries: Seq<EntryView>) -> Seq<EntryView> {
    entries.map_values(|e: EntryView| patched_in_groups(groups, e, groups.len() as int))
}

/// The records of a repaired store: the items in the landfill are removed,
/// the items of each group are renumbered, and the counter records hold the
/// highest numbers.
pub open spec fn cleaned(rules: RulesView, entries: Seq<EntryView>) -> Seq<EntryView> {
    let kept = survivors(rules, entries);
    let st = renumbered(counted(rules, kept), kept);
    patched(st.rules.groups, st.entries)
}

/// Writes `value` into the payload as the highest number of a group.
fn set_counter(e: &mut Entry, value: usize)
    ensures
        final(e).tag == old(e).tag,
        final(e).data@ == with_counter(old(e).data@, value as nat),
{
    if e.data.len() >= COUNTER_END {
        let count = mk_u32_le(&value);
        let mut pos: usize = COUNTER_OFFSET;
        while pos < COUNTER_END
            invariant
                COUNTER_OFFSET <= pos <= COUNTER_END,
                e.tag == old(e).tag,
                e.data.len() == old(e).data.len(),
                e.data.len() >= COUNTER_END,
                count@ == u32_to_le(value as nat),
                forall|k: int|
                    COUNTER_OFFSET <= k < pos ==> e.data@[k] == count@[k - COUNTER_OFFSET],
                forall|k: int|
                    0 <= k < e.data.len() && !(COUNTER_OFFSET <= k < pos) ==> e.data@[k] == old(
                        e,
                    ).data@[k],
            decreases COUNTER_END - pos,
        {
            e.data[pos] = count[pos - COUNTER_OFFSET];
            pos += 1;
        }
        assert(e.data@ =~= with_counter(old(e).data@, value as nat));
    }
}

/// Writes the highest number of each group into the group's counter
/// records.
pub fn patch_counters(entries: &mut Vec<Entry>, rules: &Rules)
    ensures
        final(entries).deep_view() == patched(rules@.groups, old(entries).deep_view()),
{
    let ghost before = entries.deep_view();
    let ghost groups = rules@.groups;
    let n: usize = entries.len();
    let mut i: usize = 0;
    while i < n
        invariant
            i <= n,
            entries.len() == n,
            before.len() == n,
            groups == rules@.groups,
            forall|j: int|
                0 <= j < i ==> (#[trigger] entries[j])@ == patched_in_groups(
                    groups,
                    before[j],
                    groups.len() as int,
                ),
            forall|j: int| i <= j < n ==> (#[trigger] entries[j])@ == before[j],
        decreases n - i,
    {
        let mut g: usize = 0;
        while g < rules.groups.len()
            invariant
                g <= rules.groups.len(),
                i < n,
                entries.len() == n,
                before.len() == n,
                groups == rules@.groups,
                forall|j: int|
                    0 <= j < i ==> (#[trigger] entries[j])@ == patched_in_groups(
                        groups,
                        before[j],
                        groups.len() as int,
                    ),
                forall|j: int| i < j < n ==> (#[trigger] entries[j])@ == before[j],
                entries[i as int]@ == patched_in_groups(groups, before[i as int], g as int),
            decreases rules.groups.len() - g,
        {
            if bytes_eq(entries[i].tag.as_slice(), rules.groups[g].tagid.as_slice()) {
                set_counter(&mut entries[i], rules.groups[g].max);
            }
            g += 1;
        }
        i += 1;
    }
    assert(entries.deep_view() =~= patched(groups, before));
}

/// Repairs the records of a store by the given rules.
pub fn clean_entries_with(entries: Vec<Entry>, rules: Rules) -> (res: Vec<Entry>)
    ensures
        res.deep_view() == cleaned(rules@, entries.deep_view()),
{
    let mut rules = rules;
    let mut res = remove_landfill(entries, &rules);
    count_groups(&res, &mut rules);
    rename_items(&mut res, &mut rules);
    patch_counters(&mut res, &rules);
    res
}

/// Repairs the records of a store: removes the items that lie in the
/// landfill, renumbers the items of each group that are left, and writes
/// the highest number of each group into its counter record.
pub fn clean_entries(entries: Vec<Entry>) -> (res: Vec<Entry>)
    ensures
        res.deep_view() == cleaned(standard_rules(), entries.deep_view()),
{
    clean_entries_with(entries, Rules::standard())
}

} // verus!
