//! The records of the item store.

use vstd::prelude::*;

verus! {

/// One record of the store: a tag, which names a field of an item, and the
/// payload saved under it.
#[derive(Debug, Clone, PartialEq, Eq)]
pub struct Entry {
    /// The tag name, one byte per character.
    pub tag: Vec<u8>,
    /// The payload, without the footer byte that closes the record.
    pub data: Vec<u8>,
}

/// What a record holds.
pub struct EntryView {
    pub tag: Seq<u8>,
    pub data: Seq<u8>,
}

impl EntryView {
    /// The record can be framed: the length of its tag fits in one byte, and
    /// the length of its payload, with the footer counted in, fits in four.
    pub open spec fn wf(self) -> bool {
        self.tag.len() <= 0xFF && self.data.len() + 1 <= 0xFFFF_FFFF
    }
}

impl View for Entry {
    type V = EntryView;

    open spec fn view(&self) -> EntryView {
        EntryView { tag: self.tag@, data: self.data@ }
    }
}

impl DeepView for Entry {
    type V = EntryView;

    open spec fn deep_view(&self) -> EntryView {
        self@
    }
}

/// Every record of `entries` can be framed.
pub open spec fn all_wf(entries: Seq<EntryView>) -> bool {
    forall|i: int| 0 <= i < entries.len() ==> (#[trigger] entries[i]).wf()
}

impl Entry {
    /// Whether the record can be framed.
    pub fn is_well_formed(&self) -> (r: bool)
        ensures
            r == self@.wf(),
    {
        self.tag.len() <= 0xFF && self.data.len() < 0xFFFF_FFFF
    }
}

/// Whether every record of `entries` can be framed.
pub fn all_well_formed(entries: &Vec<Entry>) -> (r: bool)
    ensures
        r == all_wf(entries.deep_view()),
{
    let mut i: usize = 0;
    while i < entries.len()
        invariant
            i <= entries.len(),
            forall|k: int| 0 <= k < i ==> (#[trigger] entries.deep_view()[k]).wf(),
        decreases entries.len() - i,
    {
        if !entries[i].is_well_formed() {
            assert(!entries.deep_view()[i as int].wf());
            return false;
        }
        i += 1;
    }
    true
}

} // verus!
