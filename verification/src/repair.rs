//! The repair of a store from bytes to bytes: the store is decoded, its
//! records are repaired, and the repaired records are encoded.

use crate::codec::{
    decode, encode, encode_entries, generate_entries, lemma_decoded_wf, lemma_encode_decode,
    FormatError,
};
use crate::engine::{clean_entries, cleaned, survives, survivors};
use crate::entry::{all_well_formed, all_wf, EntryView};
use crate::laws::lemma_cleaned_len;
use crate::population::lemma_repair_keeps_records;
use crate::rules::standard_rules;
use vstd::prelude::*;

verus! {

/// Why a store is not repaired. Nothing is repaired of such a store.
#[derive(Debug, Clone, Copy, PartialEq, Eq, Structural)]
pub enum RepairError {
    /// The buffer is no record store.
    Format(FormatError),
    /// A record cannot be framed once it is renumbered: its new tag is
    /// longer than 255 bytes.
    TagTooLong,
}

/// The bytes of the repaired store, or why the store is not repaired.
pub open spec fn repaired(contents: Seq<u8>) -> Result<Seq<u8>, RepairError> {
    match decode(contents) {
        Err(e) => Err(RepairError::Format(e)),
        Ok(entries) => {
            let records = cleaned(standard_rules(), entries);
            if all_wf(records) {
                Ok(encode(records))
            } else {
                Err(RepairError::TagTooLong)
            }
        },
    }
}

/// The view of a result of `repair_store`.
pub open spec fn repaired_view(res: Result<Vec<u8>, RepairError>) -> Result<Seq<u8>, RepairError> {
    match res {
        Ok(bytes) => Ok(bytes@),
        Err(e) => Err(e),
    }
}

/// Repairs a store: decodes it, removes the items that lie in the landfill,
/// renumbers the items of each group that are left, writes the highest
/// number of each group into its counter record, and encodes the records.
pub fn repair_store(contents: Vec<u8>) -> (res: Result<Vec<u8>, RepairError>)
    ensures
        repaired_view(res) == repaired(contents@),
{
    match generate_entries(contents) {
        Err(e) => Err(RepairError::Format(e)),
        Ok(entries) => {
            let records = clean_entries(entries);
            if all_well_formed(&records) {
                Ok(encode_entries(&records))
            } else {
                Err(RepairError::TagTooLong)
            }
        },
    }
}

/// The repaired store holds the repaired records: it decodes to the records
/// of the store, repaired.
pub proof fn lemma_repaired_decodes(contents: Seq<u8>)
    requires
        repaired(contents) is Ok,
    ensures
        decode(contents) is Ok,
        decode(repaired(contents)->Ok_0) == Ok::<Seq<EntryView>, FormatError>(
            cleaned(standard_rules(), decode(contents)->Ok_0),
        ),
{
    lemma_encode_decode(cleaned(standard_rules(), decode(contents)->Ok_0));
}

/// The records of a store can be framed again once the store is repaired,
/// unless the repair has given one of them a tag of more than 255 bytes.
pub proof fn lemma_only_tags_grow(contents: Seq<u8>)
    requires
        repaired(contents) == Err::<Seq<u8>, RepairError>(RepairError::TagTooLong),
    ensures
        decode(contents) is Ok,
        exists|k: int|
            0 <= k < cleaned(standard_rules(), decode(contents)->Ok_0).len() && (#[trigger] cleaned(
                standard_rules(),
                decode(contents)->Ok_0,
            )[k]).tag.len() > 0xFF,
{
    let entries = decode(contents)->Ok_0;
    let rules = standard_rules();
    let kept = survivors(rules, entries);
    let records = cleaned(rules, entries);
    lemma_decoded_wf(contents);
    let k = choose|k: int| 0 <= k < records.len() && !(#[trigger] records[k]).wf();
    lemma_cleaned_len(rules, entries);
    lemma_repair_keeps_records(rules, entries, k, Seq::empty());
    assert(kept.contains(kept[k]));
    entries.lemma_filter_contains_rev(|e: EntryView| survives(rules, entries, e), kept[k]);
    let i = choose|i: int| 0 <= i < entries.len() && entries[i] == kept[k];
    assert(entries[i].wf());
}

} // verus!
