//! A listing of the records for the human eye: one line for each record,
//! with the number that a counter record holds beside its tag.

use crate::bytes::{get_u32_le, u32_from_le};
use crate::engine::{COUNTER_END, COUNTER_OFFSET};
use crate::entry::{Entry, EntryView};
use crate::text::{append_bytes, copy_range, decimal, decimal_text, list_contains, texts};
use vstd::prelude::*;
use vstd::string::{StrSliceExecFns, StringSliceAdditionalSpecFns};

verus! {

/// The tags of the counter records that the listing shows with their
/// number.
pub open spec fn counting_tags() -> Seq<Seq<u8>> {
    seq![
        "BeerCaseID".spec_bytes(),
        "SausagesxID".spec_bytes(),
        "milkxID".spec_bytes(),
        "sugarID".spec_bytes(),
        "yeastID".spec_bytes(),
        "potatochipsID".spec_bytes(),
        "pizzaxID".spec_bytes(),
        "macaronboxxID".spec_bytes(),
        "shoppingbagxID".spec_bytes(),
        "moosemeatxID".spec_bytes(),
        "BoozeID".spec_bytes(),
        "pikexID".spec_bytes(),
        "juiceconcentrateID".spec_bytes(),
        "motoroilID".spec_bytes(),
        "brakefluidID".spec_bytes(),
        "coolantID".spec_bytes(),
        "twostrokeID".spec_bytes(),
        "cigarettesID".spec_bytes(),
        "sparkplugboxID".spec_bytes(),
        "groundcoffeeID".spec_bytes(),
        "grillcharcoalID".spec_bytes(),
        "lightbulbboxID".spec_bytes(),
        "fusepackageID".spec_bytes(),
        "r20batteryboxID".spec_bytes(),
        "mosquitosprayID".spec_bytes(),
    ]
}

/// The record is shown with the number it holds: it is a counter record
/// and its payload is long enough to hold a number.
pub open spec fn shows_number(e: EntryView) -> bool {
    counting_tags().contains(e.tag) && e.data.len() >= COUNTER_END
}

/// The number that the payload of a counter record holds.
pub open spec fn counter_of(data: Seq<u8>) -> nat {
    u32_from_le(data.subrange(COUNTER_OFFSET as int, COUNTER_END as int)) as nat
}

/// The line of a record: its tag and, for a counter record, a space and
/// the number in round brackets.
pub open spec fn formatted(e: EntryView) -> Seq<u8> {
    if shows_number(e) {
        e.tag + " (".spec_bytes() + decimal(counter_of(e.data)) + ")".spec_bytes()
    } else {
        e.tag
    }
}

/// The tags of the counter records that the listing shows with their
/// number.
fn counting_tag_entries() -> (list: Vec<Vec<u8>>)
    ensures
        texts(list@) == counting_tags(),
{
    let mut list: Vec<Vec<u8>> = Vec::new();
    list.push("BeerCaseID".as_bytes_vec());
    list.push("SausagesxID".as_bytes_vec());
    list.push("milkxID".as_bytes_vec());
    list.push("sugarID".as_bytes_vec());
    list.push("yeastID".as_bytes_vec());
    list.push("potatochipsID".as_bytes_vec());
    list.push("pizzaxID".as_bytes_vec());
    list.push("macaronboxxID".as_bytes_vec());
    list.push("shoppingbagxID".as_bytes_vec());
    list.push("moosemeatxID".as_bytes_vec());
    list.push("BoozeID".as_bytes_vec());
    list.push("pikexID".as_bytes_vec());
    list.push("juiceconcentrateID".as_bytes_vec());
    list.push("motoroilID".as_bytes_vec());
    list.push("brakefluidID".as_bytes_vec());
    list.push("coolantID".as_bytes_vec());
    list.push("twostrokeID".as_bytes_vec());
    list.push("cigarettesID".as_bytes_vec());
    list.push("sparkplugboxID".as_bytes_vec());
    list.push("groundcoffeeID".as_bytes_vec());
    list.push("grillcharcoalID".as_bytes_vec());
    list.push("lightbulbboxID".as_bytes_vec());
    list.push("fusepackageID".as_bytes_vec());
    list.push("r20batteryboxID".as_bytes_vec());
    list.push("mosquitosprayID".as_bytes_vec());
    assert(texts(list@) =~= counting_tags());
    list
}

/// The line of one record.
fn format_entry(e: &Entry, counting: &Vec<Vec<u8>>) -> (line: Vec<u8>)
    requires
        texts(counting@) == counting_tags(),
    ensures
        line@ == formatted(e@),
{
    let mut line = copy_range(e.tag.as_slice(), 0, e.tag.len());
    assert(line@ =~= e@.tag);
    if list_contains(counting, e.tag.as_slice()) && e.data.len() >= COUNTER_END {
        let mut idx: usize = COUNTER_OFFSET;
        let number = get_u32_le(&e.data, &mut idx);
        let text = decimal_text(number as usize);
        append_bytes(&mut line, " (".as_bytes());
        append_bytes(&mut line, text.as_slice());
        append_bytes(&mut line, ")".as_bytes());
    }
    line
}

/// The lines of the records, in their order.
pub fn get_formatted_entries(entries: &Vec<Entry>) -> (res: Vec<Vec<u8>>)
    ensures
        texts(res@) == entries.deep_view().map_values(|e: EntryView| formatted(e)),
{
    let counting = counting_tag_entries();
    let mut res: Vec<Vec<u8>> = Vec::new();
    let mut i: usize = 0;
    while i < entries.len()
        invariant
            i <= entries.len(),
            texts(counting@) == counting_tags(),
            res.len() == i,
            forall|k: int| 0 <= k < i ==> (#[trigger] res[k])@ == formatted(entries[k]@),
        decreases entries.len() - i,
    {
        res.push(format_entry(&entries[i], &counting));
        i += 1;
    }
    assert(texts(res@) =~= entries.deep_view().map_values(|e: EntryView| formatted(e)));
    res
}

} // verus!
