//! The landfill: the place in the game world where discarded items lie.

use crate::entry::Entry;
use vstd::prelude::*;

verus! {

/// The position of the landfill as a payload stores it: three floats of four
/// bytes each, x, y and z, about (-679.33, 4.57, -727.30).
pub const LANDFILL_POSITION: [u8; 12] = [
    0xFA,
    0xD4,
    0x29,
    0xC4,
    0xB8,
    0x4F,
    0x92,
    0x40,
    0xEF,
    0xD2,
    0x35,
    0xC4,
];

/// Where the position of an item begins in its payload.
pub const POSITION_OFFSET: usize = 6;

/// Where the position of an item ends in its payload.
pub const POSITION_END: usize = 18;

/// The payload places its item in the landfill: it is long enough to hold a
/// position, and the position is that of the landfill, byte for byte.
pub open spec fn in_landfill(data: Seq<u8>) -> bool {
    data.len() >= POSITION_END && data.subrange(POSITION_OFFSET as int, POSITION_END as int)
        == LANDFILL_POSITION@
}

/// Whether the item that `entry` belongs to lies in the landfill.
pub fn is_in_landfill(entry: &Entry) -> (r: bool)
    ensures
        r == in_landfill(entry@.data),
{
    if entry.data.len() < POSITION_END {
        return false;
    }
    let mut i: usize = POSITION_OFFSET;
    while i < POSITION_END
        invariant
            POSITION_OFFSET <= i <= POSITION_END <= entry.data.len(),
            forall|k: int|
                POSITION_OFFSET <= k < i ==> entry.data@[k] == LANDFILL_POSITION@[k
                    - POSITION_OFFSET],
        decreases POSITION_END - i,
    {
        if entry.data[i] != LANDFILL_POSITION[i - POSITION_OFFSET] {
            assert(entry.data@.subrange(POSITION_OFFSET as int, POSITION_END as int)[i
                - POSITION_OFFSET] != LANDFILL_POSITION@[i - POSITION_OFFSET]);
            return false;
        }
        i += 1;
    }
    assert(entry.data@.subrange(POSITION_OFFSET as int, POSITION_END as int)
        =~= LANDFILL_POSITION@);
    true
}

} // verus!
