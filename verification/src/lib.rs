//! Repair of the item store of a simulation game's save file: discarded
//! items are removed and the instances of each item group are renumbered.

pub mod bytes;
pub mod codec;
pub mod engine;
pub mod entry;
pub mod landfill;
pub mod laws;
pub mod listing;
pub mod population;
pub mod renaming;
pub mod repair;
pub mod rules;
pub mod siblings;
pub mod standard;
pub mod tag;
pub mod text;

pub use bytes::{get_u32_le, mk_u32_le};
pub use codec::{encode_entries, generate_entries, get_string, FormatError};
pub use engine::{clean_entries, clean_entries_with};
pub use entry::Entry;
pub use landfill::is_in_landfill;
pub use listing::get_formatted_entries;
pub use repair::{repair_store, RepairError};
pub use rules::{Group, Rules};
pub use tag::{get_item_id, tag_set_new_count};
