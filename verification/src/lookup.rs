//! What one layer of the store knows of a key.

use vstd::prelude::*;

verus! {

/// The outcome of a point lookup in one layer.
///
/// A tombstone stops the search, an absent key continues it in older layers.
#[derive(Debug)]
pub enum EntryState {
    Live(Vec<u8>),
    Tombstone,
    Absent,
}

/// `None` where the layer holds nothing of the key; else what it holds, where
/// `Some(bytes)` is a live value and `None` a tombstone.
impl View for EntryState {
    type V = Option<Option<Seq<u8>>>;

    open spec fn view(&self) -> Option<Option<Seq<u8>>> {
        match self {
            EntryState::Live(value) => Some(Some(value@)),
            EntryState::Tombstone => Some(None),
            EntryState::Absent => None,
        }
    }
}

/// What `entries` holds of `key`.
pub open spec fn state_of(entries: Map<Seq<u8>, Option<Seq<u8>>>, key: Seq<u8>) -> Option<
    Option<Seq<u8>>,
> {
    if entries.contains_key(key) {
        Some(entries[key])
    } else {
        None
    }
}

} // verus!
