//! The sparse index of a table: where some of its keys stand in the file.

use vstd::prelude::*;

use crate::order::{compare_keys, key_le, key_lt, lemma_key_order, KeyOrder};

verus! {

/// Whether `floor` is the greatest key of `index` that is not after `key`.
pub open spec fn is_floor(index: Map<Seq<u8>, u64>, key: Seq<u8>, floor: Seq<u8>) -> bool {
    &&& index.contains_key(floor)
    &&& key_le(floor, key)
    &&& forall|other: Seq<u8>| #[trigger]
        index.contains_key(other) && key_le(other, key) ==> key_le(other, floor)
}

/// The offset of the greatest key of `index` that is not after `key`.
pub open spec fn floor_offset(index: Map<Seq<u8>, u64>, key: Seq<u8>) -> Option<u64> {
    if exists|floor: Seq<u8>| is_floor(index, key, floor) {
        Some(index[choose|floor: Seq<u8>| is_floor(index, key, floor)])
    } else {
        None
    }
}

/// There is at most one such key.
pub proof fn lemma_floor_offset(index: Map<Seq<u8>, u64>, key: Seq<u8>, floor: Seq<u8>)
    requires
        is_floor(index, key, floor),
    ensures
        floor_offset(index, key) == Some(index[floor]),
{
    lemma_key_order();
    let other = choose|floor: Seq<u8>| is_floor(index, key, floor);
    assert(is_floor(index, key, other));
    assert(key_le(other, floor) && key_le(floor, other));
}

/// An offset that is found stands in the index.
pub proof fn lemma_floor_is_in_index(index: Map<Seq<u8>, u64>, key: Seq<u8>)
    requires
        floor_offset(index, key) is Some,
    ensures
        exists|floor: Seq<u8>|
            is_floor(index, key, floor) && floor_offset(index, key) == Some(index[floor]),
{
    let floor = choose|floor: Seq<u8>| is_floor(index, key, floor);
    assert(is_floor(index, key, floor));
}

struct IndexEntry {
    key: Vec<u8>,
    offset: u64,
}

/// A map from keys to offsets, ordered by key.
pub struct BlockIndex {
    entries: Vec<IndexEntry>,
}

/// Whether the keys stand in strictly ascending order.
spec fn sorted(entries: Seq<IndexEntry>) -> bool {
    forall|i: int, j: int|
        0 <= i < j < entries.len() ==> key_lt(
            #[trigger] entries[i].key@,
            #[trigger] entries[j].key@,
        )
}

/// Whether some entry has `key`.
spec fn has_key(entries: Seq<IndexEntry>, key: Seq<u8>) -> bool {
    exists|i: int| 0 <= i < entries.len() && #[trigger] entries[i].key@ == key
}

/// The place of the entry that has `key`.
spec fn place_of(entries: Seq<IndexEntry>, key: Seq<u8>) -> int {
    choose|i: int| 0 <= i < entries.len() && #[trigger] entries[i].key@ == key
}

/// The entries as a map.
spec fn as_map(entries: Seq<IndexEntry>) -> Map<Seq<u8>, u64> {
    Map::new(
        |key: Seq<u8>| has_key(entries, key),
        |key: Seq<u8>| entries[place_of(entries, key)].offset,
    )
}

/// Each entry is the map's entry of its key.
proof fn lemma_as_map(entries: Seq<IndexEntry>)
    requires
        sorted(entries),
    ensures
        forall|i: int|
            0 <= i < entries.len() ==> as_map(entries).contains_key(#[trigger] entries[i].key@)
                && as_map(entries)[entries[i].key@] == entries[i].offset,
{
    lemma_key_order();
    assert forall|i: int| 0 <= i < entries.len() implies as_map(entries).contains_key(
        #[trigger] entries[i].key@,
    ) && as_map(entries)[entries[i].key@] == entries[i].offset by {
        let place = place_of(entries, entries[i].key@);
        assert(0 <= place < entries.len() && entries[place].key@ == entries[i].key@);
        if place < i {
            assert(key_lt(entries[place].key@, entries[i].key@));
        }
        if i < place {
            assert(key_lt(entries[i].key@, entries[place].key@));
        }
    }
}

impl View for BlockIndex {
    type V = Map<Seq<u8>, u64>;

    closed spec fn view(&self) -> Map<Seq<u8>, u64> {
        as_map(self.entries@)
    }
}

impl BlockIndex {
    /// Whether the entries are in order.
    pub closed spec fn wf(&self) -> bool {
        sorted(self.entries@)
    }

    /// An index without entries.
    pub fn new() -> (index: Self)
        ensures
            index.wf(),
            index@ == Map::<Seq<u8>, u64>::empty(),
    {
        let index = BlockIndex { entries: Vec::new() };
        assert(index@ =~= Map::<Seq<u8>, u64>::empty());
        index
    }

    /// The number of entries that are not after `key`.
    fn count_up_to(&self, key: &[u8]) -> (count: usize)
        requires
            self.wf(),
        ensures
            count <= self.entries@.len(),
            forall|i: int| 0 <= i < count ==> key_le(#[trigger] self.entries@[i].key@, key@),
            forall|i: int|
                count <= i < self.entries@.len() ==> key_lt(
                    key@,
                    #[trigger] self.entries@[i].key@,
                ),
    {
        let mut low: usize = 0;
        let mut high: usize = self.entries.len();
        while low < high
            invariant
                self.wf(),
                low <= high <= self.entries@.len(),
                forall|i: int| 0 <= i < low ==> key_le(#[trigger] self.entries@[i].key@, key@),
                forall|i: int|
                    high <= i < self.entries@.len() ==> key_lt(
                        key@,
                        #[trigger] self.entries@[i].key@,
                    ),
            decreases high - low,
        {
            let middle: usize = low + (high - low) / 2;
            proof {
                lemma_key_order();
            }
            if compare_keys(self.entries[middle].key.as_slice(), key) == KeyOrder::After {
                high = middle;
            } else {
                low = middle + 1;
            }
        }
        low
    }

    /// Gives `key` the offset `offset`, in place of the one that it had.
    pub fn insert(&mut self, key: Vec<u8>, offset: u64)
        requires
            old(self).wf(),
        ensures
            final(self).wf(),
            final(self)@ == old(self)@.insert(key@, offset),
    {
        let place: usize = self.count_up_to(key.as_slice());
        let ghost before = self.entries@;
        proof {
            lemma_key_order();
            lemma_as_map(before);
        }
        if place > 0 && compare_keys(self.entries[place - 1].key.as_slice(), key.as_slice())
            == KeyOrder::Same {
            self.entries[place - 1].offset = offset;
            proof {
                let after = self.entries@;
                assert forall|i: int| 0 <= i < after.len() implies (#[trigger] after[i]).key
                    == before[i].key by {}
                assert(sorted(after));
                lemma_as_map(after);
                assert forall|k: Seq<u8>| has_key(after, k) <==> has_key(before, k) by {
                    if has_key(before, k) {
                        assert(after[place_of(before, k)].key@ == k);
                    }
                    if has_key(after, k) {
                        assert(before[place_of(after, k)].key@ == k);
                    }
                }
                assert(has_key(before, key@)) by {
                    assert(before[place - 1].key@ == key@);
                }
                assert forall|k: Seq<u8>| has_key(after, k) implies as_map(after)[k] == as_map(
                    before,
                ).insert(key@, offset)[k] by {
                    let i = place_of(after, k);
                    assert(after[i].key@ == k);
                    assert(before[i].key@ == k);
                    assert(after[place - 1].key@ == key@);
                    if k == key@ && i != place - 1 {
                        if i < place - 1 {
                            assert(key_lt(after[i].key@, after[place - 1].key@));
                        } else {
                            assert(key_lt(after[place - 1].key@, after[i].key@));
                        }
                    }
                }
                assert(self@ =~= old(self)@.insert(key@, offset));
            }
        } else {
            let ghost new_key = key@;
            self.entries.insert(place, IndexEntry { key, offset });
            proof {
                let after = self.entries@;
                assert(after =~= before.insert(place as int, after[place as int]));
                assert forall|i: int, j: int| 0 <= i < j < after.len() implies key_lt(
                    #[trigger] after[i].key@,
                    #[trigger] after[j].key@,
                ) by {
                    let before_i = if i < place { i } else { i - 1 };
                    let before_j = if j < place { j } else { j - 1 };
                    if i != place {
                        assert(after[i] == before[before_i]);
                    }
                    if j != place {
                        assert(after[j] == before[before_j]);
                    }
                    if i == place {
                        assert(key_lt(new_key, before[before_j].key@));
                    } else if j == place {
                        assert(key_le(before[before_i].key@, new_key));
                        if before[before_i].key@ == new_key {
                            if before_i < place - 1 {
                                assert(key_lt(before[before_i].key@, before[place - 1].key@));
                            }
                        }
                    } else {
                        assert(key_lt(before[before_i].key@, before[before_j].key@));
                    }
                }
                lemma_as_map(after);
                assert forall|k: Seq<u8>| has_key(after, k) <==> (k == new_key || has_key(
                    before,
                    k,
                )) by {
                    if k == new_key {
                        assert(after[place as int].key@ == k);
                    }
                    if has_key(before, k) {
                        let i = place_of(before, k);
                        if i < place {
                            assert(after[i].key@ == k);
                        } else {
                            assert(after[i + 1].key@ == k);
                        }
                    }
                    if has_key(after, k) && k != new_key {
                        let i = place_of(after, k);
                        assert(after[i].key@ == k);
                        if i < place {
                            assert(before[i].key@ == k);
                        } else {
                            assert(before[i - 1].key@ == k);
                        }
                    }
                }
                assert forall|k: Seq<u8>| has_key(after, k) implies as_map(after)[k] == as_map(
                    before,
                ).insert(new_key, offset)[k] by {
                    if k == new_key {
                        assert(after[place as int].key@ == k);
                    } else {
                        let i = place_of(before, k);
                        assert(before[i].key@ == k);
                        if i < place {
                            assert(after[i] == before[i]);
                            assert(after[i].key@ == k);
                        } else {
                            assert(after[i + 1] == before[i]);
                            assert(after[i + 1].key@ == k);
                        }
                    }
                }
                assert(self@ =~= old(self)@.insert(new_key, offset));
            }
        }
    }

    /// The offset of the greatest key that is not after `key`.
    pub fn floor(&self, key: &[u8]) -> (offset: Option<u64>)
        requires
            self.wf(),
        ensures
            offset == floor_offset(self@, key@),
            offset is None ==> forall|other: Seq<u8>| #[trigger]
                self@.contains_key(other) ==> key_lt(key@, other),
    {
        let count: usize = self.count_up_to(key);
        proof {
            lemma_key_order();
            lemma_as_map(self.entries@);
            assert forall|other: Seq<u8>| #[trigger] self@.contains_key(other) implies ({
                let i = place_of(self.entries@, other);
                0 <= i < self.entries@.len() && self.entries@[i].key@ == other
            }) by {}
        }
        if count == 0 {
            None
        } else {
            proof {
                let floor = self.entries@[count - 1].key@;
                assert forall|other: Seq<u8>| #[trigger]
                    self@.contains_key(other) && key_le(other, key@) implies key_le(
                    other,
                    floor,
                ) by {
                    let i = place_of(self.entries@, other);
                    assert(self.entries@[i].key@ == other);
                    if i < count - 1 {
                        assert(key_lt(self.entries@[i].key@, self.entries@[count - 1].key@));
                    }
                }
                lemma_floor_offset(self@, key@, floor);
            }
            Some(self.entries[count - 1].offset)
        }
    }
}

} // verus!
