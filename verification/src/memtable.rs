//! The in-memory layer of the store.

pub mod skiplist;

use vstd::prelude::*;

use crate::lookup::EntryState;
use crate::order::{key_le, key_lt, lemma_key_order};
use crate::record::{entry_view, RecordView};

verus! {

/// A sorted in-memory table of live values and tombstones.
///
/// Its contents are a map from keys to `Some(bytes)` for a live value and to
/// `None` for a tombstone. An implementation says in `entries` what they are,
/// and in `wf` what its operations rely on; one that leaves them out promises
/// nothing of its contents.
pub trait Memtable: Sized {
    /// The contents.
    open spec fn entries(&self) -> Map<Seq<u8>, Option<Seq<u8>>> {
        arbitrary()
    }

    /// Whether the internal structure is intact.
    open spec fn wf(&self) -> bool {
        arbitrary()
    }

    /// Makes `val` the live value of `key`.
    fn put(&mut self, key: &[u8], val: &[u8])
        requires
            old(self).wf(),
        ensures
            final(self).wf(),
            final(self).entries() == old(self).entries().insert(key@, Some(val@)),
    ;

    /// Makes `key` a tombstone, whether or not the table held it.
    fn delete(&mut self, key: &[u8])
        requires
            old(self).wf(),
        ensures
            final(self).wf(),
            final(self).entries() == old(self).entries().insert(key@, None),
    ;

    /// What the table holds of `key`.
    fn lookup(&self, key: &[u8]) -> (state: EntryState)
        requires
            self.wf(),
        ensures
            state@ == crate::lookup::state_of(self.entries(), key@),
    ;

    /// Every entry in ascending key order, tombstones included.
    ///
    /// `Some(bytes)` is a live value; `None` is a tombstone. What to do with
    /// tombstones is the caller's decision.
    fn iter(&self) -> (listed: Vec<(&[u8], Option<&[u8]>)>)
        requires
            self.wf(),
        ensures
            lists(listing_view(listed@), self.entries()),
    ;

    /// Forgets every entry.
    fn clear(&mut self)
        requires
            old(self).wf(),
        ensures
            final(self).wf(),
            final(self).entries() == Map::<Seq<u8>, Option<Seq<u8>>>::empty(),
    ;
}

/// Borrowed entries as values.
pub open spec fn listing_view(listed: Seq<(&[u8], Option<&[u8]>)>) -> Seq<RecordView> {
    Seq::new(listed.len(), |i: int| entry_view(listed[i]))
}

/// Whether the records stand in strictly ascending key order.
pub open spec fn ascending(records: Seq<RecordView>) -> bool {
    forall|i: int, j: int|
        0 <= i < j < records.len() ==> key_lt(#[trigger] records[i].key, #[trigger] records[j].key)
}

/// Whether `records` are the entries of `entries`, each once and in ascending key order.
pub open spec fn lists(
    records: Seq<RecordView>,
    entries: Map<Seq<u8>, Option<Seq<u8>>>,
) -> bool {
    &&& ascending(records)
    &&& forall|i: int|
        0 <= i < records.len() ==> entries.contains_key(#[trigger] records[i].key)
            && entries[records[i].key] == records[i].val
    &&& forall|key: Seq<u8>| #[trigger]
        entries.contains_key(key) ==> exists|i: int|
            0 <= i < records.len() && #[trigger] records[i].key == key
}

/// The entries of a table, each once and in ascending key order.
pub open spec fn listing(entries: Map<Seq<u8>, Option<Seq<u8>>>) -> Seq<RecordView> {
    choose|records: Seq<RecordView>| lists(records, entries)
}

/// Whether every entry can be written as a record.
pub open spec fn entries_encodable(entries: Map<Seq<u8>, Option<Seq<u8>>>) -> bool {
    forall|key: Seq<u8>| #[trigger]
        entries.contains_key(key) ==> (RecordView { key, val: entries[key] }).encodable()
}

/// There is only one way to list the entries of a table in ascending order.
pub proof fn law_listing_is_unique(
    first: Seq<RecordView>,
    second: Seq<RecordView>,
    entries: Map<Seq<u8>, Option<Seq<u8>>>,
)
    requires
        lists(first, entries),
        lists(second, entries),
    ensures
        first == second,
        first == listing(entries),
{
    lemma_same_listing(first, second, entries);
    lemma_same_listing(first, listing(entries), entries);
}

/// `records` after `record` was written, which belongs at place `at`: in place of
/// the one of its key if that stands there, else in front of what stands there.
pub open spec fn with_item(records: Seq<RecordView>, at: int, record: RecordView) -> Seq<
    RecordView,
> {
    if at < records.len() && records[at].key == record.key {
        records.update(at, record)
    } else {
        records.insert(at, record)
    }
}

/// Whether `key` belongs at place `at` of `records`: behind all smaller keys, and
/// in front of all others.
pub open spec fn is_place_of(records: Seq<RecordView>, at: int, key: Seq<u8>) -> bool {
    &&& 0 <= at <= records.len()
    &&& forall|i: int| 0 <= i < at ==> key_lt(#[trigger] records[i].key, key)
    &&& forall|i: int| at <= i < records.len() ==> key_le(key, #[trigger] records[i].key)
}

/// Whether `after` is the listing `before` with `record` written: the item of its
/// key is replaced if there is one, and the length stays; else it is inserted
/// in order, and the length grows by one. All other items stay, and the keys of
/// `after` ascend.
pub open spec fn one_item_written(
    before: Seq<RecordView>,
    after: Seq<RecordView>,
    record: RecordView,
) -> bool {
    &&& ascending(after)
    &&& exists|at: int| #[trigger]
        is_place_of(before, at, record.key) && after == with_item(before, at, record)
    &&& after.len() == (if exists|i: int|
        0 <= i < before.len() && #[trigger] before[i].key == record.key {
        before.len()
    } else {
        before.len() + 1
    })
}

/// A write changes one item of the listing: the one of its key is replaced if
/// there is one, and the length stays; else it is inserted in order, and the
/// listing is longer by one. All other items stay, and the keys still ascend.
pub proof fn law_write_changes_one_item(
    records: Seq<RecordView>,
    entries: Map<Seq<u8>, Option<Seq<u8>>>,
    record: RecordView,
)
    requires
        lists(records, entries),
    ensures
        lists(
            listing(entries.insert(record.key, record.val)),
            entries.insert(record.key, record.val),
        ),
        one_item_written(records, listing(entries.insert(record.key, record.val)), record),
{
    lemma_key_order();
    let after = entries.insert(record.key, record.val);
    let at = lemma_place_of(records, record.key);
    let result = with_item(records, at, record);
    if entries.contains_key(record.key) {
        let i = choose|i: int| 0 <= i < records.len() && #[trigger] records[i].key == record.key;
        if at < i {
            assert(key_lt(records[at].key, records[i].key));
        }
        assert(at == i);
        assert forall|k: int| 0 <= k < result.len() implies after.contains_key(
            #[trigger] result[k].key,
        ) && after[result[k].key] == result[k].val by {
            assert(entries.contains_key(records[k].key));
            if k < at {
                assert(key_lt(records[k].key, records[at].key));
            }
            if k > at {
                assert(key_lt(records[at].key, records[k].key));
            }
        }
        assert forall|j: int, k: int| 0 <= j < k < result.len() implies key_lt(
            #[trigger] result[j].key,
            #[trigger] result[k].key,
        ) by {
            assert(key_lt(records[j].key, records[k].key));
        }
        assert forall|key: Seq<u8>| #[trigger] after.contains_key(key) implies exists|k: int|
            0 <= k < result.len() && #[trigger] result[k].key == key by {
            let k = choose|k: int| 0 <= k < records.len() && #[trigger] records[k].key == key;
            assert(result[k].key == key);
        }
    } else {
        if at < records.len() {
            assert(entries.contains_key(records[at].key));
        }
        lemma_inserted_item_lists(records, entries, record, at);
    }
    law_listing_is_unique(result, result, after);
}

proof fn lemma_inserted_item_lists(
    records: Seq<RecordView>,
    entries: Map<Seq<u8>, Option<Seq<u8>>>,
    record: RecordView,
    at: int,
)
    requires
        lists(records, entries),
        is_place_of(records, at, record.key),
        !entries.contains_key(record.key),
    ensures
        lists(records.insert(at, record), entries.insert(record.key, record.val)),
{
    lemma_key_order();
    let after = entries.insert(record.key, record.val);
    let result = records.insert(at, record);
    assert forall|k: int| 0 <= k < result.len() implies after.contains_key(
        #[trigger] result[k].key,
    ) && after[result[k].key] == result[k].val by {
        if k < at {
            assert(entries.contains_key(records[k].key));
        } else if k > at {
            assert(entries.contains_key(records[k - 1].key));
        }
    }
    assert forall|j: int, k: int| 0 <= j < k < result.len() implies key_lt(
        #[trigger] result[j].key,
        #[trigger] result[k].key,
    ) by {
        let old_j = if j < at {
            j
        } else {
            j - 1
        };
        let old_k = if k < at {
            k
        } else {
            k - 1
        };
        if j == at {
            assert(entries.contains_key(records[old_k].key));
            assert(key_le(record.key, records[old_k].key));
        } else if k == at {
            assert(key_lt(records[old_j].key, record.key));
        } else {
            assert(key_lt(records[old_j].key, records[old_k].key));
        }
    }
    assert forall|key: Seq<u8>| #[trigger] after.contains_key(key) implies exists|k: int|
        0 <= k < result.len() && #[trigger] result[k].key == key by {
        if key == record.key {
            assert(result[at].key == key);
        } else {
            let k = choose|k: int| 0 <= k < records.len() && #[trigger] records[k].key == key;
            if k < at {
                assert(result[k].key == key);
            } else {
                assert(result[k + 1].key == key);
            }
        }
    }
}

proof fn lemma_place_of(records: Seq<RecordView>, key: Seq<u8>) -> (at: int)
    requires
        ascending(records),
    ensures
        is_place_of(records, at, key),
    decreases records.len(),
{
    lemma_key_order();
    if records.len() == 0 {
        0
    } else {
        let earlier = records.drop_last();
        let last = records.len() - 1;
        assert forall|i: int, j: int| 0 <= i < j < earlier.len() implies key_lt(
            #[trigger] earlier[i].key,
            #[trigger] earlier[j].key,
        ) by {
            assert(key_lt(records[i].key, records[j].key));
        }
        let at = lemma_place_of(earlier, key);
        if key_lt(records[last].key, key) {
            assert forall|i: int| 0 <= i < records.len() implies key_lt(
                #[trigger] records[i].key,
                key,
            ) by {
                if i < last {
                    assert(key_lt(records[i].key, records[last].key));
                }
            }
            records.len() as int
        } else {
            assert forall|i: int| 0 <= i < at implies key_lt(#[trigger] records[i].key, key) by {
                assert(key_lt(earlier[i].key, key));
            }
            assert forall|i: int| at <= i < records.len() implies key_le(
                key,
                #[trigger] records[i].key,
            ) by {
                if i < last {
                    assert(key_le(key, earlier[i].key));
                }
            }
            at
        }
    }
}

proof fn lemma_same_listing(
    first: Seq<RecordView>,
    second: Seq<RecordView>,
    entries: Map<Seq<u8>, Option<Seq<u8>>>,
)
    requires
        lists(first, entries),
        lists(second, entries),
    ensures
        first == second,
    decreases first.len(),
{
    lemma_key_order();
    if first.len() == 0 {
        if second.len() > 0 {
            assert(entries.contains_key(second[0].key));
        }
        assert(first =~= second);
    } else {
        assert(entries.contains_key(first[0].key));
        assert(second.len() > 0);
        assert(entries.contains_key(second[0].key));
        let i = choose|i: int| 0 <= i < first.len() && #[trigger] first[i].key == second[0].key;
        let j = choose|j: int| 0 <= j < second.len() && #[trigger] second[j].key == first[0].key;
        if i > 0 {
            assert(key_lt(first[0].key, first[i].key));
        }
        if j > 0 {
            assert(key_lt(second[0].key, second[j].key));
        }
        assert(first[0].key == second[0].key);
        lemma_listing_without_first(first, entries);
        lemma_listing_without_first(second, entries);
        lemma_same_listing(
            first.drop_first(),
            second.drop_first(),
            entries.remove(first[0].key),
        );
        assert(first =~= seq![first[0]] + first.drop_first());
        assert(second =~= seq![second[0]] + second.drop_first());
    }
}

proof fn lemma_listing_without_first(
    records: Seq<RecordView>,
    entries: Map<Seq<u8>, Option<Seq<u8>>>,
)
    requires
        lists(records, entries),
        records.len() > 0,
    ensures
        lists(records.drop_first(), entries.remove(records[0].key)),
{
    lemma_key_order();
    let others = records.drop_first();
    let fewer = entries.remove(records[0].key);
    assert forall|i: int| 0 <= i < others.len() implies fewer.contains_key(
        #[trigger] others[i].key,
    ) && fewer[others[i].key] == others[i].val by {
        assert(entries.contains_key(records[i + 1].key));
        assert(key_lt(records[0].key, records[i + 1].key));
    }
    assert forall|i: int, j: int| 0 <= i < j < others.len() implies key_lt(
        #[trigger] others[i].key,
        #[trigger] others[j].key,
    ) by {
        assert(key_lt(records[i + 1].key, records[j + 1].key));
    }
    assert forall|key: Seq<u8>| #[trigger] fewer.contains_key(key) implies exists|i: int|
        0 <= i < others.len() && #[trigger] others[i].key == key by {
        let i = choose|i: int| 0 <= i < records.len() && #[trigger] records[i].key == key;
        assert(others[i - 1].key == key);
    }
}

} // verus!
