//! The order of keys and of listings, stated byte by byte.

use vstd::prelude::*;

use crate::memtable::lists;
use crate::order::{key_le, key_lt};
use crate::record::RecordView;

verus! {

/// Whether `a` and `b` agree in front of place `n`, where `a` has the smaller byte.
pub open spec fn smaller_at(a: Seq<u8>, b: Seq<u8>, n: int) -> bool {
    &&& 0 <= n < a.len()
    &&& n < b.len()
    &&& forall|i: int| 0 <= i < n ==> a[i] == b[i]
    &&& a[n] < b[n]
}

/// Whether `a` is a proper prefix of `b`.
pub open spec fn proper_prefix(a: Seq<u8>, b: Seq<u8>) -> bool {
    &&& a.len() < b.len()
    &&& forall|i: int| 0 <= i < a.len() ==> a[i] == b[i]
}

/// Of two keys that differ first at byte `n`, the one with the smaller byte there
/// sorts first, however long they are.
pub proof fn law_first_different_byte_decides(a: Seq<u8>, b: Seq<u8>, n: int)
    requires
        0 <= n < a.len(),
        n < b.len(),
        forall|i: int| 0 <= i < n ==> a[i] == b[i],
        a[n] != b[n],
    ensures
        key_lt(a, b) == (a[n] < b[n]),
        key_lt(b, a) == (b[n] < a[n]),
        key_le(a, b) == (a[n] < b[n]),
        key_le(b, a) == (b[n] < a[n]),
    decreases n,
{
    if n > 0 {
        assert(a[0] == b[0]);
        assert forall|i: int| 0 <= i < n - 1 implies a.drop_first()[i] == b.drop_first()[i] by {
            assert(a[i + 1] == b[i + 1]);
        }
        law_first_different_byte_decides(a.drop_first(), b.drop_first(), n - 1);
    }
}

/// A key sorts before every longer key that begins with it.
pub proof fn law_prefix_sorts_first(a: Seq<u8>, b: Seq<u8>)
    requires
        a.len() < b.len(),
        forall|i: int| 0 <= i < a.len() ==> a[i] == b[i],
    ensures
        key_lt(a, b),
        !key_lt(b, a),
        key_le(a, b),
        !key_le(b, a),
    decreases a.len(),
{
    if a.len() > 0 {
        assert(a[0] == b[0]);
        assert forall|i: int| 0 <= i < a.len() - 1 implies a.drop_first()[i]
            == b.drop_first()[i] by {
            assert(a[i + 1] == b[i + 1]);
        }
        law_prefix_sorts_first(a.drop_first(), b.drop_first());
    }
}

/// A key does not sort before itself.
pub proof fn law_key_is_not_before_itself(a: Seq<u8>)
    ensures
        !key_lt(a, a),
        key_le(a, a),
    decreases a.len(),
{
    if a.len() > 0 {
        law_key_is_not_before_itself(a.drop_first());
    }
}

/// Two keys are equal, or one begins with the other, or there is a byte at which
/// they differ first: the order of keys is the lexicographic one.
pub proof fn law_key_order_is_lexicographic(a: Seq<u8>, b: Seq<u8>)
    ensures
        key_lt(a, b) <==> proper_prefix(a, b) || exists|n: int| smaller_at(a, b, n),
        key_le(a, b) <==> a == b || proper_prefix(a, b) || exists|n: int| smaller_at(a, b, n),
{
    law_key_is_not_before_itself(a);
    let n = first_difference(a, b);
    if n < a.len() && n < b.len() {
        law_first_different_byte_decides(a, b, n);
        if a[n] < b[n] {
            assert(smaller_at(a, b, n));
        } else {
            assert forall|m: int| !smaller_at(a, b, m) by {
                if smaller_at(a, b, m) {
                    assert(m >= n);
                    assert(a[n] == b[n] || m == n);
                }
            }
        }
    } else if a.len() < b.len() {
        law_prefix_sorts_first(a, b);
    } else if b.len() < a.len() {
        law_prefix_sorts_first(b, a);
        assert forall|m: int| !smaller_at(a, b, m) by {}
    } else {
        assert(a =~= b);
    }
}

/// The first place at which the keys differ, or the length of the shorter one.
proof fn first_difference(a: Seq<u8>, b: Seq<u8>) -> (n: int)
    ensures
        0 <= n <= a.len(),
        n <= b.len(),
        forall|i: int| 0 <= i < n ==> a[i] == b[i],
        n < a.len() && n < b.len() ==> a[n] != b[n],
    decreases a.len(),
{
    if a.len() == 0 || b.len() == 0 || a[0] != b[0] {
        0
    } else {
        let m = first_difference(a.drop_first(), b.drop_first());
        assert forall|i: int| 0 <= i < m + 1 implies a[i] == b[i] by {
            if i > 0 {
                assert(a.drop_first()[i - 1] == b.drop_first()[i - 1]);
            }
        }
        if m + 1 < a.len() && m + 1 < b.len() {
            assert(a.drop_first()[m] != b.drop_first()[m]);
        }
        m + 1
    }
}

/// The items of a listing ascend byte by byte: of two items the earlier one's key
/// is a proper prefix of the later one's, or has the smaller byte at the first
/// place at which they differ.
pub proof fn law_listing_ascends_byte_by_byte(
    records: Seq<RecordView>,
    entries: Map<Seq<u8>, Option<Seq<u8>>>,
    i: int,
    j: int,
)
    requires
        lists(records, entries),
        0 <= i < j < records.len(),
    ensures
        proper_prefix(records[i].key, records[j].key) || exists|n: int|
            smaller_at(records[i].key, records[j].key, n),
{
    assert(key_lt(records[i].key, records[j].key));
    law_key_order_is_lexicographic(records[i].key, records[j].key);
}

/// A listing holds every entry with its value or tombstone, exactly once, and
/// nothing else.
pub proof fn law_listing_holds_each_entry_once(
    records: Seq<RecordView>,
    entries: Map<Seq<u8>, Option<Seq<u8>>>,
)
    requires
        lists(records, entries),
    ensures
        forall|record: RecordView| #[trigger]
            records.contains(record) <==> entries.contains_key(record.key) && entries[record.key]
                == record.val,
        forall|i: int, j: int|
            0 <= i < records.len() && 0 <= j < records.len() && #[trigger] records[i].key
                == #[trigger] records[j].key ==> i == j,
{
    assert forall|record: RecordView| #[trigger]
        records.contains(record) <==> entries.contains_key(record.key) && entries[record.key]
            == record.val by {
        if records.contains(record) {
            let i = choose|i: int| 0 <= i < records.len() && records[i] == record;
            assert(entries.contains_key(records[i].key));
        } else if entries.contains_key(record.key) && entries[record.key] == record.val {
            let i = choose|i: int| 0 <= i < records.len() && #[trigger] records[i].key
                == record.key;
            assert(records[i].val == record.val);
            assert(records[i] == record);
        }
    }
    assert forall|i: int, j: int|
        0 <= i < records.len() && 0 <= j < records.len() && #[trigger] records[i].key
            == #[trigger] records[j].key implies i == j by {
        law_key_is_not_before_itself(records[i].key);
        if i < j {
            assert(key_lt(records[i].key, records[j].key));
        }
        if j < i {
            assert(key_lt(records[j].key, records[i].key));
        }
    }
}

/// Records that ascend byte by byte and hold each entry with its value are a listing.
pub proof fn law_ascending_entries_are_a_listing(
    records: Seq<RecordView>,
    entries: Map<Seq<u8>, Option<Seq<u8>>>,
)
    requires
        forall|i: int, j: int|
            0 <= i < j < records.len() ==> proper_prefix(
                #[trigger] records[i].key,
                #[trigger] records[j].key,
            ) || exists|n: int| smaller_at(records[i].key, records[j].key, n),
        forall|record: RecordView| #[trigger]
            records.contains(record) <==> entries.contains_key(record.key) && entries[record.key]
                == record.val,
    ensures
        lists(records, entries),
{
    assert forall|i: int, j: int| 0 <= i < j < records.len() implies key_lt(
        #[trigger] records[i].key,
        #[trigger] records[j].key,
    ) by {
        law_key_order_is_lexicographic(records[i].key, records[j].key);
    }
    assert forall|i: int| 0 <= i < records.len() implies entries.contains_key(
        #[trigger] records[i].key,
    ) && entries[records[i].key] == records[i].val by {
        assert(records.contains(records[i]));
    }
    assert forall|key: Seq<u8>| #[trigger] entries.contains_key(key) implies exists|i: int|
        0 <= i < records.len() && #[trigger] records[i].key == key by {
        let record = RecordView { key, val: entries[key] };
        assert(records.contains(record));
        let i = choose|i: int| 0 <= i < records.len() && records[i] == record;
        assert(records[i].key == key);
    }
}

} // verus!
