//! Statements that tie the table's operations together.
use vstd::prelude::*;
use crate::bytes::le64_of;
use crate::table::ValueTable;

verus! {

/// Persisting the header and reopening the store recovers the allocator
/// counters exactly: a table whose header slot carries its `last_removed`
/// and `filled` counters, as `complete_plan` leaves it, yields those same
/// counters back through the header decoding that `open` performs.
pub proof fn lemma_header_round_trip(t: ValueTable, r: ValueTable, data: Seq<u8>)
    requires
        t.wf(),
        data.len() >= 16,
        le64_of(data.subrange(0, 8)) == t.last_removed,
        le64_of(data.subrange(8, 16)) == t.filled,
        r.last_removed == le64_of(data.subrange(0, 8)),
        r.filled == (if le64_of(data.subrange(8, 16)) == 0 {
            1int
        } else {
            le64_of(data.subrange(8, 16))
        }),
    ensures
        r.last_removed == t.last_removed,
        r.filled == t.filled,
{
}

} // verus!
