//! The write-ahead-log collaborators, seen from the value table's side: an
//! overlay of staged entries addressed by `(table, slot index)`, a writer
//! that appends staged entries for the batch in progress, and a reader that
//! streams entry bytes back during replay.  The overlay keeps only the used
//! prefix of each staged entry; the most recently staged bytes for a slot
//! win.
use vstd::prelude::*;
use crate::table::TableId;
use crate::table::Error;

verus! {

/// One staged entry: the used-prefix bytes for one slot of one table.
pub struct LogRecord {
    pub table: TableId,
    pub slot: u64,
    pub bytes: Vec<u8>,
}

/// The most recently staged bytes for `(t, i)` among `recs`, if any.
pub open spec fn staged(recs: Seq<LogRecord>, t: TableId, i: u64) -> Option<Seq<u8>>
    decreases recs.len(),
{
    if recs.len() == 0 {
        None
    } else if recs.last().table == t && recs.last().slot == i {
        Some(recs.last().bytes@)
    } else {
        staged(recs.drop_last(), t, i)
    }
}

/// Appending a record changes the staged bytes at its own slot and at no
/// other.
pub proof fn lemma_staged_push(recs: Seq<LogRecord>, r: LogRecord, t: TableId, i: u64)
    ensures
        r.table == t && r.slot == i ==> staged(recs.push(r), t, i) == Some(r.bytes@),
        !(r.table == t && r.slot == i) ==> staged(recs.push(r), t, i) == staged(recs, t, i),
{
    assert(recs.push(r).drop_last() =~= recs);
}

/// Appending any run of records leaves the staged bytes unchanged at every
/// slot none of them names.
pub proof fn lemma_staged_grow(pre: Seq<LogRecord>, post: Seq<LogRecord>, t: TableId, i: u64)
    requires
        pre.is_prefix_of(post),
        forall|k: int|
            pre.len() <= k < post.len() ==> !(#[trigger] post[k].table == t && post[k].slot == i),
    ensures
        staged(post, t, i) == staged(pre, t, i),
    decreases post.len(),
{
    if post.len() > pre.len() {
        assert(post.drop_last() =~= post.subrange(0, post.len() - 1));
        assert(pre.is_prefix_of(post.drop_last()));
        lemma_staged_grow(pre, post.drop_last(), t, i);
    } else {
        assert(post =~= pre);
    }
}

/// When a run of records for distinct slots of one table is appended, each
/// of those slots ends up staged with exactly its own record's bytes.
pub proof fn lemma_staged_run(pre: Seq<LogRecord>, post: Seq<LogRecord>, t: TableId, sl: Seq<u64>)
    requires
        pre.is_prefix_of(post),
        post.len() == pre.len() + sl.len(),
        forall|k: int|
            0 <= k < sl.len() ==> #[trigger] post[pre.len() + k].table == t && post[pre.len()
                + k].slot == sl[k],
        sl.no_duplicates(),
    ensures
        forall|j: int|
            0 <= j < sl.len() ==> staged(post, t, #[trigger] sl[j]) == Some(
                post[pre.len() + j].bytes@,
            ),
{
    assert forall|j: int| 0 <= j < sl.len() implies staged(post, t, #[trigger] sl[j]) == Some(
        post[pre.len() + j].bytes@,
    ) by {
        let cut = post.subrange(0, pre.len() + j + 1);
        assert(cut.is_prefix_of(post)) by {
            assert(post.subrange(0, cut.len() as int) =~= cut);
        }
        assert forall|k: int| cut.len() <= k < post.len() implies !(#[trigger] post[k].table == t
            && post[k].slot == sl[j]) by {
            let k2 = k - pre.len();
            assert(post[pre.len() + k2].table == t && post[pre.len() + k2].slot == sl[k2]);
            assert(sl[k2] != sl[j]);
        }
        lemma_staged_grow(cut, post, t, sl[j]);
        assert(post[pre.len() + j].table == t && post[pre.len() + j].slot == sl[j]);
        assert(cut.last() == post[pre.len() + j]);
        assert(staged(cut, t, sl[j]) == Some(cut.last().bytes@));
    }
}

/// A snapshot of every staged entry across the pending batches, newest
/// last.
pub struct LogOverlays {
    pub records: Vec<LogRecord>,
}

impl LogOverlays {
    /// An overlay with nothing staged.
    pub fn new() -> (r: LogOverlays)
        ensures
            r.records@.len() == 0,
    {
        LogOverlays { records: Vec::new() }
    }

    /// The most recently staged bytes for slot `i` of table `t`, if any.
    #[verifier::loop_isolation(false)]
    pub fn value(&self, t: TableId, i: u64) -> (r: Option<Vec<u8>>)
        ensures
            match r {
                Some(b) => staged(self.records@, t, i) == Some(b@),
                None => staged(self.records@, t, i).is_none(),
            },
    {
        let n: usize = self.records.len();
        proof {
            assert(self.records@.subrange(0, n as int) =~= self.records@);
        }
        let mut k: usize = n;
        while k > 0
            invariant
                0 <= k <= n,
                staged(self.records@, t, i) == staged(self.records@.subrange(0, k as int), t, i),
            decreases k,
        {
            let rec = &self.records[k - 1];
            if rec.table == t && rec.slot == i {
                proof {
                    assert(self.records@.subrange(0, k as int).last() == self.records@[k - 1]);
                }
                let b = crate::bytes::copy_range(&rec.bytes, 0, rec.bytes.len());
                proof {
                    assert(b@ =~= self.records@[k - 1].bytes@);
                }
                return Some(b);
            }
            proof {
                assert(self.records@.subrange(0, k as int).drop_last() =~= self.records@.subrange(
                    0,
                    k - 1,
                ));
            }
            k = k - 1;
        }
        proof {
            assert(self.records@.subrange(0, 0).len() == 0);
        }
        None
    }
}

/// The writer of the batch in progress: it accumulates staged entries in
/// order.
pub struct LogWriter {
    pub overlay: LogOverlays,
}

impl LogWriter {
    /// A writer with an empty batch.
    pub fn new() -> (r: LogWriter)
        ensures
            r.overlay.records@.len() == 0,
    {
        LogWriter { overlay: LogOverlays::new() }
    }

    /// Stages `bytes` as the entry for slot `i` of table `t`.
    pub fn insert_value(&mut self, t: TableId, i: u64, bytes: Vec<u8>)
        ensures
            final(self).overlay.records@ == old(self).overlay.records@.push(
                LogRecord { table: t, slot: i, bytes },
            ),
    {
        self.overlay.records.push(LogRecord { table: t, slot: i, bytes });
    }

    /// The bytes staged for slot `i` of table `t` in this batch, if any.
    pub fn value_overlay_at(&self, t: TableId, i: u64) -> (r: Option<Vec<u8>>)
        ensures
            match r {
                Some(b) => staged(self.overlay.records@, t, i) == Some(b@),
                None => staged(self.overlay.records@, t, i).is_none(),
            },
    {
        self.overlay.value(t, i)
    }
}

/// A reader that streams the recorded entry bytes back in order during
/// replay.
pub struct LogReader {
    pub data: Vec<u8>,
    pub pos: usize,
}

impl LogReader {
    /// A reader positioned at the start of `data`.
    pub fn new(data: Vec<u8>) -> (r: LogReader)
        ensures
            r.data@ == data@,
            r.pos == 0,
    {
        LogReader { data, pos: 0 }
    }

    /// Reads the next `count` bytes of the stream.  Fails, consuming
    /// nothing, exactly when fewer than `count` bytes are left.
    pub fn read(&mut self, count: usize) -> (r: Result<Vec<u8>, Error>)
        ensures
            final(self).data@ == old(self).data@,
            match r {
                Ok(b) => {
                    &&& old(self).pos + count <= old(self).data@.len()
                    &&& b@ == old(self).data@.subrange(
                        old(self).pos as int,
                        old(self).pos + count,
                    )
                    &&& final(self).pos == old(self).pos + count
                },
                Err(e) => {
                    &&& old(self).pos + count > old(self).data@.len()
                    &&& e == Error::LogEof
                    &&& final(self).pos == old(self).pos
                },
            },
    {
        let n: usize = self.data.len();
        if self.pos > n || count > n - self.pos {
            return Err(Error::LogEof);
        }
        let b = crate::bytes::copy_range(&self.data, self.pos, self.pos + count);
        self.pos = self.pos + count;
        Ok(b)
    }
}

} // verus!
