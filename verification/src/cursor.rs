//! The paged cursor: a resumable, forward-only window over one collection's
//! rows under the active transaction. A request that continues exactly where
//! the last one ended reuses the open iteration position; any jump, or a
//! change of transaction identity, discards it and seeks again from the
//! start, which the re-seek counter records.

use vstd::prelude::*;

use crate::session::next_id;
use crate::session::Session;
use crate::store::entries_view;
use crate::store::Entry;

verus! {

/// The window of rows a request yields: up to `count` rows starting at
/// `start`, clipped to the collection.
pub open spec fn rows_spec(v: Seq<(Seq<u8>, Seq<u8>)>, start: int, count: int) -> Seq<
    (Seq<u8>, Seq<u8>),
>
    recommends
        start >= 0,
        count >= 0,
{
    let lo = if start <= v.len() {
        start
    } else {
        v.len() as int
    };
    let hi = if start + count <= v.len() {
        start + count
    } else {
        v.len() as int
    };
    if lo <= hi {
        v.subrange(lo, hi)
    } else {
        Seq::empty()
    }
}

/// Law: adjacent windows, requested in order, cover exactly the rows of the
/// single window spanning both — paging sequentially loses and repeats
/// nothing.
pub proof fn lemma_rows_concat(v: Seq<(Seq<u8>, Seq<u8>)>, start: int, n: int, m: int)
    requires
        start >= 0,
        n >= 0,
        m >= 0,
    ensures
        rows_spec(v, start, n) + rows_spec(v, start + n, m) == rows_spec(v, start, n + m),
{
    assert(rows_spec(v, start, n) + rows_spec(v, start + n, m) =~= rows_spec(v, start, n + m));
}

/// The paged cursor. `next_row` is the row a strictly sequential next
/// request would start at; `reseeks` counts the requests that could not
/// continue sequentially and had to seek from the start.
pub struct Cursor {
    /// The collection handle the open position belongs to.
    pub coll: usize,
    /// The identity tag of the transaction the position was taken under.
    pub txn_id: u64,
    /// The row index the next sequential request starts at.
    pub next_row: usize,
    /// Whether any position is held at all.
    pub valid: bool,
    /// How many requests re-sought from the start.
    pub reseeks: u64,
}

impl Cursor {
    /// A request continues sequentially when a position is held for the same
    /// collection under the same transaction and starts at the next row.
    pub open spec fn sequential(self, txn_id: u64, coll: usize, start: usize) -> bool {
        self.valid && self.txn_id == txn_id && self.coll == coll && start == self.next_row
    }

    /// A cursor holding no position yet.
    pub fn new() -> (r: Cursor)
        ensures
            !r.valid,
            r.reseeks == 0,
    {
        Cursor { coll: 0, txn_id: 0, next_row: 0, valid: false, reseeks: 0 }
    }

    /// Yields up to `count` rows starting at row `start` of one collection
    /// under the session's active transaction. A `start` at or past the end
    /// yields an empty window, not an error; bounds are taken fresh from the
    /// collection on every call.
    pub fn request_rows(
        &mut self,
        session: &Session,
        coll: usize,
        start: usize,
        count: usize,
    ) -> (rows: Vec<Entry>)
        requires
            session@.wf(),
            coll < session@.visible().colls.len(),
        ensures
            entries_view(rows@) == rows_spec(
                session@.visible().colls[coll as int],
                start as int,
                count as int,
            ),
            old(self).sequential(session@.txn_id, coll, start) ==> final(self).reseeks == old(
                self,
            ).reseeks,
            !old(self).sequential(session@.txn_id, coll, start) ==> final(self).reseeks == next_id(
                old(self).reseeks,
            ),
            final(self).valid,
            final(self).coll == coll,
            final(self).txn_id == session@.txn_id,
            final(self).next_row == start + rows@.len(),
    {
        let sequential = self.valid && self.txn_id == session.transaction_id() && self.coll == coll
            && start == self.next_row;
        if !sequential {
            if self.reseeks < u64::MAX {
                self.reseeks = self.reseeks + 1;
            } else {
                self.reseeks = 0;
            }
        }
        let ghost v = session@.visible().colls[coll as int];
        let store = session.visible_ref();
        let total = store.cardinality(coll);
        let mut rows: Vec<Entry> = Vec::new();
        if start < total {
            let avail = total - start;
            let take = if count < avail {
                count
            } else {
                avail
            };
            let mut j: usize = 0;
            while j < take
                invariant
                    j <= take,
                    start + take <= total,
                    total == v.len(),
                    coll < store@.colls.len(),
                    store@.colls[coll as int] == v,
                    rows@.len() == j,
                    forall|l: int| 0 <= l < j ==> (#[trigger] rows@[l])@ == v[start + l],
                decreases take - j,
            {
                rows.push(store.row(coll, start + j));
                j = j + 1;
            }
        }
        self.valid = true;
        self.coll = coll;
        self.txn_id = session.transaction_id();
        self.next_row = start + rows.len();
        proof {
            assert(entries_view(rows@) =~= rows_spec(v, start as int, count as int));
        }
        rows
    }
}

} // verus!
