//! The transaction session: a state machine holding exactly one active
//! transaction — a read snapshot (`Reading`, the resting state) or the
//! exclusive write transaction (`Writing`) — with explicit begin-write,
//! commit and abort transitions, and the mutation operations that are only
//! permitted while writing.

use vstd::prelude::*;

use crate::store::clone_bytes;
use crate::store::clone_store;
use crate::store::coll_delete;
use crate::store::coll_put;
use crate::store::lemma_delete_absent;
use crate::store::lemma_delete_lookup;
use crate::store::lemma_put_lookup;
use crate::store::lookup;
use crate::store::Store;
use crate::store::StoreV;
use crate::EngineError;

verus! {

/// The active transaction: a read snapshot, or the write transaction with
/// its working state. There is no third, empty state.
pub enum Txn {
    Reading,
    Writing { working: Store },
}

/// The mathematical content of the active transaction.
pub ghost enum TxnV {
    Reading,
    Writing { working: StoreV },
}

/// The mathematical content of a session: the committed store, the active
/// transaction, and the identity tag of that transaction.
#[verifier::ext_equal]
pub ghost struct SessionV {
    pub committed: StoreV,
    pub txn: TxnV,
    pub txn_id: u64,
}

impl SessionV {
    /// Whether the session holds only the read snapshot.
    pub open spec fn is_reading(self) -> bool {
        self.txn is Reading
    }

    /// Whether the session holds the exclusive write transaction.
    pub open spec fn is_writing(self) -> bool {
        self.txn is Writing
    }

    /// The store the session currently sees: the working state while
    /// writing, the committed state otherwise.
    pub open spec fn visible(self) -> StoreV {
        match self.txn {
            TxnV::Reading => self.committed,
            TxnV::Writing { working } => working,
        }
    }

    /// Both held stores are well-formed.
    pub open spec fn wf(self) -> bool {
        &&& self.committed.wf()
        &&& (self.txn is Writing ==> self.txn->working.wf())
    }
}

/// The next value of a wrapping counter; it tags transaction identities
/// and counts cursor re-seeks.
pub open spec fn next_id(id: u64) -> u64 {
    if id == u64::MAX {
        0
    } else {
        (id + 1) as u64
    }
}

/// What beginning a write transaction does: from `Reading` it opens the
/// write transaction on a snapshot of the committed state; while already
/// writing it is a no-op.
pub open spec fn step_begin_write(s: SessionV) -> SessionV {
    if s.txn is Reading {
        SessionV { txn: TxnV::Writing { working: s.committed }, txn_id: next_id(s.txn_id), ..s }
    } else {
        s
    }
}

/// What commit does: from `Writing` the working state becomes the committed
/// one and a fresh read snapshot is taken; while reading it is a no-op.
pub open spec fn step_commit(s: SessionV) -> SessionV {
    match s.txn {
        TxnV::Reading => s,
        TxnV::Writing { working } => SessionV {
            committed: working,
            txn: TxnV::Reading,
            txn_id: next_id(s.txn_id),
        },
    }
}

/// What abort does: from `Writing` the working state is discarded and a
/// fresh read snapshot of the unchanged committed state is taken; while
/// reading it is a no-op.
pub open spec fn step_abort(s: SessionV) -> SessionV {
    match s.txn {
        TxnV::Reading => s,
        TxnV::Writing { .. } => SessionV {
            committed: s.committed,
            txn: TxnV::Reading,
            txn_id: next_id(s.txn_id),
        },
    }
}

/// What a put does: while writing it updates one collection of the working
/// state; while reading it changes nothing.
pub open spec fn step_put(s: SessionV, id: int, k: Seq<u8>, v: Seq<u8>) -> SessionV {
    match s.txn {
        TxnV::Reading => s,
        TxnV::Writing { working } => SessionV {
            txn: TxnV::Writing {
                working: StoreV {
                    names: working.names,
                    colls: working.colls.update(id, coll_put(working.colls[id], k, v)),
                },
            },
            ..s
        },
    }
}

/// What a delete does: while writing it removes one key from one collection
/// of the working state; while reading it changes nothing.
pub open spec fn step_delete(s: SessionV, id: int, k: Seq<u8>) -> SessionV {
    match s.txn {
        TxnV::Reading => s,
        TxnV::Writing { working } => SessionV {
            txn: TxnV::Writing {
                working: StoreV {
                    names: working.names,
                    colls: working.colls.update(id, coll_delete(working.colls[id], k)),
                },
            },
            ..s
        },
    }
}

/// The session: owns the committed store and the active transaction.
pub struct Session {
    committed: Store,
    txn: Txn,
    txn_id: u64,
}

impl View for Session {
    type V = SessionV;

    closed spec fn view(&self) -> SessionV {
        SessionV {
            committed: self.committed@,
            txn: match self.txn {
                Txn::Reading => TxnV::Reading,
                Txn::Writing { working } => TxnV::Writing { working: working@ },
            },
            txn_id: self.txn_id,
        }
    }
}

impl Session {
    /// A session resting on a read snapshot of the given store.
    pub fn new(initial: Store) -> (r: Session)
        requires
            initial@.wf(),
        ensures
            r@.wf(),
            r@.is_reading(),
            r@.committed == initial@,
    {
        Session { committed: initial, txn: Txn::Reading, txn_id: 0 }
    }

    /// Whether the exclusive write transaction is held.
    pub fn is_writing(&self) -> (r: bool)
        ensures
            r == self@.is_writing(),
    {
        match &self.txn {
            Txn::Reading => false,
            Txn::Writing { .. } => true,
        }
    }

    /// The identity tag of the active transaction.
    pub fn transaction_id(&self) -> (r: u64)
        ensures
            r == self@.txn_id,
    {
        self.txn_id
    }

    /// The store the session currently sees.
    pub fn visible_ref(&self) -> (r: &Store)
        ensures
            r@ == self@.visible(),
    {
        match &self.txn {
            Txn::Reading => &self.committed,
            Txn::Writing { working } => working,
        }
    }

    fn bump_id(&mut self)
        ensures
            final(self)@ == (SessionV { txn_id: next_id(old(self)@.txn_id), ..old(self)@ }),
    {
        if self.txn_id < u64::MAX {
            self.txn_id = self.txn_id + 1;
        } else {
            self.txn_id = 0;
        }
        proof {
            assert(final(self)@ =~= SessionV { txn_id: next_id(old(self)@.txn_id), ..old(self)@ });
        }
    }

    /// Opens the exclusive write transaction on a snapshot of the committed
    /// state; a second request before commit or abort is ignored.
    pub fn begin_write(&mut self)
        requires
            old(self)@.wf(),
        ensures
            final(self)@.wf(),
            final(self)@ == step_begin_write(old(self)@),
    {
        match &self.txn {
            Txn::Reading => {
                let working = clone_store(&self.committed);
                self.txn = Txn::Writing { working };
                self.bump_id();
                proof {
                    assert(final(self)@ =~= step_begin_write(old(self)@));
                }
            },
            Txn::Writing { .. } => {},
        }
    }

    /// Durably applies the writes of the session and rests on a fresh read
    /// snapshot of the newly committed state; while reading it is a no-op.
    pub fn commit(&mut self)
        requires
            old(self)@.wf(),
        ensures
            final(self)@.wf(),
            final(self)@ == step_commit(old(self)@),
    {
        let mut txn = Txn::Reading;
        core::mem::swap(&mut txn, &mut self.txn);
        match txn {
            Txn::Reading => {},
            Txn::Writing { working } => {
                self.committed = working;
                self.bump_id();
                proof {
                    assert(final(self)@ =~= step_commit(old(self)@));
                }
            },
        }
    }

    /// Discards the writes of the session and rests on a fresh read snapshot
    /// of the unchanged committed state; while reading it is a no-op.
    pub fn abort(&mut self)
        requires
            old(self)@.wf(),
        ensures
            final(self)@.wf(),
            final(self)@ == step_abort(old(self)@),
    {
        let mut txn = Txn::Reading;
        core::mem::swap(&mut txn, &mut self.txn);
        match txn {
            Txn::Reading => {},
            Txn::Writing { .. } => {
                self.bump_id();
                proof {
                    assert(final(self)@ =~= step_abort(old(self)@));
                }
            },
        }
    }

    /// Inserts or updates an entry of one collection; permitted only while
    /// writing, rejected with `InvalidState` otherwise.
    pub fn put(&mut self, id: usize, key: Vec<u8>, value: Vec<u8>) -> (r: Result<
        (),
        EngineError,
    >)
        requires
            old(self)@.wf(),
            id < old(self)@.visible().colls.len(),
        ensures
            final(self)@.wf(),
            final(self)@ == step_put(old(self)@, id as int, key@, value@),
            r is Ok <==> old(self)@.is_writing(),
            r is Err ==> r == Err::<(), EngineError>(EngineError::InvalidState),
    {
        match &mut self.txn {
            Txn::Reading => Err(EngineError::InvalidState),
            Txn::Writing { working } => {
                working.put(id, key, value);
                proof {
                    assert(final(self)@ =~= step_put(old(self)@, id as int, key@, value@));
                }
                Ok(())
            },
        }
    }

    /// Removes the entry of one collection under a key; permitted only while
    /// writing, rejected with `InvalidState` otherwise. Deleting an absent
    /// key succeeds and reports `false`.
    pub fn delete(&mut self, id: usize, key: &Vec<u8>) -> (r: Result<bool, EngineError>)
        requires
            old(self)@.wf(),
            id < old(self)@.visible().colls.len(),
        ensures
            final(self)@.wf(),
            final(self)@ == step_delete(old(self)@, id as int, key@),
            r is Ok <==> old(self)@.is_writing(),
            r is Ok ==> r == Ok::<bool, EngineError>(
                lookup(old(self)@.visible().colls[id as int], key@) is Some,
            ),
            r is Err ==> r == Err::<bool, EngineError>(EngineError::InvalidState),
    {
        match &mut self.txn {
            Txn::Reading => Err(EngineError::InvalidState),
            Txn::Writing { working } => {
                let found = working.delete(id, key);
                proof {
                    assert(final(self)@ =~= step_delete(old(self)@, id as int, key@));
                }
                Ok(found)
            },
        }
    }

    /// The value the visible store holds under a key in one collection.
    pub fn get(&self, id: usize, key: &Vec<u8>) -> (r: Option<Vec<u8>>)
        requires
            self@.wf(),
            id < self@.visible().colls.len(),
        ensures
            match r {
                Some(v) => lookup(self@.visible().colls[id as int], key@) == Some(v@),
                None => lookup(self@.visible().colls[id as int], key@) is None,
            },
    {
        self.visible_ref().get(id, key)
    }

    /// The handle of a collection in the visible store; `None` for a named
    /// collection that does not exist (a normal outcome, no error).
    pub fn open(&self, name: Option<&Vec<u8>>) -> (r: Option<usize>)
        requires
            self@.wf(),
        ensures
            match name {
                None => r == Some(0usize),
                Some(n) => match r {
                    Some(id) => 1 <= id < self@.visible().colls.len()
                        && self@.visible().names[id as int - 1] == n@,
                    None => forall|i: int|
                        0 <= i < self@.visible().names.len() ==> (#[trigger] self@.visible().names[i])
                            != n@,
                },
            },
    {
        self.visible_ref().open(name)
    }

    /// The handle of a collection in the visible store, creating the named
    /// collection if absent. Creation mutates the store's metadata, so it
    /// requires the write transaction; opening an existing collection does
    /// not.
    pub fn open_or_create(&mut self, name: Option<&Vec<u8>>) -> (r: Result<usize, EngineError>)
        requires
            old(self)@.wf(),
        ensures
            final(self)@.wf(),
            match r {
                Ok(id) => id < final(self)@.visible().colls.len(),
                Err(e) => e == EngineError::InvalidState,
            },
            match name {
                None => r == Ok::<usize, EngineError>(0usize) && final(self)@ == old(self)@,
                Some(n) => {
                    let before = old(self)@.visible();
                    &&& has_name(before, n@) ==> (r is Ok && final(self)@ == old(self)@ && 1 <= (
                    r->Ok_0) < before.colls.len() && before.names[r->Ok_0 - 1] == n@)
                    &&& (!has_name(before, n@) && old(self)@.is_writing()) ==> (r is Ok && (r->Ok_0)
                        == before.colls.len() && final(self)@ == step_create(old(self)@, n@))
                    &&& (!has_name(before, n@) && old(self)@.is_reading()) ==> (r
                        == Err::<usize, EngineError>(EngineError::InvalidState) && final(self)@
                        == old(self)@)
                },
            },
    {
        match name {
            None => Ok(0),
            Some(n) => {
                let existing = self.visible_ref().open(Some(n));
                match existing {
                    Some(id) => {
                        proof {
                            assert(self@.visible().names[id as int - 1] == n@);
                        }
                        Ok(id)
                    },
                    None => {
                        match &mut self.txn {
                            Txn::Reading => Err(EngineError::InvalidState),
                            Txn::Writing { working } => {
                                let id = working.create(clone_bytes(n));
                                proof {
                                    assert(final(self)@ =~= step_create(old(self)@, n@));
                                }
                                Ok(id)
                            },
                        }
                    },
                }
            },
        }
    }
}

/// Whether a store holds a named collection of the given name.
pub open spec fn has_name(st: StoreV, name: Seq<u8>) -> bool {
    exists|i: int| 0 <= i < st.names.len() && st.names[i] == name
}

/// What creating a named collection does to a writing session.
pub open spec fn step_create(s: SessionV, name: Seq<u8>) -> SessionV {
    match s.txn {
        TxnV::Reading => s,
        TxnV::Writing { working } => SessionV {
            txn: TxnV::Writing {
                working: StoreV {
                    names: working.names.push(name),
                    colls: working.colls.push(Seq::<(Seq<u8>, Seq<u8>)>::empty()),
                },
            },
            ..s
        },
    }
}

/// Law: a session is always in exactly one of the `Reading` and `Writing`
/// states, never both and never neither.
pub proof fn lemma_mode_exclusive(s: SessionV)
    ensures
        s.is_reading() <==> !s.is_writing(),
{
}

/// Law: a value put under the write transaction is returned for its key by
/// the fresh read snapshot that commit installs.
pub proof fn lemma_commit_visibility(s: SessionV, id: int, k: Seq<u8>, v: Seq<u8>)
    requires
        s.wf(),
        s.is_reading(),
        0 <= id < s.committed.colls.len(),
    ensures
        ({
            let t = step_commit(step_put(step_begin_write(s), id, k, v));
            t.is_reading() && lookup(t.visible().colls[id], k) == Some(v)
        }),
{
    lemma_put_lookup(s.committed.colls[id], k, v, k);
}

/// Law: writes staged under a write transaction that is aborted leave the
/// visible store exactly as it was before the write transaction began.
pub proof fn lemma_abort_isolation(s: SessionV, id: int, k: Seq<u8>, v: Seq<u8>)
    requires
        s.is_reading(),
    ensures
        step_abort(step_put(step_begin_write(s), id, k, v)).visible() == s.visible(),
        step_abort(step_put(step_begin_write(s), id, k, v)).is_reading(),
        lookup(step_abort(step_put(step_begin_write(s), id, k, v)).visible().colls[id], k)
            == lookup(s.visible().colls[id], k),
{
}

/// Law: deleting the same key a second time in the same write session
/// changes nothing further.
pub proof fn lemma_delete_idempotent(s: SessionV, id: int, k: Seq<u8>)
    requires
        s.wf(),
        s.is_writing(),
        0 <= id < s.visible().colls.len(),
    ensures
        step_delete(step_delete(s, id, k), id, k) == step_delete(s, id, k),
{
    let w = s.txn->working;
    let once = coll_delete(w.colls[id], k);
    lemma_delete_lookup(w.colls[id], k, k);
    lemma_delete_absent(once, k);
    let t1 = step_delete(s, id, k);
    let t2 = step_delete(t1, id, k);
    assert(t1.txn->working.colls.update(id, coll_delete(t1.txn->working.colls[id], k))
        =~= t1.txn->working.colls);
    assert(t2 =~= t1);
}

} // verus!
