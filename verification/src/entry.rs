//! The entry edit buffer: one pending key/value pair held in escaped text
//! form while the caller composes an insertion, update or deletion. Nothing
//! is validated until a mutation is requested; a decode failure or a missing
//! write transaction leaves both the buffer and the store untouched.

use vstd::prelude::*;

use crate::codec::decode;
use crate::codec::decode_spec;
use crate::session::step_delete;
use crate::session::step_put;
use crate::session::Session;
use crate::EngineError;

verus! {

/// One pending entry in escaped text form.
pub struct EscapedEntry {
    /// The escaped text of the key.
    pub key: Vec<u8>,
    /// The escaped text of the value.
    pub data: Vec<u8>,
}

impl EscapedEntry {
    /// An empty buffer.
    pub fn new() -> (r: EscapedEntry)
        ensures
            r.key@.len() == 0,
            r.data@.len() == 0,
    {
        EscapedEntry { key: Vec::new(), data: Vec::new() }
    }

    /// Overwrites the buffer with the texts of a row picked for editing.
    pub fn stage_for_edit(&mut self, key_text: Vec<u8>, value_text: Vec<u8>)
        ensures
            final(self).key == key_text,
            final(self).data == value_text,
    {
        self.key = key_text;
        self.data = value_text;
    }

    /// Empties the buffer.
    pub fn clear(&mut self)
        ensures
            final(self).key@.len() == 0,
            final(self).data@.len() == 0,
    {
        self.key = Vec::new();
        self.data = Vec::new();
    }

    /// The bytes the key text denotes, or the decode failure.
    pub fn decoded_key(&self) -> (r: Result<Vec<u8>, crate::codec::DecodeError>)
        ensures
            match r {
                Ok(bytes) => decode_spec(self.key@) == Some(bytes@),
                Err(_) => decode_spec(self.key@) is None,
            },
    {
        decode(&self.key)
    }

    /// The bytes the value text denotes, or the decode failure.
    pub fn decoded_data(&self) -> (r: Result<Vec<u8>, crate::codec::DecodeError>)
        ensures
            match r {
                Ok(bytes) => decode_spec(self.data@) == Some(bytes@),
                Err(_) => decode_spec(self.data@) is None,
            },
    {
        decode(&self.data)
    }

    /// Decodes the buffer and inserts the pair into one collection of the
    /// session's write transaction. A malformed text is rejected with
    /// `Decode` and a missing write transaction with `InvalidState`; either
    /// way nothing is mutated and the buffer is kept for correction. On
    /// success the buffer is cleared.
    pub fn commit_insert(&mut self, session: &mut Session, coll: usize) -> (r: Result<
        (),
        EngineError,
    >)
        requires
            old(session)@.wf(),
            coll < old(session)@.visible().colls.len(),
        ensures
            final(session)@.wf(),
            r is Ok <==> (decode_spec(old(self).key@) is Some && decode_spec(old(self).data@)
                is Some && old(session)@.is_writing()),
            r is Ok ==> final(session)@ == step_put(
                old(session)@,
                coll as int,
                decode_spec(old(self).key@)->Some_0,
                decode_spec(old(self).data@)->Some_0,
            ) && final(self).key@.len() == 0 && final(self).data@.len() == 0,
            r == Err::<(), EngineError>(EngineError::Decode) <==> (decode_spec(old(self).key@)
                is None || decode_spec(old(self).data@) is None),
            r == Err::<(), EngineError>(EngineError::InvalidState) <==> (decode_spec(
                old(self).key@,
            ) is Some && decode_spec(old(self).data@) is Some && old(session)@.is_reading()),
            r is Err ==> *final(self) == *old(self) && final(session)@ == old(session)@,
    {
        let key = match self.decoded_key() {
            Ok(k) => k,
            Err(_) => {
                return Err(EngineError::Decode);
            },
        };
        let data = match self.decoded_data() {
            Ok(d) => d,
            Err(_) => {
                return Err(EngineError::Decode);
            },
        };
        if !session.is_writing() {
            return Err(EngineError::InvalidState);
        }
        let put_result = session.put(coll, key, data);
        match put_result {
            Ok(()) => {
                self.clear();
                Ok(())
            },
            Err(e) => Err(e),
        }
    }

    /// Decodes the buffer's key and deletes it from one collection of the
    /// session's write transaction. A malformed key text is rejected with
    /// `Decode` and a missing write transaction with `InvalidState`; either
    /// way nothing is mutated and the buffer is kept. On success the buffer
    /// is cleared; deleting an absent key is a success.
    pub fn commit_delete(&mut self, session: &mut Session, coll: usize) -> (r: Result<
        (),
        EngineError,
    >)
        requires
            old(session)@.wf(),
            coll < old(session)@.visible().colls.len(),
        ensures
            final(session)@.wf(),
            r is Ok <==> (decode_spec(old(self).key@) is Some && old(session)@.is_writing()),
            r is Ok ==> final(session)@ == step_delete(
                old(session)@,
                coll as int,
                decode_spec(old(self).key@)->Some_0,
            ) && final(self).key@.len() == 0 && final(self).data@.len() == 0,
            r == Err::<(), EngineError>(EngineError::Decode) <==> decode_spec(old(self).key@)
                is None,
            r == Err::<(), EngineError>(EngineError::InvalidState) <==> (decode_spec(
                old(self).key@,
            ) is Some && old(session)@.is_reading()),
            r is Err ==> *final(self) == *old(self) && final(session)@ == old(session)@,
    {
        let key = match self.decoded_key() {
            Ok(k) => k,
            Err(_) => {
                return Err(EngineError::Decode);
            },
        };
        if !session.is_writing() {
            return Err(EngineError::InvalidState);
        }
        let delete_result = session.delete(coll, &key);
        match delete_result {
            Ok(_) => {
                self.clear();
                Ok(())
            },
            Err(e) => Err(e),
        }
    }
}

impl Default for EscapedEntry {
    /// An empty buffer.
    fn default() -> (r: EscapedEntry)
        ensures
            r.key@.len() == 0,
            r.data@.len() == 0,
    {
        EscapedEntry::new()
    }
}

} // verus!
