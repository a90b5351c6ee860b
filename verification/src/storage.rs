//! Versions of values in memory.
use crate::transaction::Timestamp;
use vstd::prelude::*;
use vstd::slice::slice_to_vec;

verus! {

/// What a version does to its key.
#[derive(Debug)]
pub enum RedoRecord {
    /// Gives it a value.
    Insert(Vec<u8>),
    /// Deletes it.
    Delete,
}

/// What a version says: when it was written, which collection took it, if one did, and its value,
/// if it is no deletion.
pub struct RedoView {
    pub timestamp: Timestamp,
    pub collected: Timestamp,
    pub value: Option<Seq<u8>>,
}

/// A version of the value of a key.
pub struct RedoNode {
    timestamp: Timestamp,
    collected: Timestamp,
    record: RedoRecord,
}

impl View for RedoNode {
    type V = RedoView;

    closed spec fn view(&self) -> RedoView {
        RedoView {
            timestamp: self.timestamp,
            collected: self.collected,
            value: match self.record {
                RedoRecord::Insert(v) => Some(v@),
                RedoRecord::Delete => None,
            },
        }
    }
}

impl RedoNode {
    pub fn new_insert(timestamp: Timestamp, inserted: Vec<u8>) -> (r: Self)
        ensures
            r@ == (RedoView { timestamp, collected: Timestamp(0), value: Some(inserted@) }),
    {
        RedoNode { timestamp, collected: Timestamp(0), record: RedoRecord::Insert(inserted) }
    }

    pub fn new_delete(timestamp: Timestamp) -> (r: Self)
        ensures
            r@ == (RedoView { timestamp, collected: Timestamp(0), value: None }),
    {
        RedoNode { timestamp, collected: Timestamp(0), record: RedoRecord::Delete }
    }

    pub fn load_timestamp(&self) -> (r: Timestamp)
        ensures
            r == self@.timestamp,
    {
        self.timestamp
    }

    pub fn store_timestamp(&mut self, timestamp: Timestamp)
        ensures
            final(self)@ == (RedoView { timestamp, ..old(self)@ }),
    {
        self.timestamp = timestamp;
    }

    /// Marks the version as taken by a collection, unless it is marked already.
    pub fn try_set_collected(&mut self, collected: Timestamp) -> (r: bool)
        ensures
            r == old(self)@.collected.invalid(),
            final(self)@ == if r {
                RedoView { collected, ..old(self)@ }
            } else {
                old(self)@
            },
    {
        if self.collected.is_invalid() {
            self.collected = collected;
            true
        } else {
            false
        }
    }

    /// The collection that took the version.
    pub fn load_collected(&self) -> (r: Timestamp)
        ensures
            r == self@.collected,
    {
        self.collected
    }

    /// The value, if the version is no deletion.
    pub fn value(&self) -> (r: Option<Vec<u8>>)
        ensures
            match r {
                Some(v) => self@.value == Some(v@),
                None => self@.value is None,
            },
    {
        match &self.record {
            RedoRecord::Insert(v) => Some(slice_to_vec(v.as_slice())),
            RedoRecord::Delete => None,
        }
    }

    /// Whether the version is no deletion.
    pub fn is_insert(&self) -> (r: bool)
        ensures
            r == (self@.value is Some),
    {
        match &self.record {
            RedoRecord::Insert(_) => true,
            RedoRecord::Delete => false,
        }
    }
}

} // verus!
