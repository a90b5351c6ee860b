//! What became of transactions.
use crate::error::Error;
use crate::transaction::Timestamp;
use std::collections::BTreeMap;
use vstd::prelude::*;

verus! {

/// What became of a transaction.
#[derive(Clone, Copy, Debug, PartialEq, Eq, Structural)]
pub enum TransactionStatus {
    InProgress,
    Committed,
    Aborted,
    Error,
}

impl TransactionStatus {
    /// The status with a number.
    pub open spec fn of(value: u8) -> TransactionStatus {
        if value == 0 {
            TransactionStatus::InProgress
        } else if value == 1 {
            TransactionStatus::Committed
        } else if value == 2 {
            TransactionStatus::Aborted
        } else {
            TransactionStatus::Error
        }
    }
}

impl From<u8> for TransactionStatus {
    fn from(value: u8) -> (r: Self) {
        match value {
            0 => TransactionStatus::InProgress,
            1 => TransactionStatus::Committed,
            2 => TransactionStatus::Aborted,
            _ => TransactionStatus::Error,
        }
    }
}

impl vstd::std_specs::convert::FromSpecImpl<u8> for TransactionStatus {
    open spec fn obeys_from_spec() -> bool {
        true
    }

    open spec fn from_spec(value: u8) -> Self {
        TransactionStatus::of(value)
    }
}

/// The transactions whose status was set.
pub struct TransactionTable {
    table: BTreeMap<u64, TransactionStatus>,
}

impl TransactionTable {
    /// The status of each transaction; in progress where none was set.
    pub closed spec fn status(self, xid: Timestamp) -> TransactionStatus {
        if self.table@.contains_key(xid.0) {
            self.table@[xid.0]
        } else {
            TransactionStatus::InProgress
        }
    }

    pub fn new() -> (r: Self)
        ensures
            forall|xid: Timestamp| #[trigger] r.status(xid) == TransactionStatus::InProgress,
    {
        Self { table: BTreeMap::new() }
    }

    pub fn get_transaction_status(&self, xid: Timestamp) -> (r: Result<TransactionStatus, Error>)
        ensures
            r is Ok,
            r->Ok_0 == self.status(xid),
    {
        match self.table.get(&xid.0) {
            Some(status) => Ok(*status),
            None => Ok(TransactionStatus::InProgress),
        }
    }

    pub fn set_transaction_status(
        &mut self,
        xid: Timestamp,
        status: TransactionStatus,
    ) -> (r: Result<(), Error>)
        ensures
            r is Ok,
            final(self).status(xid) == status,
            forall|other: Timestamp|
                other != xid ==> #[trigger] final(self).status(other) == old(self).status(other),
    {
        self.table.insert(xid.0, status);
        Ok(())
    }
}

} // verus!
