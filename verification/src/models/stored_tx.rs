//! Stored transactions kept for dispute reference.

use vstd::prelude::*;

use crate::models::transaction::TransactionType;

verus! {

/// A successfully applied deposit, retained forever so that it can be
/// disputed, resolved or charged back by its owner.  Only deposits are
/// stored: they are the only disputable transaction type.
#[derive(Debug, Clone, Copy, PartialEq, Eq, Structural)]
pub struct StoredTransaction {
    pub tx_id: u32,
    pub client_id: u16,
    pub amount: i64,
    pub tx_type: TransactionType,
    pub disputed: bool,
}

impl StoredTransaction {
    /// The stored amount is strictly positive.
    pub open spec fn wf(self) -> bool {
        self.amount > 0
    }

    /// Create a new stored transaction, not yet disputed.
    pub fn new(tx_id: u32, client_id: u16, amount: i64, tx_type: TransactionType) -> (st:
        StoredTransaction)
        ensures
            st == (StoredTransaction { tx_id, client_id, amount, tx_type, disputed: false }),
    {
        StoredTransaction { tx_id, client_id, amount, tx_type, disputed: false }
    }
}

} // verus!
