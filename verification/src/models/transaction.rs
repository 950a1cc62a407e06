//! Input transaction records.

use vstd::prelude::*;

verus! {

/// Type of transaction.
#[derive(Debug, Clone, Copy, PartialEq, Eq, Structural)]
pub enum TransactionType {
    Deposit,
    Withdrawal,
    Dispute,
    Resolve,
    Chargeback,
}

/// A validated input record.
///
/// Amounts are fixed-point integers; they are required (and must be
/// positive) for deposits and withdrawals, and are ignored for the
/// dispute, resolve and chargeback types.
#[derive(Debug, Clone, Copy)]
pub struct Transaction {
    pub tx_type: TransactionType,
    pub client: u16,
    pub tx: u32,
    pub amount: Option<i64>,
}

impl Transaction {
    /// An amount is usable for a deposit or withdrawal when it is present
    /// and strictly positive.
    pub open spec fn has_valid_amount(self) -> bool {
        self.amount matches Some(a) && a > 0
    }

    /// Whether this record moves funds (and therefore carries a globally
    /// unique transaction id).
    pub open spec fn is_funds_movement(self) -> bool {
        self.tx_type is Deposit || self.tx_type is Withdrawal
    }
}

} // verus!
