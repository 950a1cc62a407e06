//! Data model: accounts, input transactions, and stored disputable
//! transactions.

pub mod account;
pub mod stored_tx;
pub mod transaction;

pub use account::Account;
pub use stored_tx::StoredTransaction;
pub use transaction::Transaction;
pub use transaction::TransactionType;
