//! The abstract ledger state machine.
//!
//! `LedgerState` is the mathematical model of a single-threaded ledger:
//! a map from client id to account, a map from transaction id to stored
//! disputable transaction, and the set of processed funds-movement ids.
//! `step` gives the exact state transition for one input record, and
//! `replay` folds a whole sequence.  The executable engine is specified
//! against these functions, and the global business invariants are
//! proved of them here.

use vstd::prelude::*;

use crate::models::account::Account;
use crate::models::stored_tx::StoredTransaction;
use crate::models::transaction::{Transaction, TransactionType};

verus! {

/// The abstract state of one ledger.
#[verifier::ext_equal]
pub struct LedgerState {
    /// Per-client account state.
    pub accounts: Map<u16, Account>,
    /// Successfully applied deposits, by transaction id, kept forever.
    pub disputable: Map<u32, StoredTransaction>,
    /// Every transaction id ever attempted as a deposit or withdrawal
    /// with a valid amount; used for global duplicate rejection.
    pub processed: Set<u32>,
}

impl LedgerState {
    /// The empty ledger.
    pub open spec fn initial() -> LedgerState {
        LedgerState { accounts: Map::empty(), disputable: Map::empty(), processed: Set::empty() }
    }

    /// The account for `client`, or a fresh one if none exists yet.
    pub open spec fn account_or_new(self, client: u16) -> Account {
        if self.accounts.dom().contains(client) {
            self.accounts[client]
        } else {
            Account::initial(client)
        }
    }

    /// Every reachable ledger state satisfies this invariant: accounts
    /// are well formed and keyed by their own client id; stored
    /// transactions are positive deposits keyed by their own id, their
    /// id is marked processed, and their owner has an account.
    pub open spec fn inv(self) -> bool {
        &&& forall|c: u16|
            self.accounts.dom().contains(c) ==> (#[trigger] self.accounts[c]).wf()
                && self.accounts[c].client_id == c
        &&& forall|id: u32|
            self.disputable.dom().contains(id) ==> {
                let st = #[trigger] self.disputable[id];
                &&& st.wf()
                &&& st.tx_id == id
                &&& st.tx_type is Deposit
                &&& self.processed.contains(id)
                &&& self.accounts.dom().contains(st.client_id)
            }
    }
}

/// The transition for a deposit that passed the duplicate and amount
/// checks.  The account is created on demand; on success the deposit is
/// recorded as disputable; the id is marked processed either way.
pub open spec fn step_deposit(s: LedgerState, client: u16, tx_id: u32, amount: i64) -> LedgerState {
    let acct = s.account_or_new(client);
    if acct.can_deposit(amount as int) {
        LedgerState {
            accounts: s.accounts.insert(client, acct.with_deposit(amount as int)),
            disputable: s.disputable.insert(
                tx_id,
                StoredTransaction {
                    tx_id,
                    client_id: client,
                    amount,
                    tx_type: TransactionType::Deposit,
                    disputed: false,
                },
            ),
            processed: s.processed.insert(tx_id),
        }
    } else {
        LedgerState {
            accounts: s.accounts.insert(client, acct),
            disputable: s.disputable,
            processed: s.processed.insert(tx_id),
        }
    }
}

/// The transition for a withdrawal that passed the duplicate and amount
/// checks.  Unknown clients are ignored; the id is marked processed
/// either way.
pub open spec fn step_withdrawal(
    s: LedgerState,
    client: u16,
    tx_id: u32,
    amount: i64,
) -> LedgerState {
    let processed = s.processed.insert(tx_id);
    if s.accounts.dom().contains(client) && s.accounts[client].can_withdraw(amount as int) {
        LedgerState {
            accounts: s.accounts.insert(client, s.accounts[client].with_withdrawal(amount as int)),
            disputable: s.disputable,
            processed,
        }
    } else {
        LedgerState { accounts: s.accounts, disputable: s.disputable, processed }
    }
}

/// The transition for a dispute.  It is ignored unless the referenced
/// transaction exists, belongs to the disputing client, is not already
/// disputed, and the client's account can hold the stored amount.
pub open spec fn step_dispute(s: LedgerState, client: u16, tx_id: u32) -> LedgerState {
    if s.disputable.dom().contains(tx_id) {
        let st = s.disputable[tx_id];
        if st.client_id == client && !st.disputed && s.accounts.dom().contains(client)
            && s.accounts[client].can_hold(st.amount as int) {
            LedgerState {
                accounts: s.accounts.insert(client, s.accounts[client].with_hold(st.amount as int)),
                disputable: s.disputable.insert(
                    tx_id,
                    StoredTransaction { disputed: true, ..st },
                ),
                processed: s.processed,
            }
        } else {
            s
        }
    } else {
        s
    }
}

/// The transition for a resolve.  It is ignored unless the referenced
/// transaction exists, belongs to the client, is under dispute, and the
/// account can release the stored amount.
pub open spec fn step_resolve(s: LedgerState, client: u16, tx_id: u32) -> LedgerState {
    if s.disputable.dom().contains(tx_id) {
        let st = s.disputable[tx_id];
        if st.client_id == client && st.disputed && s.accounts.dom().contains(client)
            && s.accounts[client].can_release(st.amount as int) {
            LedgerState {
                accounts: s.accounts.insert(
                    client,
                    s.accounts[client].with_release(st.amount as int),
                ),
                disputable: s.disputable.insert(
                    tx_id,
                    StoredTransaction { disputed: false, ..st },
                ),
                processed: s.processed,
            }
        } else {
            s
        }
    } else {
        s
    }
}

/// The transition for a chargeback.  It is ignored unless the
/// referenced transaction exists, belongs to the client, is under
/// dispute, and the account can charge back the stored amount; on
/// success the account is locked and the dispute is closed.
pub open spec fn step_chargeback(s: LedgerState, client: u16, tx_id: u32) -> LedgerState {
    if s.disputable.dom().contains(tx_id) {
        let st = s.disputable[tx_id];
        if st.client_id == client && st.disputed && s.accounts.dom().contains(client)
            && s.accounts[client].can_chargeback(st.amount as int) {
            LedgerState {
                accounts: s.accounts.insert(
                    client,
                    s.accounts[client].with_chargeback(st.amount as int),
                ),
                disputable: s.disputable.insert(
                    tx_id,
                    StoredTransaction { disputed: false, ..st },
                ),
                processed: s.processed,
            }
        } else {
            s
        }
    } else {
        s
    }
}

/// The transition for one input record: duplicate and amount checks for
/// funds movements, then dispatch by type.  Every rejection leaves the
/// state unchanged.
pub open spec fn step(s: LedgerState, tx: Transaction) -> LedgerState {
    if tx.is_funds_movement() && s.processed.contains(tx.tx) {
        s
    } else if tx.is_funds_movement() && !tx.has_valid_amount() {
        s
    } else {
        match tx.tx_type {
            TransactionType::Deposit => step_deposit(s, tx.client, tx.tx, tx.amount->0),
            TransactionType::Withdrawal => step_withdrawal(s, tx.client, tx.tx, tx.amount->0),
            TransactionType::Dispute => step_dispute(s, tx.client, tx.tx),
            TransactionType::Resolve => step_resolve(s, tx.client, tx.tx),
            TransactionType::Chargeback => step_chargeback(s, tx.client, tx.tx),
        }
    }
}

/// The state after applying a whole sequence of records in order.
pub open spec fn replay(s: LedgerState, txs: Seq<Transaction>) -> LedgerState
    decreases txs.len(),
{
    if txs.len() == 0 {
        s
    } else {
        step(replay(s, txs.drop_last()), txs.last())
    }
}

/// Every single transition preserves the ledger invariant; in
/// particular `available >= 0` and `held >= 0` hold for every account
/// in every reachable state.
pub proof fn lemma_step_preserves_inv(s: LedgerState, tx: Transaction)
    requires
        s.inv(),
    ensures
        step(s, tx).inv(),
{
}

/// Replaying any sequence of records from an invariant state keeps the
/// invariant; reachable states are exactly these.
pub proof fn lemma_replay_preserves_inv(s: LedgerState, txs: Seq<Transaction>)
    requires
        s.inv(),
    ensures
        replay(s, txs).inv(),
    decreases txs.len(),
{
    if txs.len() > 0 {
        lemma_replay_preserves_inv(s, txs.drop_last());
        lemma_step_preserves_inv(replay(s, txs.drop_last()), txs.last());
    }
}

/// The lock is terminal: once an account is locked, it stays locked
/// after any further transition.
pub proof fn lemma_locked_is_terminal(s: LedgerState, tx: Transaction, c: u16)
    requires
        s.accounts.dom().contains(c),
        s.accounts[c].locked,
    ensures
        step(s, tx).accounts.dom().contains(c),
        step(s, tx).accounts[c].locked,
{
}

/// Once an account is locked, no later deposit or withdrawal changes
/// its balances: a funds movement for the locked client is rejected,
/// and one for any other client never touches this account.
pub proof fn lemma_locked_blocks_funds_movement(s: LedgerState, tx: Transaction, c: u16)
    requires
        s.accounts.dom().contains(c),
        s.accounts[c].locked,
        tx.is_funds_movement(),
    ensures
        step(s, tx).accounts[c] == s.accounts[c],
{
}

/// Global duplicate rejection: a deposit or withdrawal whose id was
/// already processed — by any client — leaves the state unchanged.
pub proof fn lemma_duplicate_rejected(s: LedgerState, tx: Transaction)
    requires
        tx.is_funds_movement(),
        s.processed.contains(tx.tx),
    ensures
        step(s, tx) == s,
{
}

/// Submitting two funds movements with the same id, even from different
/// clients, applies only the first: after the first is attempted with a
/// valid amount, the second is a no-op.
pub proof fn lemma_second_funds_movement_ignored(s: LedgerState, tx1: Transaction, tx2: Transaction)
    requires
        tx1.is_funds_movement(),
        tx2.is_funds_movement(),
        tx1.has_valid_amount(),
        tx2.tx == tx1.tx,
    ensures
        step(step(s, tx1), tx2) == step(s, tx1),
{
    if s.processed.contains(tx1.tx) {
        lemma_duplicate_rejected(s, tx1);
        lemma_duplicate_rejected(s, tx2);
    } else {
        assert(step(s, tx1).processed.contains(tx1.tx));
        lemma_duplicate_rejected(step(s, tx1), tx2);
    }
}

/// The initial state satisfies the invariant, so with
/// `lemma_replay_preserves_inv` every reachable state does.
pub proof fn lemma_initial_state_inv()
    ensures
        LedgerState::initial().inv(),
{
}

/// Once an account is locked, no sequence of deposits and withdrawals,
/// however long and from whatever clients, changes it at all.
pub proof fn lemma_locked_blocks_all_funds_movements(
    s: LedgerState,
    txs: Seq<Transaction>,
    c: u16,
)
    requires
        s.accounts.dom().contains(c),
        s.accounts[c].locked,
        forall|k: int| 0 <= k < txs.len() ==> (#[trigger] txs[k]).is_funds_movement(),
    ensures
        replay(s, txs).accounts.dom().contains(c),
        replay(s, txs).accounts[c] == s.accounts[c],
        replay(s, txs).accounts[c].locked,
    decreases txs.len(),
{
    if txs.len() > 0 {
        lemma_locked_blocks_all_funds_movements(s, txs.drop_last(), c);
        lemma_locked_is_terminal(replay(s, txs.drop_last()), txs.last(), c);
        lemma_locked_blocks_funds_movement(replay(s, txs.drop_last()), txs.last(), c);
    }
}

/// A transition only ever adds an account for the client of the record
/// itself: the account domain grows by at most `tx.client`.
pub proof fn lemma_step_account_domain(s: LedgerState, tx: Transaction, c: u16)
    requires
        step(s, tx).accounts.dom().contains(c),
    ensures
        s.accounts.dom().contains(c) || c == tx.client,
{
}

} // verus!
