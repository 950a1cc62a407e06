//! A verified payments ledger.
//!
//! The crate processes a stream of financial movement records (deposits,
//! withdrawals, disputes, resolves, chargebacks) keyed by client and
//! transaction id, and maintains a per-client balance ledger.  Monetary
//! amounts are fixed-point integers: the ledger is agnostic to the
//! scale, so a caller may interpret one unit as, say, one ten-thousandth
//! of a currency unit.  All business rules are stated as contracts over
//! an abstract ledger state (`ledger::LedgerState`) and proved.
//!
//! Text encoding and decoding of records is out of scope here: callers
//! hand in validated `Transaction` values and take `Account` snapshots
//! back out.

pub mod concurrent_engine;
pub mod engine;
pub mod error;
pub mod ledger;
pub mod models;
pub mod persistence;
pub mod persistent_engine;

use vstd::prelude::*;

verus! {

use crate::engine::PaymentsEngine;
use crate::ledger::{replay, LedgerState};
use crate::models::account::{insert_sorted, sorted_strictly_by_client, Account};
use crate::models::transaction::Transaction;

/// Process a batch of transactions against a fresh ledger and return
/// the resulting account snapshots, sorted ascending by client id.
///
/// The result holds exactly the accounts of the ledger state reached by
/// replaying `txs` in order from the initial (empty) state.
pub fn process_transactions(txs: &Vec<Transaction>) -> (r: Vec<Account>)
    ensures
        sorted_strictly_by_client(r@),
        forall|a: Account|
            #[trigger] r@.contains(a) <==> {
                let s = replay(LedgerState::initial(), txs@);
                s.accounts.dom().contains(a.client_id) && s.accounts[a.client_id] == a
            },
{
    let ghost fs = replay(LedgerState::initial(), txs@);
    let mut engine = PaymentsEngine::new();
    let n = txs.len();
    let mut i: usize = 0;
    assert(txs@.take(0) =~= Seq::<Transaction>::empty());
    while i < n
        invariant
            i <= n,
            n == txs@.len(),
            engine.wf(),
            engine@ == replay(LedgerState::initial(), txs@.take(i as int)),
        decreases n - i,
    {
        engine.process_transaction(txs[i]);
        proof {
            assert(txs@.take(i + 1).drop_last() =~= txs@.take(i as int));
            assert(txs@.take(i + 1).last() == txs@[i as int]);
        }
        i = i + 1;
    }
    proof {
        assert(txs@.take(n as int) =~= txs@);
    }
    let accounts = engine.into_accounts();
    let m = accounts.len();
    let mut r: Vec<Account> = Vec::new();
    let mut k: usize = 0;
    while k < m
        invariant
            k <= m,
            m == accounts@.len(),
            sorted_strictly_by_client(r@),
            forall|i2: int, j2: int|
                0 <= i2 < j2 < accounts@.len() ==> (#[trigger] accounts@[i2]).client_id != (
                #[trigger] accounts@[j2]).client_id,
            forall|a: Account|
                #[trigger] accounts@.contains(a) <==> (fs.accounts.dom().contains(a.client_id)
                    && fs.accounts[a.client_id] == a),
            forall|x: Account|
                #[trigger] r@.contains(x) <==> exists|j: int| 0 <= j < k && accounts@[j] == x,
        decreases m - k,
    {
        let a = accounts[k];
        assert forall|i2: int| 0 <= i2 < r@.len() implies (#[trigger] r@[i2]).client_id
            != a.client_id by {
            assert(r@.contains(r@[i2]));
            let j = choose|j: int| 0 <= j < k && accounts@[j] == r@[i2];
            assert(accounts@[j].client_id != accounts@[k as int].client_id);
        }
        insert_sorted(&mut r, a);
        assert forall|x: Account| #[trigger] r@.contains(x) implies exists|j: int|
            0 <= j < k + 1 && accounts@[j] == x by {
            if x == a {
                assert(accounts@[k as int] == x);
            }
        }
        assert forall|x: Account|
            exists|j: int| 0 <= j < k + 1 && accounts@[j] == x implies #[trigger] r@.contains(
            x,
        ) by {
            let j = choose|j: int| 0 <= j < k + 1 && accounts@[j] == x;
            if j < k {
                assert(r@.contains(x));
            }
        }
        k = k + 1;
    }
    assert forall|x: Account| #[trigger] r@.contains(x) implies accounts@.contains(x) by {
        let j = choose|j: int| 0 <= j < m && accounts@[j] == x;
        assert(accounts@[j] == x);
    }
    assert forall|x: Account| accounts@.contains(x) implies #[trigger] r@.contains(x) by {
        let j = choose|j: int| 0 <= j < m && accounts@[j] == x;
        assert(exists|j2: int| 0 <= j2 < m && accounts@[j2] == x);
    }
    r
}

} // verus!
