//! The executable single-threaded ledger engine.
//!
//! `PaymentsEngine` stores accounts, disputable transactions and the
//! processed-id set in plain vectors, one entry per key.  Its view is
//! the abstract `LedgerState`, and `process_transaction` is proved to
//! perform exactly the `step` transition of the abstract machine.

use vstd::prelude::*;

use crate::ledger::{
    lemma_step_preserves_inv, step, step_chargeback, step_deposit, step_dispute, step_resolve,
    step_withdrawal, LedgerState,
};
use crate::models::account::Account;
use crate::models::stored_tx::StoredTransaction;
use crate::models::transaction::{Transaction, TransactionType};

verus! {

/// The map that a sequence of accounts represents, keyed by client id.
/// Later entries win, but the engine keeps keys unique anyway.
pub open spec fn accounts_map(s: Seq<Account>) -> Map<u16, Account>
    decreases s.len(),
{
    if s.len() == 0 {
        Map::empty()
    } else {
        accounts_map(s.drop_last()).insert(s.last().client_id, s.last())
    }
}

/// No two accounts in the sequence share a client id.
pub open spec fn accounts_unique(s: Seq<Account>) -> bool {
    forall|i: int, j: int|
        0 <= i < j < s.len() ==> (#[trigger] s[i]).client_id != (#[trigger] s[j]).client_id
}

/// The map that a sequence of stored transactions represents, keyed by
/// transaction id.
pub open spec fn stored_map(s: Seq<StoredTransaction>) -> Map<u32, StoredTransaction>
    decreases s.len(),
{
    if s.len() == 0 {
        Map::empty()
    } else {
        stored_map(s.drop_last()).insert(s.last().tx_id, s.last())
    }
}

/// No two stored transactions in the sequence share a transaction id.
pub open spec fn stored_unique(s: Seq<StoredTransaction>) -> bool {
    forall|i: int, j: int|
        0 <= i < j < s.len() ==> (#[trigger] s[i]).tx_id != (#[trigger] s[j]).tx_id
}

/// A client id is in the represented map exactly when some entry of the
/// sequence carries it.
proof fn lemma_accounts_map_dom(s: Seq<Account>, c: u16)
    ensures
        accounts_map(s).dom().contains(c) <==> exists|i: int|
            0 <= i < s.len() && (#[trigger] s[i]).client_id == c,
    decreases s.len(),
{
    let n = s.len() as int;
    if n > 0 {
        lemma_accounts_map_dom(s.drop_last(), c);
        if accounts_map(s).dom().contains(c) {
            if c == s.last().client_id {
                assert(s[n - 1].client_id == c);
            } else {
                let i = choose|i: int|
                    0 <= i < n - 1 && (#[trigger] s.drop_last()[i]).client_id == c;
                assert(s[i].client_id == c);
            }
        }
        if exists|i: int| 0 <= i < n && (#[trigger] s[i]).client_id == c {
            let i = choose|i: int| 0 <= i < n && (#[trigger] s[i]).client_id == c;
            if i < n - 1 {
                assert(s.drop_last()[i].client_id == c);
            }
        }
    }
}

/// With unique keys, the represented map sends each entry's client id
/// to that entry.
proof fn lemma_accounts_map_index(s: Seq<Account>, i: int)
    requires
        accounts_unique(s),
        0 <= i < s.len(),
    ensures
        accounts_map(s).dom().contains(s[i].client_id),
        accounts_map(s)[s[i].client_id] == s[i],
    decreases s.len(),
{
    let n = s.len() as int;
    if i < n - 1 {
        assert forall|j: int, k: int| 0 <= j < k < n - 1 implies (#[trigger] s.drop_last()[j]).client_id
            != (#[trigger] s.drop_last()[k]).client_id by {
            assert(s[j].client_id != s[k].client_id);
        }
        lemma_accounts_map_index(s.drop_last(), i);
        assert(s.drop_last()[i] == s[i]);
        assert(s[i].client_id != s[n - 1].client_id);
    }
}

/// With unique keys, replacing the entry at `i` by another account with
/// the same client id updates the represented map at that key alone.
proof fn lemma_accounts_map_update(s: Seq<Account>, i: int, a: Account)
    requires
        accounts_unique(s),
        0 <= i < s.len(),
        a.client_id == s[i].client_id,
    ensures
        accounts_map(s.update(i, a)) == accounts_map(s).insert(a.client_id, a),
    decreases s.len(),
{
    let n = s.len() as int;
    if i == n - 1 {
        assert(s.update(i, a).drop_last() =~= s.drop_last());
        assert(s.update(i, a).last() == a);
        assert(accounts_map(s.update(i, a)) =~= accounts_map(s).insert(a.client_id, a));
    } else {
        assert forall|j: int, k: int| 0 <= j < k < n - 1 implies (#[trigger] s.drop_last()[j]).client_id
            != (#[trigger] s.drop_last()[k]).client_id by {
            assert(s[j].client_id != s[k].client_id);
        }
        lemma_accounts_map_update(s.drop_last(), i, a);
        assert(s.update(i, a).drop_last() =~= s.drop_last().update(i, a));
        assert(s.update(i, a).last() == s.last());
        assert(s[i].client_id != s[n - 1].client_id);
        assert(accounts_map(s.update(i, a)) =~= accounts_map(s).insert(a.client_id, a));
    }
}

/// Appending an account updates the represented map at its client id.
proof fn lemma_accounts_map_push(s: Seq<Account>, a: Account)
    ensures
        accounts_map(s.push(a)) == accounts_map(s).insert(a.client_id, a),
{
    assert(s.push(a).drop_last() =~= s);
    assert(s.push(a).last() == a);
}

/// With unique keys, the represented map holds exactly the entries of
/// the sequence.
proof fn lemma_accounts_map_complete(s: Seq<Account>)
    requires
        accounts_unique(s),
    ensures
        forall|a: Account|
            #[trigger] s.contains(a) <==> (accounts_map(s).dom().contains(a.client_id)
                && accounts_map(s)[a.client_id] == a),
{
    assert forall|a: Account| #[trigger] s.contains(a) implies (accounts_map(s).dom().contains(
        a.client_id,
    ) && accounts_map(s)[a.client_id] == a) by {
        let i = choose|i: int| 0 <= i < s.len() && s[i] == a;
        lemma_accounts_map_index(s, i);
    }
    assert forall|a: Account|
        accounts_map(s).dom().contains(a.client_id) && accounts_map(s)[a.client_id]
            == a implies #[trigger] s.contains(a) by {
        lemma_accounts_map_dom(s, a.client_id);
        let i = choose|i: int| 0 <= i < s.len() && (#[trigger] s[i]).client_id == a.client_id;
        lemma_accounts_map_index(s, i);
        assert(s[i] == a);
    }
}

/// A transaction id is in the represented map exactly when some stored
/// entry carries it.
proof fn lemma_stored_map_dom(s: Seq<StoredTransaction>, id: u32)
    ensures
        stored_map(s).dom().contains(id) <==> exists|i: int|
            0 <= i < s.len() && (#[trigger] s[i]).tx_id == id,
    decreases s.len(),
{
    let n = s.len() as int;
    if n > 0 {
        lemma_stored_map_dom(s.drop_last(), id);
        if stored_map(s).dom().contains(id) {
            if id == s.last().tx_id {
                assert(s[n - 1].tx_id == id);
            } else {
                let i = choose|i: int| 0 <= i < n - 1 && (#[trigger] s.drop_last()[i]).tx_id == id;
                assert(s[i].tx_id == id);
            }
        }
        if exists|i: int| 0 <= i < n && (#[trigger] s[i]).tx_id == id {
            let i = choose|i: int| 0 <= i < n && (#[trigger] s[i]).tx_id == id;
            if i < n - 1 {
                assert(s.drop_last()[i].tx_id == id);
            }
        }
    }
}

/// With unique ids, the represented map sends each entry's id to that
/// entry.
proof fn lemma_stored_map_index(s: Seq<StoredTransaction>, i: int)
    requires
        stored_unique(s),
        0 <= i < s.len(),
    ensures
        stored_map(s).dom().contains(s[i].tx_id),
        stored_map(s)[s[i].tx_id] == s[i],
    decreases s.len(),
{
    let n = s.len() as int;
    if i < n - 1 {
        assert forall|j: int, k: int| 0 <= j < k < n - 1 implies (#[trigger] s.drop_last()[j]).tx_id
            != (#[trigger] s.drop_last()[k]).tx_id by {
            assert(s[j].tx_id != s[k].tx_id);
        }
        lemma_stored_map_index(s.drop_last(), i);
        assert(s.drop_last()[i] == s[i]);
        assert(s[i].tx_id != s[n - 1].tx_id);
    }
}

/// With unique ids, replacing the entry at `i` by another record with
/// the same id updates the represented map at that key alone.
proof fn lemma_stored_map_update(s: Seq<StoredTransaction>, i: int, st: StoredTransaction)
    requires
        stored_unique(s),
        0 <= i < s.len(),
        st.tx_id == s[i].tx_id,
    ensures
        stored_map(s.update(i, st)) == stored_map(s).insert(st.tx_id, st),
    decreases s.len(),
{
    let n = s.len() as int;
    if i == n - 1 {
        assert(s.update(i, st).drop_last() =~= s.drop_last());
        assert(s.update(i, st).last() == st);
        assert(stored_map(s.update(i, st)) =~= stored_map(s).insert(st.tx_id, st));
    } else {
        assert forall|j: int, k: int| 0 <= j < k < n - 1 implies (#[trigger] s.drop_last()[j]).tx_id
            != (#[trigger] s.drop_last()[k]).tx_id by {
            assert(s[j].tx_id != s[k].tx_id);
        }
        lemma_stored_map_update(s.drop_last(), i, st);
        assert(s.update(i, st).drop_last() =~= s.drop_last().update(i, st));
        assert(s.update(i, st).last() == s.last());
        assert(s[i].tx_id != s[n - 1].tx_id);
        assert(stored_map(s.update(i, st)) =~= stored_map(s).insert(st.tx_id, st));
    }
}

/// Appending a stored transaction updates the represented map at its
/// id.
proof fn lemma_stored_map_push(s: Seq<StoredTransaction>, st: StoredTransaction)
    ensures
        stored_map(s.push(st)) == stored_map(s).insert(st.tx_id, st),
{
    assert(s.push(st).drop_last() =~= s);
    assert(s.push(st).last() == st);
}

/// Appending an id to a sequence inserts it into the set the sequence
/// represents.
proof fn lemma_ids_push(s: Seq<u32>, id: u32)
    ensures
        s.push(id).to_set() == s.to_set().insert(id),
{
    assert forall|x: u32| s.push(id).to_set().contains(x) implies s.to_set().insert(id).contains(
        x,
    ) by {
        let i = choose|i: int| 0 <= i < s.push(id).len() && s.push(id)[i] == x;
        if i < s.len() {
            assert(s[i] == x);
        }
    }
    assert forall|x: u32| s.to_set().insert(id).contains(x) implies s.push(id).to_set().contains(
        x,
    ) by {
        if x == id {
            assert(s.push(id)[s.len() as int] == x);
        } else {
            let i = choose|i: int| 0 <= i < s.len() && s[i] == x;
            assert(s.push(id)[i] == x);
        }
    }
    assert(s.push(id).to_set() =~= s.to_set().insert(id));
}

/// Transaction processing engine: the verified single-threaded ledger.
pub struct PaymentsEngine {
    /// One account per client, keys unique.
    accounts: Vec<Account>,
    /// One stored disputable transaction per id, keys unique.
    disputable: Vec<StoredTransaction>,
    /// Ids of every attempted deposit or withdrawal with a valid amount.
    processed: Vec<u32>,
}

impl View for PaymentsEngine {
    type V = LedgerState;

    /// The abstract ledger state this engine represents.
    closed spec fn view(&self) -> LedgerState {
        LedgerState {
            accounts: accounts_map(self.accounts@),
            disputable: stored_map(self.disputable@),
            processed: self.processed@.to_set(),
        }
    }
}

impl PaymentsEngine {
    /// The representation keeps one entry per key.
    pub closed spec fn keys_unique(&self) -> bool {
        accounts_unique(self.accounts@) && stored_unique(self.disputable@)
    }

    /// Well-formedness: unique keys, and the abstract state satisfies
    /// the ledger invariant.
    pub open spec fn wf(&self) -> bool {
        self.keys_unique() && self@.inv()
    }

    /// Create a new payments engine with empty state.
    pub fn new() -> (e: PaymentsEngine)
        ensures
            e.wf(),
            e@ == LedgerState::initial(),
    {
        let e = PaymentsEngine { accounts: Vec::new(), disputable: Vec::new(), processed: Vec::new() };
        proof {
            assert(e@.processed =~= Set::<u32>::empty());
            assert(e@ =~= LedgerState::initial());
        }
        e
    }

    /// The index of the account for `client`, if there is one.
    fn find_account(&self, client: u16) -> (r: Option<usize>)
        ensures
            match r {
                Some(i) => i < self.accounts@.len() && self.accounts@[i as int].client_id == client,
                None => forall|i: int|
                    0 <= i < self.accounts@.len() ==> (#[trigger] self.accounts@[i]).client_id
                        != client,
            },
    {
        let n = self.accounts.len();
        let mut i: usize = 0;
        while i < n
            invariant
                i <= n,
                n == self.accounts@.len(),
                forall|j: int| 0 <= j < i ==> (#[trigger] self.accounts@[j]).client_id != client,
            decreases n - i,
        {
            if self.accounts[i].client_id == client {
                return Some(i);
            }
            i = i + 1;
        }
        None
    }

    /// The index of the stored transaction with id `tx_id`, if any.
    fn find_disputable(&self, tx_id: u32) -> (r: Option<usize>)
        ensures
            match r {
                Some(i) => i < self.disputable@.len() && self.disputable@[i as int].tx_id == tx_id,
                None => forall|i: int|
                    0 <= i < self.disputable@.len() ==> (#[trigger] self.disputable@[i]).tx_id
                        != tx_id,
            },
    {
        let n = self.disputable.len();
        let mut i: usize = 0;
        while i < n
            invariant
                i <= n,
                n == self.disputable@.len(),
                forall|j: int| 0 <= j < i ==> (#[trigger] self.disputable@[j]).tx_id != tx_id,
            decreases n - i,
        {
            if self.disputable[i].tx_id == tx_id {
                return Some(i);
            }
            i = i + 1;
        }
        None
    }

    /// Whether `tx_id` was already processed as a deposit or withdrawal.
    fn is_processed(&self, tx_id: u32) -> (b: bool)
        ensures
            b == self@.processed.contains(tx_id),
    {
        let n = self.processed.len();
        let mut i: usize = 0;
        while i < n
            invariant
                i <= n,
                n == self.processed@.len(),
                forall|j: int| 0 <= j < i ==> self.processed@[j] != tx_id,
            decreases n - i,
        {
            if self.processed[i] == tx_id {
                assert(self.processed@[i as int] == tx_id);
                return true;
            }
            i = i + 1;
        }
        false
    }

    /// Apply a deposit that passed the duplicate and amount checks.
    fn process_deposit(&mut self, client: u16, tx_id: u32, amount: i64)
        requires
            old(self).wf(),
            amount > 0,
            !old(self)@.processed.contains(tx_id),
        ensures
            final(self).keys_unique(),
            final(self)@ == step_deposit(old(self)@, client, tx_id, amount),
    {
        let ghost s0 = self@;
        // Get or create the account.
        let idx: usize;
        match self.find_account(client) {
            Some(i) => {
                idx = i;
                proof {
                    lemma_accounts_map_index(self.accounts@, i as int);
                    assert(s0.accounts.insert(client, s0.account_or_new(client)) =~= s0.accounts);
                }
            },
            None => {
                proof {
                    lemma_accounts_map_dom(self.accounts@, client);
                    lemma_accounts_map_push(self.accounts@, Account::initial(client));
                }
                self.accounts.push(Account::new(client));
                idx = self.accounts.len() - 1;
            },
        }
        assert(self.accounts@[idx as int] == s0.account_or_new(client));
        assert(accounts_map(self.accounts@) == s0.accounts.insert(client, s0.account_or_new(client)));
        assert(accounts_unique(self.accounts@));

        let ghost aseq = self.accounts@;
        let mut acct = self.accounts[idx];
        assert(acct.wf());
        let ok = acct.deposit(amount);
        self.accounts.set(idx, acct);
        proof {
            lemma_accounts_map_update(aseq, idx as int, acct);
        }

        let ghost pseq = self.processed@;
        self.processed.push(tx_id);
        proof {
            lemma_ids_push(pseq, tx_id);
        }

        if ok {
            // Record the deposit for potential dispute.
            proof {
                assert forall|i: int| 0 <= i < self.disputable@.len() implies (
                #[trigger] self.disputable@[i]).tx_id != tx_id by {
                    lemma_stored_map_index(self.disputable@, i);
                }
                lemma_stored_map_push(
                    self.disputable@,
                    StoredTransaction {
                        tx_id,
                        client_id: client,
                        amount,
                        tx_type: TransactionType::Deposit,
                        disputed: false,
                    },
                );
            }
            self.disputable.push(
                StoredTransaction::new(tx_id, client, amount, TransactionType::Deposit),
            );
            assert(self@ =~= step_deposit(s0, client, tx_id, amount));
        } else {
            assert(self@.accounts =~= step_deposit(s0, client, tx_id, amount).accounts);
            assert(self@ =~= step_deposit(s0, client, tx_id, amount));
        }
    }

    /// Apply a withdrawal that passed the duplicate and amount checks.
    fn process_withdrawal(&mut self, client: u16, tx_id: u32, amount: i64)
        requires
            old(self).wf(),
            amount > 0,
        ensures
            final(self).keys_unique(),
            final(self)@ == step_withdrawal(old(self)@, client, tx_id, amount),
    {
        let ghost s0 = self@;
        match self.find_account(client) {
            Some(idx) => {
                proof {
                    lemma_accounts_map_index(self.accounts@, idx as int);
                    assert(s0.accounts[client] == self.accounts@[idx as int]);
                    assert(s0.accounts[client].wf());
                }
                let ghost aseq = self.accounts@;
                let mut acct = self.accounts[idx];
                assert(acct.wf());
                let ok = acct.withdraw(amount);
                self.accounts.set(idx, acct);
                proof {
                    lemma_accounts_map_update(aseq, idx as int, acct);
                    if !ok {
                        assert(accounts_map(self.accounts@) =~= s0.accounts);
                    }
                }
            },
            None => {
                proof {
                    lemma_accounts_map_dom(self.accounts@, client);
                }
            },
        }
        let ghost pseq = self.processed@;
        self.processed.push(tx_id);
        proof {
            lemma_ids_push(pseq, tx_id);
            assert(self@ =~= step_withdrawal(s0, client, tx_id, amount));
        }
    }

    /// Apply a dispute: hold the stored amount if every check passes.
    fn process_dispute(&mut self, client: u16, tx_id: u32)
        requires
            old(self).wf(),
        ensures
            final(self).keys_unique(),
            final(self)@ == step_dispute(old(self)@, client, tx_id),
    {
        let ghost s0 = self@;
        let sidx: usize;
        match self.find_disputable(tx_id) {
            Some(i) => {
                sidx = i;
            },
            None => {
                proof {
                    lemma_stored_map_dom(self.disputable@, tx_id);
                }
                return ;
            },
        }
        proof {
            lemma_stored_map_index(self.disputable@, sidx as int);
        }
        let st = self.disputable[sidx];
        // Ownership check.
        if st.client_id != client {
            return ;
        }
        // Already under dispute?
        if st.disputed {
            return ;
        }
        let aidx: usize;
        match self.find_account(client) {
            Some(i) => {
                aidx = i;
            },
            None => {
                proof {
                    lemma_accounts_map_dom(self.accounts@, client);
                }
                return ;
            },
        }
        proof {
            lemma_accounts_map_index(self.accounts@, aidx as int);
        }
        let ghost aseq = self.accounts@;
        let mut acct = self.accounts[aidx];
        let ok = acct.hold(st.amount);
        if !ok {
            return ;
        }
        self.accounts.set(aidx, acct);
        proof {
            lemma_accounts_map_update(aseq, aidx as int, acct);
        }
        let ghost dseq = self.disputable@;
        self.disputable.set(sidx, StoredTransaction { disputed: true, ..st });
        proof {
            lemma_stored_map_update(dseq, sidx as int, StoredTransaction { disputed: true, ..st });
            assert(self@ =~= step_dispute(s0, client, tx_id));
        }
    }

    /// Apply a resolve: release the stored amount if every check passes.
    fn process_resolve(&mut self, client: u16, tx_id: u32)
        requires
            old(self).wf(),
        ensures
            final(self).keys_unique(),
            final(self)@ == step_resolve(old(self)@, client, tx_id),
    {
        let ghost s0 = self@;
        let sidx: usize;
        match self.find_disputable(tx_id) {
            Some(i) => {
                sidx = i;
            },
            None => {
                proof {
                    lemma_stored_map_dom(self.disputable@, tx_id);
                }
                return ;
            },
        }
        proof {
            lemma_stored_map_index(self.disputable@, sidx as int);
        }
        let st = self.disputable[sidx];
        if st.client_id != client {
            return ;
        }
        if !st.disputed {
            return ;
        }
        let aidx: usize;
        match self.find_account(client) {
            Some(i) => {
                aidx = i;
            },
            None => {
                proof {
                    lemma_accounts_map_dom(self.accounts@, client);
                }
                return ;
            },
        }
        proof {
            lemma_accounts_map_index(self.accounts@, aidx as int);
        }
        let ghost aseq = self.accounts@;
        let mut acct = self.accounts[aidx];
        let ok = acct.release(st.amount);
        if !ok {
            return ;
        }
        self.accounts.set(aidx, acct);
        proof {
            lemma_accounts_map_update(aseq, aidx as int, acct);
        }
        let ghost dseq = self.disputable@;
        self.disputable.set(sidx, StoredTransaction { disputed: false, ..st });
        proof {
            lemma_stored_map_update(dseq, sidx as int, StoredTransaction { disputed: false, ..st });
            assert(self@ =~= step_resolve(s0, client, tx_id));
        }
    }

    /// Apply a chargeback: remove the held amount and lock the account
    /// if every check passes.
    fn process_chargeback(&mut self, client: u16, tx_id: u32)
        requires
            old(self).wf(),
        ensures
            final(self).keys_unique(),
            final(self)@ == step_chargeback(old(self)@, client, tx_id),
    {
        let ghost s0 = self@;
        let sidx: usize;
        match self.find_disputable(tx_id) {
            Some(i) => {
                sidx = i;
            },
            None => {
                proof {
                    lemma_stored_map_dom(self.disputable@, tx_id);
                }
                return ;
            },
        }
        proof {
            lemma_stored_map_index(self.disputable@, sidx as int);
        }
        let st = self.disputable[sidx];
        if st.client_id != client {
            return ;
        }
        if !st.disputed {
            return ;
        }
        let aidx: usize;
        match self.find_account(client) {
            Some(i) => {
                aidx = i;
            },
            None => {
                proof {
                    lemma_accounts_map_dom(self.accounts@, client);
                }
                return ;
            },
        }
        proof {
            lemma_accounts_map_index(self.accounts@, aidx as int);
        }
        let ghost aseq = self.accounts@;
        let mut acct = self.accounts[aidx];
        let ok = acct.chargeback(st.amount);
        if !ok {
            return ;
        }
        self.accounts.set(aidx, acct);
        proof {
            lemma_accounts_map_update(aseq, aidx as int, acct);
        }
        let ghost dseq = self.disputable@;
        self.disputable.set(sidx, StoredTransaction { disputed: false, ..st });
        proof {
            lemma_stored_map_update(dseq, sidx as int, StoredTransaction { disputed: false, ..st });
            assert(self@ =~= step_chargeback(s0, client, tx_id));
        }
    }

    /// Process a single transaction: duplicate and amount checks for
    /// deposits and withdrawals, then dispatch by type.  The engine
    /// performs exactly the `step` transition of the abstract ledger;
    /// every rejection leaves the state unchanged.
    pub fn process_transaction(&mut self, tx: Transaction)
        requires
            old(self).wf(),
        ensures
            final(self).wf(),
            final(self)@ == step(old(self)@, tx),
    {
        let ghost s0 = self@;
        proof {
            lemma_step_preserves_inv(s0, tx);
        }
        let is_movement = matches!(tx.tx_type, TransactionType::Deposit | TransactionType::Withdrawal);
        if is_movement {
            // Reject duplicate transaction ids globally.
            if self.is_processed(tx.tx) {
                return ;
            }
            // Validate the amount.
            match tx.amount {
                Some(amount) => {
                    if amount <= 0 {
                        return ;
                    }
                    if matches!(tx.tx_type, TransactionType::Deposit) {
                        self.process_deposit(tx.client, tx.tx, amount);
                    } else {
                        self.process_withdrawal(tx.client, tx.tx, amount);
                    }
                },
                None => {
                    return ;
                },
            }
        } else {
            match tx.tx_type {
                TransactionType::Dispute => self.process_dispute(tx.client, tx.tx),
                TransactionType::Resolve => self.process_resolve(tx.client, tx.tx),
                TransactionType::Chargeback => self.process_chargeback(tx.client, tx.tx),
                _ => {
                    proof {
                        assert(false);
                    }
                },
            }
        }
    }

    /// Get a snapshot of all client accounts, in no particular order:
    /// exactly the accounts of the abstract state, one per client.
    pub fn get_accounts(&self) -> (r: Vec<Account>)
        requires
            self.wf(),
        ensures
            forall|a: Account|
                #[trigger] r@.contains(a) <==> (self@.accounts.dom().contains(a.client_id)
                    && self@.accounts[a.client_id] == a),
            forall|i: int, j: int|
                0 <= i < j < r@.len() ==> (#[trigger] r@[i]).client_id != (
                #[trigger] r@[j]).client_id,
    {
        let n = self.accounts.len();
        let mut r: Vec<Account> = Vec::new();
        let mut i: usize = 0;
        while i < n
            invariant
                i <= n,
                n == self.accounts@.len(),
                r@ == self.accounts@.take(i as int),
            decreases n - i,
        {
            r.push(self.accounts[i]);
            proof {
                assert(r@ =~= self.accounts@.take(i + 1));
            }
            i = i + 1;
        }
        proof {
            assert(r@ =~= self.accounts@);
            lemma_accounts_map_complete(self.accounts@);
        }
        r
    }

    /// Consume the engine and return all accounts, in no particular
    /// order: exactly the accounts of the abstract state.
    pub fn into_accounts(self) -> (r: Vec<Account>)
        requires
            self.wf(),
        ensures
            forall|a: Account|
                #[trigger] r@.contains(a) <==> (self@.accounts.dom().contains(a.client_id)
                    && self@.accounts[a.client_id] == a),
            forall|i: int, j: int|
                0 <= i < j < r@.len() ==> (#[trigger] r@[i]).client_id != (
                #[trigger] r@[j]).client_id,
    {
        proof {
            lemma_accounts_map_complete(self.accounts@);
        }
        let PaymentsEngine { accounts, disputable: _, processed: _ } = self;
        accounts
    }
}

impl Default for PaymentsEngine {
    /// The default engine is the fresh, empty one.
    fn default() -> (e: PaymentsEngine)
        ensures
            e.wf(),
            e@ == LedgerState::initial(),
    {
        PaymentsEngine::new()
    }
}

} // verus!
