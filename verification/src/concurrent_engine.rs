//! The sharded ledger: independent engines partitioned by client id.
//!
//! Clients are distributed over `N` independent `PersistentEngine`
//! shards by `client_id % N`, so all transactions of one client land on
//! the same shard and are applied there in arrival order, while
//! transactions of clients on different shards touch disjoint state.
//! This module holds the verified sequential core: routing, the
//! per-shard transitions, and the laws that make concurrent use sound —
//! a transaction changes only its own shard, transactions routed to
//! different shards commute, and each shard's state is the sequential
//! replay of exactly the transactions routed to it.  An outer layer may
//! wrap each shard in its own exclusive lock and run shards in
//! parallel; the resulting state is then some interleaving of
//! per-shard sequential runs, which these laws pin down.

use vstd::prelude::*;

use crate::error::EngineError;
use crate::ledger::{lemma_step_account_domain, replay, step, LedgerState};
use crate::models::account::{insert_sorted, sorted_strictly_by_client, Account};
use crate::models::transaction::Transaction;
use crate::persistence::StubPersistence;
use crate::persistent_engine::PersistentEngine;

verus! {

/// The shard that handles a client, out of `n` shards.
pub open spec fn shard_of(client: u16, n: int) -> int {
    (client as int) % n
}

/// The sharded transition on a sequence of ledger states: the routed
/// shard steps, every other shard is untouched.
pub open spec fn sharded_step(ls: Seq<LedgerState>, tx: Transaction) -> Seq<LedgerState> {
    let i = shard_of(tx.client, ls.len() as int);
    ls.update(i, step(ls[i], tx))
}

/// The sharded states after applying a whole sequence of records in
/// order.
pub open spec fn sharded_replay(ls: Seq<LedgerState>, txs: Seq<Transaction>) -> Seq<LedgerState>
    decreases txs.len(),
{
    if txs.len() == 0 {
        ls
    } else {
        sharded_step(sharded_replay(ls, txs.drop_last()), txs.last())
    }
}

/// The subsequence of records routed to shard `i`, in original order.
pub open spec fn routed_to(txs: Seq<Transaction>, i: int, n: int) -> Seq<Transaction>
    decreases txs.len(),
{
    if txs.len() == 0 {
        txs
    } else {
        let prefix = routed_to(txs.drop_last(), i, n);
        if shard_of(txs.last().client, n) == i {
            prefix.push(txs.last())
        } else {
            prefix
        }
    }
}

/// Transactions routed to different shards commute: processing them in
/// either order reaches the same sharded state.  Clients on different
/// shards therefore proceed independently.
pub proof fn lemma_cross_shard_commute(ls: Seq<LedgerState>, a: Transaction, b: Transaction)
    requires
        ls.len() >= 1,
        shard_of(a.client, ls.len() as int) != shard_of(b.client, ls.len() as int),
    ensures
        sharded_step(sharded_step(ls, a), b) == sharded_step(sharded_step(ls, b), a),
{
    let n = ls.len() as int;
    let ia = shard_of(a.client, n);
    let ib = shard_of(b.client, n);
    assert(0 <= ia < n && 0 <= ib < n) by {
        assert((a.client as int) % n >= 0 && (a.client as int) % n < n) by (nonlinear_arith)
            requires
                n >= 1,
        ;
        assert((b.client as int) % n >= 0 && (b.client as int) % n < n) by (nonlinear_arith)
            requires
                n >= 1,
        ;
    }
    assert(sharded_step(sharded_step(ls, a), b) =~= sharded_step(sharded_step(ls, b), a));
}

/// Each shard's state after a sharded run is the sequential replay, on
/// that shard alone, of exactly the records routed to it, in order.
/// For any fixed client this is the single-threaded ledger semantics:
/// all its records hit one shard and apply there sequentially.
pub proof fn lemma_shard_state_is_sequential_replay(
    ls: Seq<LedgerState>,
    txs: Seq<Transaction>,
    i: int,
)
    requires
        0 <= i < ls.len(),
    ensures
        sharded_replay(ls, txs).len() == ls.len(),
        sharded_replay(ls, txs)[i] == replay(ls[i], routed_to(txs, i, ls.len() as int)),
    decreases txs.len(),
{
    let n = ls.len() as int;
    if txs.len() > 0 {
        lemma_shard_state_is_sequential_replay(ls, txs.drop_last(), i);
        let prev = sharded_replay(ls, txs.drop_last());
        let tx = txs.last();
        let tgt = shard_of(tx.client, n);
        let routed = routed_to(txs.drop_last(), i, n);
        if tgt == i {
            assert(routed_to(txs, i, n) == routed.push(tx));
            assert(routed.push(tx).drop_last() =~= routed);
            assert(routed.push(tx).last() == tx);
            assert(sharded_replay(ls, txs)[i] == step(prev[i], tx));
        } else {
            assert(routed_to(txs, i, n) == routed);
            if 0 <= tgt < n {
                assert(sharded_replay(ls, txs)[i] == prev[i]);
            } else {
                assert(prev.update(tgt, step(prev[tgt], tx)) =~= prev);
            }
        }
    }
}

/// When every record belongs to clients of one shard, that shard's
/// state is the plain sequential replay of the whole sequence: the
/// sharded engine is, per client, the single-threaded engine.
pub proof fn lemma_single_shard_sequential(ls: Seq<LedgerState>, txs: Seq<Transaction>, i: int)
    requires
        0 <= i < ls.len(),
        forall|k: int|
            0 <= k < txs.len() ==> shard_of((#[trigger] txs[k]).client, ls.len() as int) == i,
    ensures
        sharded_replay(ls, txs)[i] == replay(ls[i], txs),
    decreases txs.len(),
{
    let n = ls.len() as int;
    assert(routed_to(txs, i, n) =~= txs) by {
        lemma_routed_to_all(txs, i, n);
    }
    lemma_shard_state_is_sequential_replay(ls, txs, i);
}

/// Helper: when every record routes to shard `i`, routing filters
/// nothing out.
proof fn lemma_routed_to_all(txs: Seq<Transaction>, i: int, n: int)
    requires
        forall|k: int| 0 <= k < txs.len() ==> shard_of((#[trigger] txs[k]).client, n) == i,
    ensures
        routed_to(txs, i, n) == txs,
    decreases txs.len(),
{
    if txs.len() > 0 {
        lemma_routed_to_all(txs.drop_last(), i, n);
        assert(routed_to(txs, i, n) =~= txs);
    }
}

/// Thread-safe sharding core: `N` independent (engine + write-ahead
/// log) pairs, routing by client id.
pub struct ShardedEngine {
    /// The independent shards; index `i` owns the clients with
    /// `client_id % num_shards == i`.
    shards: Vec<PersistentEngine<StubPersistence>>,
    /// The number of shards; equals `shards.len()`.
    num_shards: usize,
}

impl ShardedEngine {
    /// The shards, for specification purposes.
    pub closed spec fn spec_shards(&self) -> Seq<PersistentEngine<StubPersistence>> {
        self.shards@
    }

    /// The declared shard count, for specification purposes.
    pub closed spec fn spec_num_shards(&self) -> usize {
        self.num_shards
    }

    /// The number of shards.
    pub open spec fn shard_count(&self) -> int {
        self.spec_shards().len() as int
    }

    /// The abstract ledger state of each shard.
    pub open spec fn ledgers(&self) -> Seq<LedgerState> {
        Seq::new(self.spec_shards().len(), |i: int| self.spec_shards()[i].ledger())
    }

    /// Well-formedness: at least one shard, a consistent count, every
    /// shard well formed, and every account parked on the shard its
    /// client routes to.
    pub open spec fn wf(&self) -> bool {
        &&& self.shard_count() >= 1
        &&& self.spec_num_shards() == self.shard_count()
        &&& forall|i: int| 0 <= i < self.shard_count() ==> (#[trigger] self.spec_shards()[i]).wf()
        &&& forall|i: int, c: u16|
            0 <= i < self.shard_count() && (#[trigger] self.ledgers()[i].accounts.dom().contains(
                c,
            )) ==> shard_of(c, self.shard_count()) == i
    }

    /// Create a new sharded engine with `num_shards` independent,
    /// empty shards.
    pub fn new(num_shards: usize) -> (e: ShardedEngine)
        requires
            num_shards >= 1,
        ensures
            e.wf(),
            e.shard_count() == num_shards,
            forall|i: int| 0 <= i < num_shards ==> e.ledgers()[i] == LedgerState::initial(),
    {
        let mut shards: Vec<PersistentEngine<StubPersistence>> = Vec::new();
        let mut i: usize = 0;
        while i < num_shards
            invariant
                i <= num_shards,
                shards@.len() == i,
                forall|j: int|
                    0 <= j < i ==> (#[trigger] shards@[j]).wf() && shards@[j].ledger()
                        == LedgerState::initial(),
            decreases num_shards - i,
        {
            shards.push(PersistentEngine::new(StubPersistence::new()));
            i = i + 1;
        }
        ShardedEngine { shards, num_shards }
    }

    /// The shard that handles this client.
    fn shard_for_client(&self, client_id: u16) -> (i: usize)
        requires
            self.wf(),
        ensures
            i as int == shard_of(client_id, self.shard_count()),
            i < self.shard_count(),
    {
        let n = self.num_shards;
        let i = (client_id as usize) % n;
        proof {
            assert((client_id as int) % (n as int) >= 0 && (client_id as int) % (n as int) < (
            n as int)) by (nonlinear_arith)
                requires
                    n >= 1,
            ;
        }
        i
    }

    /// Route a transaction to its client's shard and process it there
    /// under write-ahead-log discipline.  The stub-backed shards never
    /// fail, so this always succeeds, and only the routed shard
    /// changes, by exactly one `step` of the abstract ledger.
    pub fn process_transaction(&mut self, tx: Transaction) -> (r: Result<(), EngineError>)
        requires
            old(self).wf(),
        ensures
            final(self).wf(),
            final(self).shard_count() == old(self).shard_count(),
            r is Ok,
            final(self).ledgers() == sharded_step(old(self).ledgers(), tx),
    {
        let ghost ls0 = self.ledgers();
        let shard_id = self.shard_for_client(tx.client);
        let res = self.shards[shard_id].process_transaction(tx);
        proof {
            assert(final(self).ledgers() =~= self.ledgers());
            if res is Ok {
                assert(self.ledgers()[shard_id as int] == step(ls0[shard_id as int], tx));
                assert(self.ledgers() =~= sharded_step(ls0, tx));
                assert forall|i: int, c: u16|
                    0 <= i < self.shard_count() && (
                    #[trigger] self.ledgers()[i].accounts.dom().contains(c)) implies shard_of(
                    c,
                    self.shard_count(),
                ) == i by {
                    if i == shard_id as int && !ls0[i].accounts.dom().contains(c) {
                        lemma_step_account_domain(ls0[i], tx, c);
                    }
                }
            } else {
                assert(self.ledgers() =~= ls0);
            }
        }
        match res {
            Ok(_) => Ok(()),
            Err(e) => Err(e),
        }
    }

    /// Get the account snapshot for a client, reading only that
    /// client's shard.  Returns the account exactly when the routed
    /// shard's ledger knows the client.
    pub fn get_account(&self, client_id: u16) -> (r: Option<Account>)
        requires
            self.wf(),
        ensures
            match r {
                Some(a) => {
                    let l = self.ledgers()[shard_of(client_id, self.shard_count())];
                    l.accounts.dom().contains(client_id) && a == l.accounts[client_id]
                },
                None => {
                    let l = self.ledgers()[shard_of(client_id, self.shard_count())];
                    !l.accounts.dom().contains(client_id)
                },
            },
    {
        let shard_id = self.shard_for_client(client_id);
        let ghost l = self.ledgers()[shard_id as int];
        let accounts = self.shards[shard_id].engine().get_accounts();
        let n = accounts.len();
        let mut i: usize = 0;
        while i < n
            invariant
                i <= n,
                n == accounts@.len(),
                shard_id as int == shard_of(client_id, self.shard_count()),
                l == self.ledgers()[shard_id as int],
                forall|j: int| 0 <= j < i ==> (#[trigger] accounts@[j]).client_id != client_id,
                forall|a: Account|
                    #[trigger] accounts@.contains(a) <==> (l.accounts.dom().contains(a.client_id)
                        && l.accounts[a.client_id] == a),
            decreases n - i,
        {
            if accounts[i].client_id == client_id {
                assert(accounts@.contains(accounts@[i as int]));
                return Some(accounts[i]);
            }
            i = i + 1;
        }
        proof {
            if l.accounts.dom().contains(client_id) {
                let a = l.accounts[client_id];
                assert(a.client_id == client_id);
                assert(accounts@.contains(a));
            }
        }
        None
    }

    /// Get a snapshot of all accounts from all shards, sorted
    /// ascending by client id.  Each shard is read independently; the
    /// result holds exactly the accounts of the per-shard ledgers.
    pub fn get_all_accounts(&self) -> (r: Vec<Account>)
        requires
            self.wf(),
        ensures
            sorted_strictly_by_client(r@),
            forall|a: Account|
                #[trigger] r@.contains(a) <==> exists|i: int|
                    0 <= i < self.shard_count() && (
                    #[trigger] self.ledgers()[i].accounts.dom().contains(a.client_id))
                        && self.ledgers()[i].accounts[a.client_id] == a,
    {
        let n = self.num_shards;
        let mut all: Vec<Account> = Vec::new();
        let mut s: usize = 0;
        while s < n
            invariant
                s <= n,
                self.wf(),
                n == self.shard_count(),
                sorted_strictly_by_client(all@),
                forall|x: Account|
                    #[trigger] all@.contains(x) <==> exists|i: int|
                        0 <= i < s && (#[trigger] self.ledgers()[i].accounts.dom().contains(
                            x.client_id,
                        )) && self.ledgers()[i].accounts[x.client_id] == x,
            decreases n - s,
        {
            let ghost l = self.ledgers()[s as int];
            let accounts = self.shards[s].engine().get_accounts();
            let m = accounts.len();
            let mut k: usize = 0;
            while k < m
                invariant
                    k <= m,
                    s < n,
                    self.wf(),
                    n == self.shard_count(),
                    m == accounts@.len(),
                    l == self.ledgers()[s as int],
                    sorted_strictly_by_client(all@),
                    forall|a: Account|
                        #[trigger] accounts@.contains(a) <==> (l.accounts.dom().contains(
                            a.client_id,
                        ) && l.accounts[a.client_id] == a),
                    forall|i2: int, j2: int|
                        0 <= i2 < j2 < accounts@.len() ==> (#[trigger] accounts@[i2]).client_id != (
                        #[trigger] accounts@[j2]).client_id,
                    forall|x: Account|
                        #[trigger] all@.contains(x) <==> (exists|i: int|
                            0 <= i < s && (#[trigger] self.ledgers()[i].accounts.dom().contains(
                                x.client_id,
                            )) && self.ledgers()[i].accounts[x.client_id] == x) || (exists|j: int|
                            0 <= j < k && accounts@[j] == x),
                decreases m - k,
            {
                let a = accounts[k];
                assert(accounts@.contains(a));
                assert forall|i2: int| 0 <= i2 < all@.len() implies (#[trigger] all@[i2]).client_id
                    != a.client_id by {
                    assert(all@.contains(all@[i2]));
                    let x = all@[i2];
                    if exists|i: int|
                        0 <= i < s && (#[trigger] self.ledgers()[i].accounts.dom().contains(
                            x.client_id,
                        )) && self.ledgers()[i].accounts[x.client_id] == x {
                        let i = choose|i: int|
                            0 <= i < s && (#[trigger] self.ledgers()[i].accounts.dom().contains(
                                x.client_id,
                            )) && self.ledgers()[i].accounts[x.client_id] == x;
                        assert(shard_of(x.client_id, self.shard_count()) == i);
                        assert(l.accounts.dom().contains(a.client_id));
                        assert(shard_of(a.client_id, self.shard_count()) == s as int);
                    } else {
                        let j = choose|j: int| 0 <= j < k && accounts@[j] == x;
                        assert(accounts@[j].client_id != accounts@[k as int].client_id);
                    }
                }
                insert_sorted(&mut all, a);
                assert forall|x: Account| #[trigger] all@.contains(x) implies (exists|i: int|
                    0 <= i < s && (#[trigger] self.ledgers()[i].accounts.dom().contains(
                        x.client_id,
                    )) && self.ledgers()[i].accounts[x.client_id] == x) || (exists|j: int|
                    0 <= j < k + 1 && accounts@[j] == x) by {
                    if x == a {
                        assert(accounts@[k as int] == x);
                    }
                }
                assert forall|x: Account|
                    (exists|i: int|
                        0 <= i < s && (#[trigger] self.ledgers()[i].accounts.dom().contains(
                            x.client_id,
                        )) && self.ledgers()[i].accounts[x.client_id] == x) || (exists|j: int|
                        0 <= j < k + 1 && accounts@[j] == x) implies #[trigger] all@.contains(
                    x,
                ) by {
                    if exists|j: int| 0 <= j < k + 1 && accounts@[j] == x {
                        let j = choose|j: int| 0 <= j < k + 1 && accounts@[j] == x;
                        if j < k {
                            assert(all@.contains(x));
                        }
                    }
                }
                k = k + 1;
            }
            assert forall|x: Account| #[trigger] all@.contains(x) implies exists|i: int|
                0 <= i < s + 1 && (#[trigger] self.ledgers()[i].accounts.dom().contains(
                    x.client_id,
                )) && self.ledgers()[i].accounts[x.client_id] == x by {
                if exists|j: int| 0 <= j < m && accounts@[j] == x {
                    let j = choose|j: int| 0 <= j < m && accounts@[j] == x;
                    assert(accounts@.contains(x));
                    assert(self.ledgers()[s as int].accounts.dom().contains(x.client_id));
                }
            }
            assert forall|x: Account|
                exists|i: int|
                    0 <= i < s + 1 && (#[trigger] self.ledgers()[i].accounts.dom().contains(
                        x.client_id,
                    )) && self.ledgers()[i].accounts[x.client_id] == x implies #[trigger] all@.contains(
                x,
            ) by {
                let i = choose|i: int|
                    0 <= i < s + 1 && (#[trigger] self.ledgers()[i].accounts.dom().contains(
                        x.client_id,
                    )) && self.ledgers()[i].accounts[x.client_id] == x;
                if i == s as int {
                    assert(accounts@.contains(x));
                    let j = choose|j: int| 0 <= j < m && accounts@[j] == x;
                    assert(0 <= j < m && accounts@[j] == x);
                }
            }
            s = s + 1;
        }
        all
    }

    /// Get the number of shards.
    pub fn num_shards(&self) -> (n: usize)
        requires
            self.wf(),
        ensures
            n as int == self.shard_count(),
    {
        self.num_shards
    }
}

} // verus!
