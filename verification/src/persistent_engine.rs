//! A ledger engine composed with a persistence backend under
//! write-ahead-log discipline.
//!
//! `process_transaction` appends to the backend first and applies the
//! transaction to the in-memory engine only if the append succeeded:
//! no transaction is applied without first being durably recorded, and
//! an append failure leaves both the log and the state untouched
//! (fail-closed).  With a durable backend the engine state is always
//! exactly the replay of the log, which is what makes `recover`
//! reproduce the live state.

use vstd::prelude::*;

use crate::engine::PaymentsEngine;
use crate::error::EngineError;
use crate::ledger::{replay, step, LedgerState};
use crate::models::transaction::Transaction;
use crate::persistence::PersistenceBackend;

verus! {

/// Engine with persistence support for crash recovery.
pub struct PersistentEngine<P: PersistenceBackend> {
    /// In-memory transaction processing engine.
    engine: PaymentsEngine,
    /// Persistence backend (the write-ahead log).
    persistence: P,
}

impl<P: PersistenceBackend> PersistentEngine<P> {
    /// The inner engine, for specification purposes.
    pub closed spec fn spec_engine(&self) -> PaymentsEngine {
        self.engine
    }

    /// The persistence backend, for specification purposes.
    pub closed spec fn backend(&self) -> P {
        self.persistence
    }

    /// The abstract ledger state of the in-memory engine.
    pub open spec fn ledger(&self) -> LedgerState {
        self.spec_engine()@
    }

    /// The backend's log.
    pub open spec fn log(&self) -> Seq<Transaction> {
        self.backend().log()
    }

    /// The write-ahead-log invariant: the engine is well formed, and
    /// with a durable backend the in-memory state is exactly the
    /// replay of the log.
    pub open spec fn wf(&self) -> bool {
        &&& self.spec_engine().wf()
        &&& P::durable() ==> self.ledger() == replay(LedgerState::initial(), self.log())
    }

    /// Create a new engine over a persistence backend, starting from
    /// empty state.  A durable backend must be empty here; use
    /// `recover` to restore from an existing log.
    pub fn new(persistence: P) -> (e: PersistentEngine<P>)
        requires
            P::durable() ==> persistence.log() == Seq::<Transaction>::empty(),
        ensures
            e.wf(),
            e.ledger() == LedgerState::initial(),
            e.backend() == persistence,
    {
        PersistentEngine { engine: PaymentsEngine::new(), persistence }
    }

    /// Recover by replaying the backend's log into a fresh engine, in
    /// original order, through the normal apply step (without
    /// appending again).  Fails only if the backend's replay fails; it
    /// never fails on an infallible backend.
    pub fn recover(persistence: P) -> (r: Result<PersistentEngine<P>, EngineError>)
        ensures
            P::infallible() ==> r is Ok,
            r matches Ok(e) ==> {
                &&& e.wf()
                &&& e.ledger() == replay(LedgerState::initial(), persistence.log())
                &&& e.backend() == persistence
            },
    {
        let mut engine = PaymentsEngine::new();
        let transactions = match persistence.replay() {
            Ok(v) => v,
            Err(e) => {
                return Err(e);
            },
        };
        let n = transactions.len();
        let mut i: usize = 0;
        assert(transactions@.take(0) =~= Seq::<Transaction>::empty());
        while i < n
            invariant
                i <= n,
                n == transactions@.len(),
                engine.wf(),
                engine@ == replay(LedgerState::initial(), transactions@.take(i as int)),
            decreases n - i,
        {
            engine.process_transaction(transactions[i]);
            proof {
                assert(transactions@.take(i + 1).drop_last() =~= transactions@.take(i as int));
                assert(transactions@.take(i + 1).last() == transactions@[i as int]);
            }
            i = i + 1;
        }
        proof {
            assert(transactions@.take(n as int) =~= transactions@);
        }
        Ok(PersistentEngine { engine, persistence })
    }

    /// Process a transaction under write-ahead-log discipline: append
    /// first; apply to the in-memory engine only if the append
    /// succeeded.  On failure neither the log nor the state changes;
    /// with an infallible backend it always succeeds.
    pub fn process_transaction(&mut self, tx: Transaction) -> (r: Result<(), EngineError>)
        requires
            old(self).wf(),
        ensures
            final(self).wf(),
            P::infallible() ==> r is Ok,
            r is Ok ==> final(self).ledger() == step(old(self).ledger(), tx),
            r is Ok && P::durable() ==> final(self).log() == old(self).log().push(tx),
            r is Err ==> final(self).ledger() == old(self).ledger() && final(self).log() == old(
                self,
            ).log(),
    {
        // Persist before applying: if we stop after this point, the
        // transaction is in the log and recovery will reapply it.
        match self.persistence.append(&tx) {
            Ok(_) => {},
            Err(e) => {
                return Err(e);
            },
        }
        self.engine.process_transaction(tx);
        proof {
            if P::durable() {
                assert(self.log().drop_last() =~= old(self).log());
                assert(self.log().last() == tx);
            }
        }
        Ok(())
    }

    /// Get a reference to the inner engine for queries.
    pub fn engine(&self) -> (e: &PaymentsEngine)
        ensures
            e@ == self.ledger(),
            *e == self.spec_engine(),
    {
        &self.engine
    }

    /// Get a mutable reference to the persistence backend, for
    /// advanced uses such as triggering snapshots.  Mutating the
    /// backend's log can of course break the write-ahead-log
    /// invariant.
    pub fn persistence_mut(&mut self) -> (p: &mut P)
        ensures
            *p == old(self).backend(),
            final(self).backend() == *final(p),
            final(self).spec_engine() == old(self).spec_engine(),
    {
        &mut self.persistence
    }

    /// Consume the engine and hand the persistence backend back, for
    /// example to recover from its log.
    pub fn into_persistence(self) -> (p: P)
        ensures
            p == self.backend(),
    {
        let PersistentEngine { engine: _, persistence } = self;
        persistence
    }
}

/// Recovery reproduces the live state: with a durable backend, a
/// recovered engine whose ledger is the replay of the live engine's
/// log — which is what `recover` returns — holds exactly the live
/// engine's ledger state.
pub proof fn lemma_recovery_reproduces_state<P: PersistenceBackend>(
    live: &PersistentEngine<P>,
    recovered: &PersistentEngine<P>,
)
    requires
        P::durable(),
        live.wf(),
        recovered.ledger() == replay(LedgerState::initial(), live.log()),
    ensures
        recovered.ledger() == live.ledger(),
{
}

} // verus!
