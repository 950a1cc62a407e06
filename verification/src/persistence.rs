//! Persistence backends for crash recovery.
//!
//! The `PersistenceBackend` trait is the durability contract of a
//! write-ahead log: once `append` returns success on a durable backend,
//! the transaction appears, in order, in every later `replay`.  A
//! backend advertises through the `durable` flag whether it actually
//! records appends; the stub backend does not, and documents so.

use vstd::prelude::*;

use crate::error::EngineError;
use crate::models::transaction::Transaction;

verus! {

/// The durability contract: `append` must record a transaction before
/// the caller applies it, and `replay` must return every successfully
/// appended transaction in append order.
pub trait PersistenceBackend: Sized {
    /// The sequence of transactions that a replay would return, in
    /// append order.
    spec fn log(&self) -> Seq<Transaction>;

    /// Whether this backend really records appends.  A non-durable
    /// stand-in may accept every append while keeping an empty log,
    /// but then provides no crash-recovery guarantee.
    spec fn durable() -> bool;

    /// Whether this backend can never fail.  An infallible backend
    /// owes success on every append and replay; a fallible one (say,
    /// one backed by real I/O) may return an error instead.
    spec fn infallible() -> bool;

    /// Append a transaction to persistent storage.
    ///
    /// On success a durable backend's log has grown by exactly this
    /// transaction; on failure the log is unchanged and the caller
    /// must not apply the transaction.
    fn append(&mut self, tx: &Transaction) -> (r: Result<(), EngineError>)
        ensures
            Self::infallible() ==> r is Ok,
            r is Ok ==> final(self).log() == if Self::durable() {
                old(self).log().push(*tx)
            } else {
                old(self).log()
            },
            r is Err ==> final(self).log() == old(self).log(),
    ;

    /// Replay every successfully appended transaction, in append
    /// order, for recovery.
    fn replay(&self) -> (r: Result<Vec<Transaction>, EngineError>)
        ensures
            Self::infallible() ==> r is Ok,
            r matches Ok(v) ==> v@ == self.log(),
    ;
}

/// A no-storage stand-in for environments with no durability
/// requirement: every append succeeds and is counted but not recorded,
/// and replay returns nothing.  It provides no crash-recovery
/// guarantee.
pub struct StubPersistence {
    /// How many transactions would have been persisted.
    transaction_count: usize,
}

impl StubPersistence {
    /// The number of appends seen so far.
    pub closed spec fn spec_count(&self) -> usize {
        self.transaction_count
    }

    /// Create a new stub persistence backend.
    pub fn new() -> (p: StubPersistence)
        ensures
            p.spec_count() == 0,
    {
        StubPersistence { transaction_count: 0 }
    }

    /// Get the number of transactions that would have been persisted.
    pub fn transaction_count(&self) -> (n: usize)
        ensures
            n == self.spec_count(),
    {
        self.transaction_count
    }
}

impl Default for StubPersistence {
    /// The default stub has seen no appends.
    fn default() -> (p: StubPersistence)
        ensures
            p.spec_count() == 0,
    {
        StubPersistence::new()
    }
}

impl PersistenceBackend for StubPersistence {
    /// The stub records nothing.
    open spec fn log(&self) -> Seq<Transaction> {
        Seq::empty()
    }

    /// The stub is not durable.
    open spec fn durable() -> bool {
        false
    }

    /// The stub never fails.
    open spec fn infallible() -> bool {
        true
    }

    fn append(&mut self, tx: &Transaction) -> (r: Result<(), EngineError>)
        ensures
            final(self).spec_count() == if old(self).spec_count() == usize::MAX {
                0usize
            } else {
                (old(self).spec_count() + 1) as usize
            },
    {
        // Count the append; the counter deliberately wraps rather than
        // panic, matching an event counter's semantics.
        if self.transaction_count == usize::MAX {
            self.transaction_count = 0;
        } else {
            self.transaction_count = self.transaction_count + 1;
        }
        Ok(())
    }

    fn replay(&self) -> (r: Result<Vec<Transaction>, EngineError>) {
        Ok(Vec::new())
    }
}

/// An in-memory write-ahead log: every appended transaction is kept
/// and replayed in append order.  It honours the full durability
/// contract within one process; being memory-backed it does not
/// survive a real crash of the process itself.
pub struct MemoryPersistence {
    log: Vec<Transaction>,
}

impl MemoryPersistence {
    /// Create an empty in-memory log.
    pub fn new() -> (p: MemoryPersistence)
        ensures
            p.log() == Seq::<Transaction>::empty(),
    {
        MemoryPersistence { log: Vec::new() }
    }
}

impl Default for MemoryPersistence {
    /// The default in-memory log is empty.
    fn default() -> (p: MemoryPersistence)
        ensures
            p.log() == Seq::<Transaction>::empty(),
    {
        MemoryPersistence::new()
    }
}

impl PersistenceBackend for MemoryPersistence {
    /// The log is exactly what was appended.
    closed spec fn log(&self) -> Seq<Transaction> {
        self.log@
    }

    /// The in-memory log is durable within the process.
    open spec fn durable() -> bool {
        true
    }

    /// The in-memory log never fails.
    open spec fn infallible() -> bool {
        true
    }

    fn append(&mut self, tx: &Transaction) -> (r: Result<(), EngineError>) {
        self.log.push(*tx);
        Ok(())
    }

    fn replay(&self) -> (r: Result<Vec<Transaction>, EngineError>) {
        let n = self.log.len();
        let mut v: Vec<Transaction> = Vec::new();
        let mut i: usize = 0;
        while i < n
            invariant
                i <= n,
                n == self.log@.len(),
                v@ == self.log@.take(i as int),
            decreases n - i,
        {
            v.push(self.log[i]);
            proof {
                assert(v@ =~= self.log@.take(i + 1));
            }
            i = i + 1;
        }
        proof {
            assert(v@ =~= self.log@);
        }
        Ok(v)
    }
}

} // verus!
