//! Tests for the persistence backends and the write-ahead-log engine:
//! append-before-apply, recovery, and the stub's counting.  Amounts
//! are in whole units.

use payments_engine::models::{Transaction, TransactionType};
use payments_engine::persistence::{MemoryPersistence, PersistenceBackend, StubPersistence};
use payments_engine::persistent_engine::PersistentEngine;

fn deposit(client: u16, tx: u32, amount: i64) -> Transaction {
    Transaction { tx_type: TransactionType::Deposit, client, tx, amount: Some(amount) }
}

fn withdrawal(client: u16, tx: u32, amount: i64) -> Transaction {
    Transaction { tx_type: TransactionType::Withdrawal, client, tx, amount: Some(amount) }
}

fn dispute(client: u16, tx: u32) -> Transaction {
    Transaction { tx_type: TransactionType::Dispute, client, tx, amount: None }
}

fn resolve(client: u16, tx: u32) -> Transaction {
    Transaction { tx_type: TransactionType::Resolve, client, tx, amount: None }
}

#[test]
fn test_stub_persistence_counts_appends() {
    let mut persistence = StubPersistence::new();
    assert_eq!(persistence.transaction_count(), 0);

    persistence.append(&deposit(1, 1, 100)).unwrap();
    persistence.append(&deposit(1, 2, 50)).unwrap();
    assert_eq!(persistence.transaction_count(), 2);

    // The stub records nothing: replay is empty.
    assert_eq!(persistence.replay().unwrap().len(), 0);
}

#[test]
fn test_memory_persistence_replays_in_order() {
    let mut persistence = MemoryPersistence::new();
    persistence.append(&deposit(1, 1, 100)).unwrap();
    persistence.append(&withdrawal(1, 2, 30)).unwrap();

    let replayed = persistence.replay().unwrap();
    assert_eq!(replayed.len(), 2);
    assert!(matches!(replayed[0].tx_type, TransactionType::Deposit));
    assert_eq!(replayed[0].tx, 1);
    assert_eq!(replayed[0].amount, Some(100));
    assert!(matches!(replayed[1].tx_type, TransactionType::Withdrawal));
    assert_eq!(replayed[1].tx, 2);
    assert_eq!(replayed[1].amount, Some(30));
}

#[test]
fn test_persistent_engine_applies_and_logs() {
    let mut engine = PersistentEngine::new(MemoryPersistence::new());

    engine.process_transaction(deposit(1, 1, 100)).unwrap();
    engine.process_transaction(withdrawal(1, 2, 30)).unwrap();

    let accounts = engine.engine().get_accounts();
    assert_eq!(accounts.len(), 1);
    assert_eq!(accounts[0].available, 70);

    let logged = engine.into_persistence().replay().unwrap();
    assert_eq!(logged.len(), 2);
}

#[test]
fn test_recover_reproduces_live_state() {
    // Run a full scenario live, then replay its log through recover:
    // the recovered accounts must match the live ones exactly.
    let mut live = PersistentEngine::new(MemoryPersistence::new());
    let txs = vec![
        deposit(1, 1, 100),
        deposit(2, 2, 200),
        withdrawal(1, 3, 25),
        dispute(2, 2),
        resolve(2, 2),
        deposit(1, 1, 999),  // duplicate id, rejected live and on replay
    ];
    for tx in &txs {
        live.process_transaction(*tx).unwrap();
    }

    let mut live_accounts = live.engine().get_accounts();
    live_accounts.sort_by_key(|a| a.client_id);

    let recovered = PersistentEngine::recover(live.into_persistence()).unwrap();
    let mut recovered_accounts = recovered.engine().get_accounts();
    recovered_accounts.sort_by_key(|a| a.client_id);

    assert_eq!(live_accounts.len(), recovered_accounts.len());
    for (a, b) in live_accounts.iter().zip(recovered_accounts.iter()) {
        assert_eq!(a, b);
    }
}

#[test]
fn test_recover_from_stub_is_fresh() {
    // The stub keeps no log, so recovery from it yields empty state;
    // it documents that it provides no crash-recovery guarantee.
    let mut live = PersistentEngine::new(StubPersistence::new());
    live.process_transaction(deposit(1, 1, 100)).unwrap();
    assert_eq!(live.engine().get_accounts().len(), 1);

    let recovered = PersistentEngine::recover(live.into_persistence()).unwrap();
    assert_eq!(recovered.engine().get_accounts().len(), 0);
}

#[test]
fn test_recovered_engine_continues_processing() {
    let mut live = PersistentEngine::new(MemoryPersistence::new());
    live.process_transaction(deposit(1, 1, 100)).unwrap();

    let mut recovered = PersistentEngine::recover(live.into_persistence()).unwrap();
    // The duplicate check survives recovery: the same id is rejected.
    recovered.process_transaction(deposit(1, 1, 100)).unwrap();
    // A fresh id is applied.
    recovered.process_transaction(deposit(1, 2, 11)).unwrap();

    let accounts = recovered.engine().get_accounts();
    assert_eq!(accounts[0].available, 111);
}

#[test]
fn test_persistence_mut_reaches_backend() {
    let mut engine = PersistentEngine::new(StubPersistence::new());
    engine.process_transaction(deposit(1, 1, 100)).unwrap();
    assert_eq!(engine.persistence_mut().transaction_count(), 1);
}
