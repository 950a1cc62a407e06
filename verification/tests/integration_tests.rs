//! End-to-end tests through `process_transactions`: a batch of
//! validated records in, sorted account snapshots out.  Each test
//! picks the fixed-point scale its amounts need and states every
//! expected value at that same scale.

use payments_engine::models::{Account, Transaction, TransactionType};
use payments_engine::process_transactions;

fn deposit(client: u16, tx: u32, amount: i64) -> Transaction {
    Transaction { tx_type: TransactionType::Deposit, client, tx, amount: Some(amount) }
}

fn withdrawal(client: u16, tx: u32, amount: i64) -> Transaction {
    Transaction { tx_type: TransactionType::Withdrawal, client, tx, amount: Some(amount) }
}

fn dispute(client: u16, tx: u32) -> Transaction {
    Transaction { tx_type: TransactionType::Dispute, client, tx, amount: None }
}

fn resolve(client: u16, tx: u32) -> Transaction {
    Transaction { tx_type: TransactionType::Resolve, client, tx, amount: None }
}

fn chargeback(client: u16, tx: u32) -> Transaction {
    Transaction { tx_type: TransactionType::Chargeback, client, tx, amount: None }
}

fn find_client(accounts: &[Account], client_id: u16) -> &Account {
    accounts
        .iter()
        .find(|a| a.client_id == client_id)
        .unwrap_or_else(|| panic!("no account for client {}", client_id))
}

fn assert_client_balance(
    accounts: &[Account],
    client_id: u16,
    available: i64,
    held: i64,
    locked: bool,
) {
    let a = find_client(accounts, client_id);
    assert_eq!(a.available, available, "available of client {}", client_id);
    assert_eq!(a.held, held, "held of client {}", client_id);
    assert_eq!(a.available + a.held, available + held, "total of client {}", client_id);
    assert_eq!(a.locked, locked, "locked of client {}", client_id);
}

fn has_client(accounts: &[Account], client_id: u16) -> bool {
    accounts.iter().any(|a| a.client_id == client_id)
}

#[test]
fn test_multiple_clients() {
    let txs = vec![
        deposit(1, 1, 100),
        deposit(2, 2, 200),
        deposit(3, 3, 300),
        withdrawal(1, 4, 50),
        dispute(2, 2),
    ];
    let accounts = process_transactions(&txs);

    // Should have 3 clients
    assert_eq!(accounts.len(), 3);
    assert_client_balance(&accounts, 1, 50, 0, false);
    assert_client_balance(&accounts, 2, 0, 200, false);
    assert_client_balance(&accounts, 3, 300, 0, false);
}

#[test]
fn integration_tests_test_dispute_with_insufficient_available() {
    // Dispute fails when there's insufficient available balance
    let txs = vec![deposit(1, 1, 100), withdrawal(1, 2, 80), dispute(1, 1)];
    let accounts = process_transactions(&txs);

    // Client 1: deposited 100, withdrew 80, dispute should fail (only 20 available, need 100)
    assert_client_balance(&accounts, 1, 20, 0, false);
}

#[test]
fn test_locked_account_rejects_withdrawal() {
    let txs = vec![
        deposit(1, 1, 200),
        dispute(1, 1),
        chargeback(1, 1),
        deposit(1, 2, 100),
        withdrawal(1, 3, 50),
    ];
    let accounts = process_transactions(&txs);

    // Account is locked after chargeback, both deposit and withdrawal should be ignored
    assert_client_balance(&accounts, 1, 0, 0, true);
}

#[test]
fn test_dispute_then_withdrawal_reduces_available() {
    // Disputed funds are held, so a withdrawal can't touch them
    let txs = vec![deposit(1, 1, 100), deposit(1, 2, 50), dispute(1, 1), withdrawal(1, 3, 60)];
    let accounts = process_transactions(&txs);

    // Deposited 100+50=150, disputed 100 (moves to held), available=50;
    // withdrawal of 60 fails (only 50 available)
    assert_client_balance(&accounts, 1, 50, 100, false);
}

#[test]
fn integration_tests_test_duplicate_withdrawal_rejected() {
    let txs = vec![deposit(1, 1, 200), withdrawal(1, 2, 50), withdrawal(1, 2, 50)];
    let accounts = process_transactions(&txs);

    // Second withdrawal with same ID should be ignored: 200 - 50 = 150
    assert_client_balance(&accounts, 1, 150, 0, false);
}

#[test]
fn integration_tests_test_duplicate_deposit_rejected() {
    let txs = vec![deposit(1, 1, 100), deposit(1, 1, 100)];
    let accounts = process_transactions(&txs);

    // Second deposit with same ID should be ignored: only 100, not 200
    assert_client_balance(&accounts, 1, 100, 0, false);
}

#[test]
fn test_redispute_after_resolve() {
    // A transaction can be disputed again after being resolved
    let txs = vec![deposit(1, 5, 100), dispute(1, 5), resolve(1, 5), dispute(1, 5)];
    let accounts = process_transactions(&txs);

    // After dispute, resolve, dispute: funds held again
    assert_client_balance(&accounts, 1, 0, 100, false);
}

#[test]
fn integration_tests_test_cross_client_dispute_rejected() {
    // Client 2 cannot dispute Client 1's transaction
    let txs = vec![deposit(1, 1, 100), deposit(2, 2, 200), dispute(2, 1)];
    let accounts = process_transactions(&txs);

    assert_client_balance(&accounts, 1, 100, 0, false);
    assert_client_balance(&accounts, 2, 200, 0, false);
}

#[test]
fn test_resolve_without_dispute() {
    let txs = vec![deposit(1, 1, 100), resolve(1, 1)];
    let accounts = process_transactions(&txs);

    // Resolve should be ignored, funds remain available
    assert_client_balance(&accounts, 1, 100, 0, false);
}

#[test]
fn test_chargeback_without_dispute() {
    let txs = vec![deposit(1, 1, 100), chargeback(1, 1)];
    let accounts = process_transactions(&txs);

    // Chargeback should be ignored, account not locked
    assert_client_balance(&accounts, 1, 100, 0, false);
}

#[test]
fn test_dispute_nonexistent_transaction() {
    let txs = vec![deposit(1, 1, 100), dispute(1, 999)];
    let accounts = process_transactions(&txs);

    // Dispute on tx 999 (doesn't exist) should be ignored
    assert_client_balance(&accounts, 1, 100, 0, false);
}

#[test]
fn test_negative_amount_rejected() {
    let txs = vec![deposit(1, 1, 100), deposit(1, 2, -50), withdrawal(1, 3, -25)];
    let accounts = process_transactions(&txs);

    // Only first deposit should succeed
    assert_client_balance(&accounts, 1, 100, 0, false);
}

#[test]
fn test_zero_amount_rejected() {
    let txs = vec![deposit(1, 1, 100), deposit(1, 2, 0), withdrawal(1, 3, 0)];
    let accounts = process_transactions(&txs);

    // Only first deposit should succeed
    assert_client_balance(&accounts, 1, 100, 0, false);
}

#[test]
fn test_full_account_lifecycle() {
    // Complete lifecycle: deposit, dispute, resolve, withdrawal
    let txs = vec![
        deposit(1, 1, 100),
        deposit(1, 2, 50),
        dispute(1, 1),
        resolve(1, 1),
        withdrawal(1, 3, 75),
    ];
    let accounts = process_transactions(&txs);

    // After all operations: 100 + 50 - 75 = 75
    assert_client_balance(&accounts, 1, 75, 0, false);
}

#[test]
fn test_dispute_after_chargeback() {
    // A transaction cannot be disputed again after being charged back
    let txs = vec![deposit(1, 1, 100), dispute(1, 1), chargeback(1, 1), dispute(1, 1)];
    let accounts = process_transactions(&txs);

    // After chargeback, second dispute should be ignored; account locked with 0 balance
    assert_client_balance(&accounts, 1, 0, 0, true);
}

#[test]
fn test_complex_multi_client_scenario() {
    let txs = vec![
        deposit(1, 1, 1000),
        deposit(2, 2, 500),
        deposit(3, 3, 750),
        withdrawal(1, 4, 100),
        dispute(2, 2),
        deposit(1, 5, 200),
        withdrawal(3, 6, 50),
        resolve(2, 2),
        chargeback(3, 3),
        deposit(3, 7, 100),
    ];
    let accounts = process_transactions(&txs);

    // Client 1: 1000 - 100 + 200 = 1100
    assert_client_balance(&accounts, 1, 1100, 0, false);
    // Client 2: 500, disputed then resolved = 500
    assert_client_balance(&accounts, 2, 500, 0, false);
    // Client 3: 750 - 50 = 700; chargeback without dispute ignored; + 100 = 800
    assert_client_balance(&accounts, 3, 800, 0, false);
}

#[test]
fn test_invalid_amounts_table_driven() {
    // (name, transactions, expected balance of client 1 if an account exists)
    let cases: Vec<(&str, Vec<Transaction>, Option<i64>)> = vec![
        ("negative deposit", vec![deposit(1, 1, -100)], None),
        ("zero deposit", vec![deposit(1, 1, 0)], None),
        ("negative withdrawal", vec![deposit(1, 1, 100), withdrawal(1, 2, -50)], Some(100)),
        ("zero withdrawal", vec![deposit(1, 1, 100), withdrawal(1, 3, 0)], Some(100)),
    ];

    for (name, txs, expected_balance) in cases {
        let accounts = process_transactions(&txs);
        match expected_balance {
            Some(balance) => {
                let a = find_client(&accounts, 1);
                assert_eq!(a.available, balance, "Failed test: {}", name);
                assert_eq!(a.held, 0, "Failed test: {}", name);
                assert!(!a.locked, "Failed test: {}", name);
            },
            None => {
                assert!(!has_client(&accounts, 1), "Failed test: {}", name);
            },
        }
    }
}

#[test]
fn test_insufficient_funds_table_driven() {
    // Amounts in hundredths: 100.01 is written 100_01.
    // (name, deposit, withdrawal, expected balance)
    let cases: Vec<(&str, i64, i64, i64)> = vec![
        ("withdraw more than balance", 100_00, 150_00, 100_00),
        ("withdraw exact balance plus one cent", 100_00, 100_01, 100_00),
        ("small balance large withdrawal", 1, 100_00, 1),
    ];

    for (name, dep, wd, expected_balance) in cases {
        let txs = vec![deposit(1, 1, dep), withdrawal(1, 2, wd)];
        let accounts = process_transactions(&txs);
        let a = find_client(&accounts, 1);
        assert_eq!(a.available, expected_balance, "Failed test: {}", name);
        assert_eq!(a.held, 0, "Failed test: {}", name);
        assert!(!a.locked, "Failed test: {}", name);
    }
}

#[test]
fn test_dispute_workflows_table_driven() {
    // (name, transactions, expected available, expected held, expected locked)
    let cases: Vec<(&str, Vec<Transaction>, i64, i64, bool)> = vec![
        ("dispute and resolve", vec![deposit(1, 1, 100), dispute(1, 1), resolve(1, 1)], 100, 0,
            false),
        ("dispute and chargeback", vec![deposit(1, 1, 100), dispute(1, 1), chargeback(1, 1)], 0,
            0, true),
        ("dispute only", vec![deposit(1, 1, 100), dispute(1, 1)], 0, 100, false),
        ("dispute resolve dispute again", vec![
            deposit(1, 1, 100),
            dispute(1, 1),
            resolve(1, 1),
            dispute(1, 1),
        ], 0, 100, false),
    ];

    for (name, txs, available, held, locked) in cases {
        let accounts = process_transactions(&txs);
        let a = find_client(&accounts, 1);
        assert_eq!(a.available, available, "Failed test: {}", name);
        assert_eq!(a.held, held, "Failed test: {}", name);
        assert_eq!(a.locked, locked, "Failed test: {}", name);
    }
}

#[test]
fn test_precision_scenarios_table_driven() {
    // Amounts in ten-thousandths: 0.0001 is written 1, 100 is 100_0000.
    // (name, first amount, second amount, expected total)
    let cases: Vec<(&str, i64, i64, i64)> = vec![
        ("four decimal places", 1, 2, 3),
        ("whole numbers", 100_0000, 200_0000, 300_0000),
        ("mixed precision", 100_5000, 50_2500, 150_7500),
        ("very small amounts", 1, 1, 2),
    ];

    for (name, amount1, amount2, expected_total) in cases {
        let txs = vec![deposit(1, 1, amount1), deposit(1, 2, amount2)];
        let accounts = process_transactions(&txs);
        let a = find_client(&accounts, 1);
        assert_eq!(a.available + a.held, expected_total, "Failed test: {}", name);
    }
}

#[test]
fn test_locked_account_operations_table_driven() {
    // Base scenario: deposit 200, dispute it, charge it back (account
    // locked with 0 balance); then one more operation must be ignored.
    let cases: Vec<(&str, Transaction)> = vec![
        ("deposit after lock", deposit(1, 2, 100)),
        ("withdrawal after lock", withdrawal(1, 2, 50)),
    ];

    for (name, after_lock) in cases {
        let txs = vec![deposit(1, 1, 200), dispute(1, 1), chargeback(1, 1), after_lock];
        let accounts = process_transactions(&txs);
        let a = find_client(&accounts, 1);
        assert_eq!(a.available, 0, "Failed test: {}", name);
        assert_eq!(a.held, 0, "Failed test: {}", name);
        assert!(a.locked, "Failed test: {}", name);
    }
}

#[test]
fn test_multi_client_isolation_table_driven() {
    // (name, transactions, per-client (id, available, held) expectations)
    let cases: Vec<(&str, Vec<Transaction>, Vec<(u16, i64, i64)>)> = vec![
        ("three independent clients", vec![
            deposit(1, 1, 100),
            deposit(2, 2, 200),
            deposit(3, 3, 300),
        ], vec![(1, 100, 0), (2, 200, 0), (3, 300, 0)]),
        ("client 1 disputed, client 2 normal", vec![
            deposit(1, 1, 100),
            deposit(2, 2, 200),
            dispute(1, 1),
        ], vec![(1, 0, 100), (2, 200, 0)]),
        ("interleaved operations", vec![
            deposit(1, 1, 100),
            deposit(2, 2, 200),
            withdrawal(1, 3, 25),
            deposit(2, 4, 50),
            withdrawal(2, 5, 100),
        ], vec![(1, 75, 0), (2, 150, 0)]),
    ];

    for (name, txs, expectations) in cases {
        let accounts = process_transactions(&txs);
        for (client_id, available, held) in expectations {
            let a = find_client(&accounts, client_id);
            assert_eq!(a.available, available, "Failed test: {}", name);
            assert_eq!(a.held, held, "Failed test: {}", name);
            assert!(!a.locked, "Failed test: {}", name);
        }
    }
}

#[test]
fn test_duplicate_detection_table_driven() {
    // (name, transactions, expected balance of client 1)
    let cases: Vec<(&str, Vec<Transaction>, i64)> = vec![
        ("duplicate deposit same amount", vec![deposit(1, 1, 100), deposit(1, 1, 100)], 100),
        ("duplicate deposit different amount", vec![deposit(1, 1, 100), deposit(1, 1, 50)], 100),
        ("duplicate withdrawal", vec![
            deposit(1, 1, 200),
            withdrawal(1, 2, 50),
            withdrawal(1, 2, 50),
        ], 150),
        ("deposit and withdrawal same ID different clients", vec![
            deposit(1, 100, 100),
            deposit(2, 100, 200),
        ], 100),
    ];

    for (name, txs, expected_balance) in cases {
        let accounts = process_transactions(&txs);
        let a = find_client(&accounts, 1);
        assert_eq!(a.available, expected_balance, "Failed test: {}", name);
        assert_eq!(a.held, 0, "Failed test: {}", name);
        assert!(!a.locked, "Failed test: {}", name);
    }
}

#[test]
fn test_empty_batch_yields_no_accounts() {
    let txs: Vec<Transaction> = vec![];
    let accounts = process_transactions(&txs);
    assert_eq!(accounts.len(), 0);
}

#[test]
fn test_output_sorted_by_client_id() {
    let txs = vec![deposit(7, 1, 70), deposit(3, 2, 30), deposit(5, 3, 50), deposit(1, 4, 10)];
    let accounts = process_transactions(&txs);

    assert_eq!(accounts.len(), 4);
    let ids: Vec<u16> = accounts.iter().map(|a| a.client_id).collect();
    assert_eq!(ids, vec![1, 3, 5, 7]);
}

#[test]
fn test_failed_withdrawal_still_consumes_id() {
    // A withdrawal attempted with a valid amount marks its id as
    // processed even when it fails, so the id cannot be reused.
    let txs = vec![
        deposit(1, 1, 100),
        withdrawal(1, 2, 500),  // fails: insufficient funds
        deposit(1, 2, 50),      // rejected: id 2 already processed
        withdrawal(99, 5, 10),  // ignored: unknown client, id 5 still consumed
        deposit(1, 5, 25),      // rejected: id 5 already processed
    ];
    let accounts = process_transactions(&txs);

    assert_client_balance(&accounts, 1, 100, 0, false);
    assert!(!has_client(&accounts, 99));
}
