use toy_payments_engine::event::{ApplyError, Transaction, TransactionType};
use toy_payments_engine::ledger::{process_transactions, Clients};

fn tx(kind: TransactionType, client: u16, tx_id: u32, amount: Option<i128>) -> Transaction {
    Transaction { transaction_type: kind, client, tx: tx_id, amount }
}

#[test]
fn test_deposit() {
    let mut clients = Clients::new();
    clients
        .process_transaction(&tx(TransactionType::Deposit, 0, 0, Some(100)))
        .unwrap();
    let client_info = clients.client_data.get(&0).unwrap();
    assert_eq!(client_info.available, 100);
    assert_eq!(client_info.held, 0);
    assert_eq!(client_info.locked, false);
}

#[test]
fn test_withdraw() {
    let mut clients = Clients::new();
    clients
        .process_transaction(&tx(TransactionType::Deposit, 0, 0, Some(100)))
        .unwrap();
    clients
        .process_transaction(&tx(TransactionType::Withdrawal, 0, 0, Some(30)))
        .unwrap();
    let client_info = clients.client_data.get(&0).unwrap();
    assert_eq!(client_info.available, 70);
    assert_eq!(client_info.held, 0);
    assert_eq!(client_info.locked, false);
}

#[test]
fn test_dispute() {
    let mut clients = Clients::new();
    clients
        .process_transaction(&tx(TransactionType::Deposit, 0, 0, Some(100)))
        .unwrap();
    clients
        .process_transaction(&tx(TransactionType::Dispute, 0, 0, None))
        .unwrap();
    let client_info = clients.client_data.get(&0).unwrap();
    assert_eq!(client_info.available, 0);
    assert_eq!(client_info.held, 100);
    assert!(client_info.deposits.get(&0).unwrap().disputed);
    assert_eq!(client_info.locked, false);
}

#[test]
fn test_resolve() {
    let mut clients = Clients::new();
    clients
        .process_transaction(&tx(TransactionType::Deposit, 0, 0, Some(100)))
        .unwrap();
    clients
        .process_transaction(&tx(TransactionType::Dispute, 0, 0, None))
        .unwrap();
    clients
        .process_transaction(&tx(TransactionType::Resolve, 0, 0, None))
        .unwrap();
    let client_info = clients.client_data.get(&0).unwrap();
    assert_eq!(client_info.available, 100);
    assert_eq!(client_info.held, 0);
    assert!(!client_info.deposits.get(&0).unwrap().disputed);
    assert_eq!(client_info.locked, false);
}

#[test]
fn test_chargeback() {
    let mut clients = Clients::new();
    clients
        .process_transaction(&tx(TransactionType::Deposit, 0, 0, Some(100)))
        .unwrap();
    clients
        .process_transaction(&tx(TransactionType::Dispute, 0, 0, None))
        .unwrap();
    clients
        .process_transaction(&tx(TransactionType::Chargeback, 0, 0, None))
        .unwrap();
    let client_info = clients.client_data.get(&0).unwrap();
    assert_eq!(client_info.available, 0);
    assert_eq!(client_info.held, 0);
    assert!(!client_info.deposits.get(&0).unwrap().disputed);
    assert!(client_info.locked);
}

// Amounts below are in units of 1/10000, so 10000 stands for 1.0.

#[test]
fn deposit_then_withdraw_summary() {
    let transactions = vec![
        tx(TransactionType::Deposit, 1, 1, Some(10000)),
        tx(TransactionType::Withdrawal, 1, 2, Some(5000)),
    ];
    let clients = process_transactions(&transactions);
    let rows = clients.snapshot();
    assert_eq!(rows.len(), 1);
    assert_eq!(rows[0].client, 1);
    assert_eq!(rows[0].available, 5000);
    assert_eq!(rows[0].held, 0);
    assert_eq!(rows[0].total, 5000);
    assert_eq!(rows[0].locked, false);
}

#[test]
fn dispute_freezes_deposit() {
    let transactions = vec![
        tx(TransactionType::Deposit, 1, 1, Some(1000000)),
        tx(TransactionType::Dispute, 1, 1, None),
    ];
    let clients = process_transactions(&transactions);
    let rows = clients.snapshot();
    assert_eq!(rows.len(), 1);
    assert_eq!(rows[0].available, 0);
    assert_eq!(rows[0].held, 1000000);
    assert_eq!(rows[0].total, 1000000);
    assert_eq!(rows[0].locked, false);
}

#[test]
fn chargeback_locks_account() {
    let mut clients = Clients::new();
    clients
        .process_transaction(&tx(TransactionType::Deposit, 1, 1, Some(1000000)))
        .unwrap();
    clients
        .process_transaction(&tx(TransactionType::Dispute, 1, 1, None))
        .unwrap();
    clients
        .process_transaction(&tx(TransactionType::Chargeback, 1, 1, None))
        .unwrap();
    let rows = clients.snapshot();
    assert_eq!(rows.len(), 1);
    assert_eq!(rows[0].available, 0);
    assert_eq!(rows[0].held, 0);
    assert_eq!(rows[0].total, 0);
    assert!(rows[0].locked);
    // Any further event for that client is rejected and changes nothing.
    let rejected = clients.process_transaction(&tx(TransactionType::Deposit, 1, 2, Some(50000)));
    assert_eq!(rejected, Err(ApplyError::AccountLocked));
    let rows = clients.snapshot();
    assert_eq!(rows.len(), 1);
    assert_eq!(rows[0].available, 0);
    assert_eq!(rows[0].held, 0);
    assert_eq!(rows[0].total, 0);
    assert!(rows[0].locked);
}

#[test]
fn withdrawal_unknown_client_rejected() {
    let mut clients = Clients::new();
    let rejected = clients.process_transaction(&tx(TransactionType::Withdrawal, 9, 1, Some(100)));
    assert_eq!(rejected, Err(ApplyError::UnknownClient));
    // No account was created, so no summary row is emitted.
    assert_eq!(clients.snapshot().len(), 0);
}

#[test]
fn dispute_resolve_round_trip_restores_balances() {
    let mut clients = Clients::new();
    clients
        .process_transaction(&tx(TransactionType::Deposit, 3, 1, Some(100)))
        .unwrap();
    clients
        .process_transaction(&tx(TransactionType::Withdrawal, 3, 2, Some(40)))
        .unwrap();
    clients
        .process_transaction(&tx(TransactionType::Dispute, 3, 1, None))
        .unwrap();
    {
        // The disputed funds are frozen even though partly spent: available
        // legitimately goes negative, and total still equals available + held.
        let info = clients.client_data.get(&3).unwrap();
        assert_eq!(info.available, -40);
        assert_eq!(info.held, 100);
        let rows = clients.snapshot();
        assert_eq!(rows[0].total, 60);
        assert_eq!(rows[0].total, rows[0].available + rows[0].held);
        assert!(rows[0].held >= 0);
    }
    clients
        .process_transaction(&tx(TransactionType::Resolve, 3, 1, None))
        .unwrap();
    let info = clients.client_data.get(&3).unwrap();
    assert_eq!(info.available, 60);
    assert_eq!(info.held, 0);
    assert!(!info.deposits.get(&1).unwrap().disputed);
    assert!(!info.locked);
}

#[test]
fn missing_amount_rejected() {
    let mut clients = Clients::new();
    let rejected = clients.process_transaction(&tx(TransactionType::Deposit, 1, 1, None));
    assert_eq!(rejected, Err(ApplyError::MissingAmount));
    clients
        .process_transaction(&tx(TransactionType::Deposit, 1, 1, Some(100)))
        .unwrap();
    let rejected = clients.process_transaction(&tx(TransactionType::Withdrawal, 1, 2, None));
    assert_eq!(rejected, Err(ApplyError::MissingAmount));
    assert_eq!(clients.client_data.get(&1).unwrap().available, 100);
}

#[test]
fn duplicate_deposit_rejected() {
    let mut clients = Clients::new();
    clients
        .process_transaction(&tx(TransactionType::Deposit, 1, 1, Some(100)))
        .unwrap();
    let rejected = clients.process_transaction(&tx(TransactionType::Deposit, 1, 1, Some(100)));
    assert_eq!(rejected, Err(ApplyError::DuplicateTransaction));
    // The amount was not double-counted.
    assert_eq!(clients.client_data.get(&1).unwrap().available, 100);
}

#[test]
fn insufficient_funds_rejected() {
    let mut clients = Clients::new();
    clients
        .process_transaction(&tx(TransactionType::Deposit, 1, 1, Some(50)))
        .unwrap();
    let rejected = clients.process_transaction(&tx(TransactionType::Withdrawal, 1, 2, Some(100)));
    assert_eq!(rejected, Err(ApplyError::InsufficientFunds));
    assert_eq!(clients.client_data.get(&1).unwrap().available, 50);
}

#[test]
fn unknown_transaction_rejected() {
    let mut clients = Clients::new();
    clients
        .process_transaction(&tx(TransactionType::Deposit, 1, 1, Some(100)))
        .unwrap();
    let rejected = clients.process_transaction(&tx(TransactionType::Dispute, 1, 2, None));
    assert_eq!(rejected, Err(ApplyError::UnknownTransaction));
    assert_eq!(clients.client_data.get(&1).unwrap().held, 0);
}

#[test]
fn already_disputed_rejected() {
    let mut clients = Clients::new();
    clients
        .process_transaction(&tx(TransactionType::Deposit, 1, 1, Some(100)))
        .unwrap();
    clients
        .process_transaction(&tx(TransactionType::Dispute, 1, 1, None))
        .unwrap();
    let rejected = clients.process_transaction(&tx(TransactionType::Dispute, 1, 1, None));
    assert_eq!(rejected, Err(ApplyError::AlreadyDisputed));
    assert_eq!(clients.client_data.get(&1).unwrap().held, 100);
}

#[test]
fn not_disputed_rejected() {
    let mut clients = Clients::new();
    clients
        .process_transaction(&tx(TransactionType::Deposit, 1, 1, Some(100)))
        .unwrap();
    let rejected = clients.process_transaction(&tx(TransactionType::Resolve, 1, 1, None));
    assert_eq!(rejected, Err(ApplyError::NotDisputed));
    let rejected = clients.process_transaction(&tx(TransactionType::Chargeback, 1, 1, None));
    assert_eq!(rejected, Err(ApplyError::NotDisputed));
    assert_eq!(clients.client_data.get(&1).unwrap().available, 100);
    assert!(!clients.client_data.get(&1).unwrap().locked);
}

#[test]
fn amount_overflow_rejected() {
    let mut clients = Clients::new();
    clients
        .process_transaction(&tx(TransactionType::Deposit, 1, 1, Some(i128::MAX)))
        .unwrap();
    let rejected = clients.process_transaction(&tx(TransactionType::Deposit, 1, 2, Some(1)));
    assert_eq!(rejected, Err(ApplyError::AmountOverflow));
    assert_eq!(clients.client_data.get(&1).unwrap().available, i128::MAX);
}

#[test]
fn process_transactions_runs_whole_stream() {
    let transactions = vec![
        tx(TransactionType::Deposit, 1, 1, Some(10000)),
        tx(TransactionType::Deposit, 2, 2, Some(20000)),
        tx(TransactionType::Deposit, 1, 3, Some(20000)),
        tx(TransactionType::Withdrawal, 1, 4, Some(15000)),
        // A rejected event in the middle is ignored and changes nothing.
        tx(TransactionType::Withdrawal, 2, 5, Some(99999999)),
    ];
    let clients = process_transactions(&transactions);
    let rows = clients.snapshot();
    assert_eq!(rows.len(), 2);
    assert_eq!(rows[0].client, 1);
    assert_eq!(rows[0].available, 15000);
    assert_eq!(rows[0].held, 0);
    assert_eq!(rows[0].total, 15000);
    assert_eq!(rows[0].locked, false);
    assert_eq!(rows[1].client, 2);
    assert_eq!(rows[1].available, 20000);
    assert_eq!(rows[1].total, 20000);
}
