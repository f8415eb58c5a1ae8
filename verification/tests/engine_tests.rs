use payments_engine::engine::{Engine, ExecutionError};
use payments_engine::transaction::Transaction;

#[test]
fn test_engine_creation() {
    let engine = Engine::new();
    assert!(engine.clients.is_empty());
}

#[test]
fn test_execution_deposit_and_withdraw() {
    let mut engine = Engine::new();
    let deposit = Transaction::Deposit(1, 100, 100000);
    assert!(engine.execute(deposit).is_ok());
    {
        let client1 = engine.client(1).unwrap();
        assert_eq!(client1.available, 100000);
        assert_eq!(client1.total, 100000);
        assert!(!client1.locked);
    }
    let withdrawal = Transaction::Withdrawal(1, 101, 50000);
    assert!(engine.execute(withdrawal).is_ok());
    {
        let client1 = engine.client(1).unwrap();
        assert_eq!(client1.available, 50000);
        assert_eq!(client1.total, 50000);
        assert!(!client1.locked);
    }
}

#[test]
fn test_execution_deposit_and_resolved() {
    let mut engine = Engine::new();
    let deposit = Transaction::Deposit(1, 100, 100000);
    assert!(engine.execute(deposit).is_ok());
    {
        let client1 = engine.client(1).unwrap();
        assert_eq!(client1.available, 100000);
        assert_eq!(client1.total, 100000);
        assert!(!client1.locked);
    }
    let dispute = Transaction::Dispute(1, 100);
    assert!(engine.execute(dispute).is_ok());
    {
        let client1 = engine.client(1).unwrap();
        assert_eq!(client1.available, 0);
        assert_eq!(client1.held, 100000);
        assert_eq!(client1.total, 100000);
        assert!(!client1.locked);
    }
    let resolve = Transaction::Resolve(1, 100);
    assert!(engine.execute(resolve).is_ok());
    {
        let client1 = engine.client(1).unwrap();
        assert_eq!(client1.available, 100000);
        assert_eq!(client1.held, 0);
        assert_eq!(client1.total, 100000);
        assert!(!client1.locked);
    }
}

#[test]
fn test_execution_deposit_and_chargeback() {
    let mut engine = Engine::new();
    let deposit = Transaction::Deposit(1, 100, 100000);
    assert!(engine.execute(deposit).is_ok());
    {
        let client1 = engine.client(1).unwrap();
        assert_eq!(client1.available, 100000);
        assert_eq!(client1.total, 100000);
        assert!(!client1.locked);
    }
    let dispute = Transaction::Dispute(1, 100);
    assert!(engine.execute(dispute).is_ok());
    {
        let client1 = engine.client(1).unwrap();
        assert_eq!(client1.available, 0);
        assert_eq!(client1.held, 100000);
        assert_eq!(client1.total, 100000);
        assert!(!client1.locked);
    }
    let resolve = Transaction::Chargeback(1, 100);
    assert!(engine.execute(resolve).is_ok());
    {
        let client1 = engine.client(1).unwrap();
        assert_eq!(client1.available, 0);
        assert_eq!(client1.held, 0);
        assert_eq!(client1.total, 0);
        assert!(client1.locked);
    }
    let deposit_after_lock = Transaction::Deposit(1, 101, 50000);
    assert_eq!(
        engine.execute(deposit_after_lock).err(),
        Some(ExecutionError::AccountLocked)
    );
    let withdraw_after_lock = Transaction::Withdrawal(1, 102, 50000);
    assert_eq!(
        engine.execute(withdraw_after_lock).err(),
        Some(ExecutionError::AccountLocked)
    );
}

#[test]
fn test_execution_non_disputed_transaction() {
    let mut engine = Engine::new();
    let deposit = Transaction::Deposit(1, 100, 100000);
    assert!(engine.execute(deposit).is_ok());
    let resolve = Transaction::Resolve(1, 100);
    assert_eq!(
        engine.execute(resolve).err(),
        Some(ExecutionError::NonDisputedTransaction)
    );
    let chargeback = Transaction::Chargeback(1, 100);
    assert_eq!(
        engine.execute(chargeback).err(),
        Some(ExecutionError::NonDisputedTransaction)
    );
}

#[test]
fn test_execution_dispute_ineligible_transaction() {
    let mut engine = Engine::new();
    assert!(engine.execute(Transaction::Deposit(1, 100, 100000)).is_ok());
    let withdrawal = Transaction::Withdrawal(1, 101, 100000);
    assert!(engine.execute(withdrawal).is_ok());
    let dispute = Transaction::Dispute(1, 101);
    assert_eq!(
        engine.execute(dispute).err(),
        Some(ExecutionError::IneligibleTransaction)
    );
}

#[test]
fn test_execution_already_disputed_transaction() {
    let mut engine = Engine::new();
    let deposit = Transaction::Deposit(1, 100, 100000);
    assert!(engine.execute(deposit).is_ok());
    let dispute = Transaction::Dispute(1, 100);
    assert!(engine.execute(dispute).is_ok());
    let dispute_again = Transaction::Dispute(1, 100);
    assert_eq!(
        engine.execute(dispute_again).err(),
        Some(ExecutionError::AlreadyDisputedTransaction)
    );
}

#[test]
fn test_execution_insufficient_funds() {
    let mut engine = Engine::new();
    assert!(engine.execute(Transaction::Deposit(1, 100, 50000)).is_ok());
    let withdrawal = Transaction::Withdrawal(1, 101, 50001);
    assert_eq!(
        engine.execute(withdrawal).err(),
        Some(ExecutionError::InsufficientFunds)
    );
    let client1 = engine.client(1).unwrap();
    assert_eq!(client1.available, 50000);
    assert_eq!(client1.held, 0);
    assert_eq!(client1.total, 50000);
    assert!(!client1.locked);
}

#[test]
fn test_execution_dispute_unknown_transaction() {
    let mut engine = Engine::new();
    assert!(engine.execute(Transaction::Deposit(1, 100, 100000)).is_ok());
    let dispute = Transaction::Dispute(1, 999);
    assert_eq!(
        engine.execute(dispute).err(),
        Some(ExecutionError::TransactionNotFound)
    );
}

#[test]
fn test_dispute_can_drive_available_negative() {
    let mut engine = Engine::new();
    assert!(engine.execute(Transaction::Deposit(1, 100, 100000)).is_ok());
    assert!(engine.execute(Transaction::Withdrawal(1, 101, 100000)).is_ok());
    assert!(engine.execute(Transaction::Dispute(1, 100)).is_ok());
    let client1 = engine.client(1).unwrap();
    assert_eq!(client1.available, -100000);
    assert_eq!(client1.held, 100000);
    assert_eq!(client1.total, 0);
    assert!(!client1.locked);
}

#[test]
fn test_redispute_after_resolve() {
    let mut engine = Engine::new();
    assert!(engine.execute(Transaction::Deposit(1, 100, 100000)).is_ok());
    assert!(engine.execute(Transaction::Dispute(1, 100)).is_ok());
    assert!(engine.execute(Transaction::Resolve(1, 100)).is_ok());
    assert!(engine.execute(Transaction::Dispute(1, 100)).is_ok());
    let client1 = engine.client(1).unwrap();
    assert_eq!(client1.available, 0);
    assert_eq!(client1.held, 100000);
    assert_eq!(client1.total, 100000);
}

#[test]
fn test_client_report_order() {
    let mut engine = Engine::new();
    assert!(engine.execute(Transaction::Deposit(3, 100, 30000)).is_ok());
    assert!(engine.execute(Transaction::Deposit(1, 101, 10000)).is_ok());
    assert!(engine.execute(Transaction::Deposit(2, 102, 20000)).is_ok());
    let report = engine.client_report();
    assert_eq!(report.len(), 3);
    assert_eq!(report[0].id, 1);
    assert_eq!(report[0].available, 10000);
    assert_eq!(report[1].id, 2);
    assert_eq!(report[1].available, 20000);
    assert_eq!(report[2].id, 3);
    assert_eq!(report[2].available, 30000);
}

#[test]
fn test_fits_detects_overflow() {
    let mut engine = Engine::new();
    let huge = Transaction::Deposit(1, 100, i64::MAX);
    assert!(engine.fits(&huge));
    assert!(engine.execute(huge).is_ok());
    let one_more = Transaction::Deposit(1, 101, 1);
    assert!(!engine.fits(&one_more));
}
