use payments_engine::transaction::Transaction;

#[test]
fn test_deposit_transaction_creation() {
    let amount: i64 = 100000; // 10.00
    let tx = Transaction::new("deposit", 1, 100, amount);
    assert!(tx.is_ok());
    match tx.unwrap() {
        Transaction::Deposit(client, tx_id, amt) => {
            assert_eq!(client, 1);
            assert_eq!(tx_id, 100);
            assert_eq!(amt, amount);
        }
        _ => panic!("Expected Deposit transaction"),
    }
}

#[test]
fn test_withdrawal_transaction_creation() {
    let amount: i64 = 50000; // 5.00
    let tx = Transaction::new("withdrawal", 2, 101, amount);
    assert!(tx.is_ok());
    match tx.unwrap() {
        Transaction::Withdrawal(client, tx_id, amt) => {
            assert_eq!(client, 2);
            assert_eq!(tx_id, 101);
            assert_eq!(amt, amount);
        }
        _ => panic!("Expected Withdrawal transaction"),
    }
}

#[test]
fn test_dispute_transaction_creation() {
    let tx = Transaction::new("dispute", 3, 102, 0);
    assert!(tx.is_ok());
    match tx.unwrap() {
        Transaction::Dispute(client, tx_id) => {
            assert_eq!(client, 3);
            assert_eq!(tx_id, 102);
        }
        _ => panic!("Expected Dispute transaction"),
    }
}

#[test]
fn test_resolve_transaction_creation() {
    let tx = Transaction::new("resolve", 4, 103, 0);
    assert!(tx.is_ok());
    match tx.unwrap() {
        Transaction::Resolve(client, tx_id) => {
            assert_eq!(client, 4);
            assert_eq!(tx_id, 103);
        }
        _ => panic!("Expected Resolve transaction"),
    }
}

#[test]
fn test_chargeback_transaction_creation() {
    let tx = Transaction::new("chargeback", 5, 104, 0);
    assert!(tx.is_ok());
    match tx.unwrap() {
        Transaction::Chargeback(client, tx_id) => {
            assert_eq!(client, 5);
            assert_eq!(tx_id, 104);
        }
        _ => panic!("Expected Chargeback transaction"),
    }
}

#[test]
fn test_unknown_transaction_type() {
    let amount: i64 = 100;
    let result = Transaction::new("unknown", 6, 105, amount);
    assert!(result.is_err());
}
