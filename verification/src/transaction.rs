use vstd::prelude::*;

verus! {

/// One record of the input stream. Deposits and withdrawals (the settlement
/// transactions) carry a client identifier, a transaction identifier and an
/// amount in ten-thousandths; the dispute-family transactions reference an
/// earlier settlement by its transaction identifier.
#[derive(Clone, Copy, Debug, PartialEq, Eq, Structural)]
pub enum Transaction {
    Deposit(u16, u32, i64),
    Withdrawal(u16, u32, i64),
    Dispute(u16, u32),
    Resolve(u16, u32),
    Chargeback(u16, u32),
}

#[derive(Clone, Copy, Debug, PartialEq, Eq, Structural)]
pub enum TransactionError {
    UnknownType,
}

impl Transaction {
    /// The transaction identifier carried by the record.
    pub open spec fn spec_tx_id(&self) -> u32 {
        match *self {
            Transaction::Deposit(_, tx, _) => tx,
            Transaction::Withdrawal(_, tx, _) => tx,
            Transaction::Dispute(_, tx) => tx,
            Transaction::Resolve(_, tx) => tx,
            Transaction::Chargeback(_, tx) => tx,
        }
    }

    /// The transaction identifier carried by the record.
    #[verifier::when_used_as_spec(spec_tx_id)]
    pub fn tx_id(&self) -> (r: u32)
        ensures
            r == self.spec_tx_id(),
    {
        match self {
            Transaction::Deposit(_, tx, _) => *tx,
            Transaction::Withdrawal(_, tx, _) => *tx,
            Transaction::Dispute(_, tx) => *tx,
            Transaction::Resolve(_, tx) => *tx,
            Transaction::Chargeback(_, tx) => *tx,
        }
    }

    /// The client identifier carried by the record.
    pub open spec fn client_id(self) -> u16 {
        match self {
            Transaction::Deposit(c, _, _) => c,
            Transaction::Withdrawal(c, _, _) => c,
            Transaction::Dispute(c, _) => c,
            Transaction::Resolve(c, _) => c,
            Transaction::Chargeback(c, _) => c,
        }
    }

    /// The settled amount of a settlement transaction; dispute-family
    /// transactions carry none.
    pub open spec fn amount(self) -> i64 {
        match self {
            Transaction::Deposit(_, _, a) => a,
            Transaction::Withdrawal(_, _, a) => a,
            _ => 0,
        }
    }

    /// Settlement transactions are the ones that move funds and are recorded
    /// in the transaction history.
    pub open spec fn is_settlement(self) -> bool {
        self is Deposit || self is Withdrawal
    }

    /// Amounts are never negative.
    pub open spec fn valid(self) -> bool {
        match self {
            Transaction::Deposit(_, _, a) => a >= 0,
            Transaction::Withdrawal(_, _, a) => a >= 0,
            _ => true,
        }
    }

    /// What `new` returns for each type tag.
    pub open spec fn spec_new(ttype: Seq<char>, client: u16, tx: u32, amount: i64) -> Result<
        Transaction,
        TransactionError,
    > {
        if ttype == "deposit"@ {
            Ok(Transaction::Deposit(client, tx, amount))
        } else if ttype == "withdrawal"@ {
            Ok(Transaction::Withdrawal(client, tx, amount))
        } else if ttype == "dispute"@ {
            Ok(Transaction::Dispute(client, tx))
        } else if ttype == "resolve"@ {
            Ok(Transaction::Resolve(client, tx))
        } else if ttype == "chargeback"@ {
            Ok(Transaction::Chargeback(client, tx))
        } else {
            Err(TransactionError::UnknownType)
        }
    }

    pub fn new(ttype: &str, client: u16, tx: u32, amount: i64) -> (r: Result<
        Transaction,
        TransactionError,
    >)
        ensures
            r == Self::spec_new(ttype@, client, tx, amount),
    {
        let t = ttype.to_owned();
        if t == "deposit".to_owned() {
            Ok(Transaction::Deposit(client, tx, amount))
        } else if t == "withdrawal".to_owned() {
            Ok(Transaction::Withdrawal(client, tx, amount))
        } else if t == "dispute".to_owned() {
            Ok(Transaction::Dispute(client, tx))
        } else if t == "resolve".to_owned() {
            Ok(Transaction::Resolve(client, tx))
        } else if t == "chargeback".to_owned() {
            Ok(Transaction::Chargeback(client, tx))
        } else {
            Err(TransactionError::UnknownType)
        }
    }
}

} // verus!
