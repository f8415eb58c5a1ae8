use vstd::prelude::*;

use crate::client::AccountState;
use crate::engine::ExecutionError;
use crate::transaction::Transaction;

verus! {

/// The abstract state of the engine: the account ledger, the history of
/// settlement transactions keyed by transaction identifier, and the set of
/// transaction identifiers currently under dispute.
#[verifier::ext_equal]
pub struct LedgerState {
    pub accounts: Map<u16, AccountState>,
    pub log: Map<u32, Transaction>,
    pub disputed: Set<u32>,
}

impl LedgerState {
    /// The state a fresh engine starts in.
    pub open spec fn initial() -> LedgerState {
        LedgerState { accounts: Map::empty(), log: Map::empty(), disputed: Set::empty() }
    }

    /// The account under `id`, or the state a new account is born with.
    pub open spec fn account_or_new(self, id: u16) -> AccountState {
        if self.accounts.contains_key(id) {
            self.accounts[id]
        } else {
            AccountState::initial()
        }
    }

    /// The state after the account under `id` has been created if it was
    /// absent. Accounts are created lazily, the first time a transaction
    /// references their identifier, and survive even when that transaction
    /// is then rejected.
    pub open spec fn with_account(self, id: u16) -> LedgerState {
        LedgerState {
            accounts: self.accounts.insert(id, self.account_or_new(id)),
            log: self.log,
            disputed: self.disputed,
        }
    }

    /// Every account owns exactly its usable plus its frozen funds.
    pub open spec fn balanced(self) -> bool {
        forall|id: u16|
            self.accounts.contains_key(id) ==> (#[trigger] self.accounts[id]).balanced()
    }

    /// The transaction history holds settlement transactions with
    /// non-negative amounts, each stored under its own identifier.
    pub open spec fn log_ok(self) -> bool {
        forall|k: u32|
            self.log.contains_key(k) ==> {
                &&& (#[trigger] self.log[k]).is_settlement()
                &&& self.log[k].valid()
                &&& self.log[k].tx_id() == k
            }
    }

    pub open spec fn wf(self) -> bool {
        self.balanced() && self.log_ok()
    }
}

/// What the history lookup of a dispute-family transaction yields: the owning
/// client and the settled amount of the referenced deposit, or the error
/// explaining why the reference is no good.
pub open spec fn spec_fetch(log: Map<u32, Transaction>, tx_id: u32) -> Result<
    (u16, i64),
    ExecutionError,
> {
    if !log.contains_key(tx_id) {
        Err(ExecutionError::TransactionNotFound)
    } else {
        match log[tx_id] {
            Transaction::Deposit(client_id, _, amount) => Ok((client_id, amount)),
            _ => Err(ExecutionError::IneligibleTransaction),
        }
    }
}

/// The engine's transition function: the state after one transaction has been
/// applied, together with the outcome reported for it. A rejected transaction
/// leaves the ledger unchanged, except that the account it references may have
/// been created with zero balances.
pub open spec fn step(s: LedgerState, t: Transaction) -> (LedgerState, Result<
    (),
    ExecutionError,
>) {
    match t {
        Transaction::Deposit(client_id, tx_id, amount) => {
            let s1 = s.with_account(client_id);
            let a = s1.accounts[client_id];
            if a.locked {
                (s1, Err(ExecutionError::AccountLocked))
            } else {
                (
                    LedgerState {
                        accounts: s1.accounts.insert(
                            client_id,
                            AccountState {
                                available: a.available + amount,
                                held: a.held,
                                total: a.total + amount,
                                locked: a.locked,
                            },
                        ),
                        log: s1.log.insert(tx_id, t),
                        disputed: s1.disputed,
                    },
                    Ok(()),
                )
            }
        },
        Transaction::Withdrawal(client_id, tx_id, amount) => {
            let s1 = s.with_account(client_id);
            let a = s1.accounts[client_id];
            if a.locked {
                (s1, Err(ExecutionError::AccountLocked))
            } else if a.available >= amount {
                (
                    LedgerState {
                        accounts: s1.accounts.insert(
                            client_id,
                            AccountState {
                                available: a.available - amount,
                                held: a.held,
                                total: a.total - amount,
                                locked: a.locked,
                            },
                        ),
                        log: s1.log.insert(tx_id, t),
                        disputed: s1.disputed,
                    },
                    Ok(()),
                )
            } else {
                (s1, Err(ExecutionError::InsufficientFunds))
            }
        },
        Transaction::Dispute(_, tx_id) => {
            if s.disputed.contains(tx_id) {
                (s, Err(ExecutionError::AlreadyDisputedTransaction))
            } else {
                match spec_fetch(s.log, tx_id) {
                    Err(e) => (s, Err(e)),
                    Ok((owner, amount)) => {
                        let s1 = s.with_account(owner);
                        let a = s1.accounts[owner];
                        if a.locked {
                            (s1, Err(ExecutionError::AccountLocked))
                        } else {
                            (
                                LedgerState {
                                    accounts: s1.accounts.insert(
                                        owner,
                                        AccountState {
                                            available: a.available - amount,
                                            held: a.held + amount,
                                            total: a.total,
                                            locked: a.locked,
                                        },
                                    ),
                                    log: s1.log,
                                    disputed: s1.disputed.insert(tx_id),
                                },
                                Ok(()),
                            )
                        }
                    },
                }
            }
        },
        Transaction::Resolve(_, tx_id) => {
            if !s.disputed.contains(tx_id) {
                (s, Err(ExecutionError::NonDisputedTransaction))
            } else {
                match spec_fetch(s.log, tx_id) {
                    Err(e) => (s, Err(e)),
                    Ok((owner, amount)) => {
                        let s1 = s.with_account(owner);
                        let a = s1.accounts[owner];
                        if a.locked {
                            (s1, Err(ExecutionError::AccountLocked))
                        } else {
                            (
                                LedgerState {
                                    accounts: s1.accounts.insert(
                                        owner,
                                        AccountState {
                                            available: a.available + amount,
                                            held: a.held - amount,
                                            total: a.total,
                                            locked: a.locked,
                                        },
                                    ),
                                    log: s1.log,
                                    disputed: s1.disputed.remove(tx_id),
                                },
                                Ok(()),
                            )
                        }
                    },
                }
            }
        },
        Transaction::Chargeback(_, tx_id) => {
            if !s.disputed.contains(tx_id) {
                (s, Err(ExecutionError::NonDisputedTransaction))
            } else {
                match spec_fetch(s.log, tx_id) {
                    Err(e) => (s, Err(e)),
                    Ok((owner, amount)) => {
                        let s1 = s.with_account(owner);
                        let a = s1.accounts[owner];
                        if a.locked {
                            (s1, Err(ExecutionError::AccountLocked))
                        } else {
                            (
                                LedgerState {
                                    accounts: s1.accounts.insert(
                                        owner,
                                        AccountState {
                                            available: a.available,
                                            held: a.held - amount,
                                            total: a.total - amount,
                                            locked: true,
                                        },
                                    ),
                                    log: s1.log,
                                    disputed: s1.disputed.remove(tx_id),
                                },
                                Ok(()),
                            )
                        }
                    },
                }
            }
        },
    }
}

/// Whether an integer is representable as a machine `i64`.
pub open spec fn fits_i64(x: int) -> bool {
    i64::MIN <= x <= i64::MAX
}

/// Whether the balance arithmetic that `step` performs on success stays
/// within the machine representation. Rejected transactions perform none.
pub open spec fn step_fits(s: LedgerState, t: Transaction) -> bool {
    match t {
        Transaction::Deposit(client_id, _, amount) => {
            let a = s.account_or_new(client_id);
            !a.locked ==> fits_i64(a.available + amount) && fits_i64(a.total + amount)
        },
        Transaction::Withdrawal(client_id, _, amount) => {
            let a = s.account_or_new(client_id);
            !a.locked && a.available >= amount ==> fits_i64(a.available - amount) && fits_i64(
                a.total - amount,
            )
        },
        Transaction::Dispute(_, tx_id) => {
            !s.disputed.contains(tx_id) ==> match spec_fetch(s.log, tx_id) {
                Err(_) => true,
                Ok((owner, amount)) => {
                    let a = s.account_or_new(owner);
                    !a.locked ==> fits_i64(a.available - amount) && fits_i64(a.held + amount)
                },
            }
        },
        Transaction::Resolve(_, tx_id) => {
            s.disputed.contains(tx_id) ==> match spec_fetch(s.log, tx_id) {
                Err(_) => true,
                Ok((owner, amount)) => {
                    let a = s.account_or_new(owner);
                    !a.locked ==> fits_i64(a.available + amount) && fits_i64(a.held - amount)
                },
            }
        },
        Transaction::Chargeback(_, tx_id) => {
            s.disputed.contains(tx_id) ==> match spec_fetch(s.log, tx_id) {
                Err(_) => true,
                Ok((owner, amount)) => {
                    let a = s.account_or_new(owner);
                    !a.locked ==> fits_i64(a.held - amount) && fits_i64(a.total - amount)
                },
            }
        },
    }
}

} // verus!
