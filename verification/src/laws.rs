use vstd::prelude::*;

use crate::client::AccountState;
use crate::engine::ExecutionError;
use crate::model::{step, LedgerState};
use crate::transaction::Transaction;

verus! {

/// Applying any valid transaction preserves the ledger's well-formedness:
/// every account keeps `total == available + held`, and the history keeps
/// holding only valid settlements under their own identifiers.
pub proof fn lemma_step_preserves_wf(s: LedgerState, t: Transaction)
    requires
        s.wf(),
        t.valid(),
    ensures
        step(s, t).0.wf(),
{
    assert(s.account_or_new(t.client_id()).balanced());
    if t is Dispute || t is Resolve || t is Chargeback {
        let tx_id = t.tx_id();
        if s.log.contains_key(tx_id) {
            assert(s.account_or_new(s.log[tx_id].client_id()).balanced());
            assert(s.log[tx_id].valid());
        }
    }
}

/// An account already present is not changed by its lazy creation.
pub proof fn lemma_with_account_existing(s: LedgerState, client_id: u16)
    requires
        s.accounts.contains_key(client_id),
    ensures
        s.with_account(client_id) == s,
{
    assert(s.with_account(client_id).accounts =~= s.accounts);
    assert(s.with_account(client_id) =~= s);
}

/// A deposit to an unlocked (or not yet existing) account succeeds and
/// increases `available` and `total` by exactly the amount, leaving `held`,
/// the lock, and every other account untouched; the settlement is recorded.
pub proof fn lemma_deposit_unlocked(s: LedgerState, client_id: u16, tx_id: u32, amount: i64)
    requires
        !s.account_or_new(client_id).locked,
    ensures
        ({
            let t = Transaction::Deposit(client_id, tx_id, amount);
            let a = s.account_or_new(client_id);
            let (s2, r) = step(s, t);
            &&& r == Ok::<(), ExecutionError>(())
            &&& s2.accounts.contains_key(client_id)
            &&& s2.accounts[client_id] == (AccountState {
                available: a.available + amount,
                held: a.held,
                total: a.total + amount,
                locked: a.locked,
            })
            &&& forall|c: u16|
                c != client_id && s.accounts.contains_key(c) ==> s2.accounts.contains_key(c)
                    && s2.accounts[c] == s.accounts[c]
            &&& s2.log == s.log.insert(tx_id, t)
            &&& s2.disputed == s.disputed
        }),
{
}

/// A deposit to a locked account is rejected with `AccountLocked` and
/// changes nothing at all.
pub proof fn lemma_deposit_locked(s: LedgerState, client_id: u16, tx_id: u32, amount: i64)
    requires
        s.accounts.contains_key(client_id),
        s.accounts[client_id].locked,
    ensures
        step(s, Transaction::Deposit(client_id, tx_id, amount)) == (
            s,
            Err::<(), ExecutionError>(ExecutionError::AccountLocked),
        ),
{
    lemma_with_account_existing(s, client_id);
}

/// A withdrawal from an unlocked (or not yet existing) account succeeds
/// exactly when `available` covers the amount. On success `available` and
/// `total` fall by it; on failure the outcome is `InsufficientFunds` and no
/// balance changes.
pub proof fn lemma_withdrawal(s: LedgerState, client_id: u16, tx_id: u32, amount: i64)
    requires
        !s.account_or_new(client_id).locked,
    ensures
        ({
            let t = Transaction::Withdrawal(client_id, tx_id, amount);
            let a = s.account_or_new(client_id);
            let (s2, r) = step(s, t);
            &&& (r == Ok::<(), ExecutionError>(()) <==> a.available >= amount)
            &&& a.available >= amount ==> {
                &&& s2.accounts.contains_key(client_id)
                &&& s2.accounts[client_id] == (AccountState {
                    available: a.available - amount,
                    held: a.held,
                    total: a.total - amount,
                    locked: a.locked,
                })
                &&& s2.log == s.log.insert(tx_id, t)
            }
            &&& a.available < amount ==> r == Err::<(), ExecutionError>(
                ExecutionError::InsufficientFunds,
            ) && s2 == s.with_account(client_id)
            &&& forall|c: u16|
                c != client_id && s.accounts.contains_key(c) ==> s2.accounts.contains_key(c)
                    && s2.accounts[c] == s.accounts[c]
            &&& s2.disputed == s.disputed
        }),
{
}

/// Once an account is locked, every deposit and withdrawal on it is
/// rejected with `AccountLocked` and the ledger is unchanged. In particular
/// this holds of every settlement that follows a chargeback.
pub proof fn lemma_locked_rejects_settlements(s: LedgerState, t: Transaction)
    requires
        t.is_settlement(),
        s.accounts.contains_key(t.client_id()),
        s.accounts[t.client_id()].locked,
    ensures
        step(s, t) == (s, Err::<(), ExecutionError>(ExecutionError::AccountLocked)),
{
    lemma_with_account_existing(s, t.client_id());
}

/// Disputing a deposit and then resolving it, with no transaction in
/// between, returns the ledger to exactly its prior state: the hold is
/// reversed and the dispute is closed.
pub proof fn lemma_dispute_resolve_round_trip(s: LedgerState, c1: u16, c2: u16, tx_id: u32)
    requires
        !s.disputed.contains(tx_id),
        s.log.contains_key(tx_id),
        s.log[tx_id] is Deposit,
        s.accounts.contains_key(s.log[tx_id].client_id()),
        !s.accounts[s.log[tx_id].client_id()].locked,
    ensures
        ({
            let (s1, r1) = step(s, Transaction::Dispute(c1, tx_id));
            let (s2, r2) = step(s1, Transaction::Resolve(c2, tx_id));
            &&& r1 == Ok::<(), ExecutionError>(())
            &&& r2 == Ok::<(), ExecutionError>(())
            &&& s2 == s
        }),
{
    let owner = s.log[tx_id].client_id();
    lemma_with_account_existing(s, owner);
    let (s1, r1) = step(s, Transaction::Dispute(c1, tx_id));
    lemma_with_account_existing(s1, owner);
    let (s2, r2) = step(s1, Transaction::Resolve(c2, tx_id));
    assert(s2.accounts =~= s.accounts);
    assert(s2.disputed =~= s.disputed);
    assert(s2 =~= s);
}

/// Disputing a deposit holds its amount: `available` falls and `held` rises
/// by the settled amount, while `total` stays; the identifier joins the
/// dispute set.
pub proof fn lemma_dispute_holds_amount(s: LedgerState, c1: u16, tx_id: u32)
    requires
        !s.disputed.contains(tx_id),
        s.log.contains_key(tx_id),
        s.log[tx_id] is Deposit,
        !s.account_or_new(s.log[tx_id].client_id()).locked,
    ensures
        ({
            let owner = s.log[tx_id].client_id();
            let amount = s.log[tx_id].amount();
            let a = s.account_or_new(owner);
            let (s1, r) = step(s, Transaction::Dispute(c1, tx_id));
            &&& r == Ok::<(), ExecutionError>(())
            &&& s1.accounts.contains_key(owner)
            &&& s1.accounts[owner] == (AccountState {
                available: a.available - amount,
                held: a.held + amount,
                total: a.total,
                locked: a.locked,
            })
            &&& s1.log == s.log
            &&& s1.disputed == s.disputed.insert(tx_id)
        }),
{
}

/// Disputing a deposit and then charging it back locks the owning account,
/// removes the disputed amount from `held` and from `total` (leaving `held`
/// at its pre-dispute value and `available` down by the amount), and closes
/// the dispute.
pub proof fn lemma_dispute_chargeback(s: LedgerState, c1: u16, c2: u16, tx_id: u32)
    requires
        !s.disputed.contains(tx_id),
        s.log.contains_key(tx_id),
        s.log[tx_id] is Deposit,
        s.accounts.contains_key(s.log[tx_id].client_id()),
        !s.accounts[s.log[tx_id].client_id()].locked,
    ensures
        ({
            let owner = s.log[tx_id].client_id();
            let amount = s.log[tx_id].amount();
            let a = s.accounts[owner];
            let (s1, r1) = step(s, Transaction::Dispute(c1, tx_id));
            let (s2, r2) = step(s1, Transaction::Chargeback(c2, tx_id));
            &&& r1 == Ok::<(), ExecutionError>(())
            &&& r2 == Ok::<(), ExecutionError>(())
            &&& s2.accounts.contains_key(owner)
            &&& s2.accounts[owner] == (AccountState {
                available: a.available - amount,
                held: a.held,
                total: a.total - amount,
                locked: true,
            })
            &&& forall|c: u16|
                c != owner && s.accounts.contains_key(c) ==> s2.accounts.contains_key(c)
                    && s2.accounts[c] == s.accounts[c]
            &&& s2.log == s.log
            &&& s2.disputed == s.disputed.remove(tx_id)
        }),
{
    let owner = s.log[tx_id].client_id();
    lemma_with_account_existing(s, owner);
    let (s1, r1) = step(s, Transaction::Dispute(c1, tx_id));
    lemma_with_account_existing(s1, owner);
}

/// Disputing an identifier with no history entry fails with
/// `TransactionNotFound`, and the ledger is unchanged.
pub proof fn lemma_dispute_not_found(s: LedgerState, c1: u16, tx_id: u32)
    requires
        !s.disputed.contains(tx_id),
        !s.log.contains_key(tx_id),
    ensures
        step(s, Transaction::Dispute(c1, tx_id)) == (
            s,
            Err::<(), ExecutionError>(ExecutionError::TransactionNotFound),
        ),
{
}

/// Disputing an identifier that settled a withdrawal fails with
/// `IneligibleTransaction`: only deposits are disputable.
pub proof fn lemma_dispute_ineligible(s: LedgerState, c1: u16, tx_id: u32)
    requires
        !s.disputed.contains(tx_id),
        s.log.contains_key(tx_id),
        !(s.log[tx_id] is Deposit),
    ensures
        step(s, Transaction::Dispute(c1, tx_id)) == (
            s,
            Err::<(), ExecutionError>(ExecutionError::IneligibleTransaction),
        ),
{
}

/// Disputing an identifier already under dispute fails with
/// `AlreadyDisputedTransaction`. In particular the second of two disputes in
/// a row on the same identifier fails this way.
pub proof fn lemma_dispute_already_disputed(s: LedgerState, c1: u16, tx_id: u32)
    requires
        s.disputed.contains(tx_id),
    ensures
        step(s, Transaction::Dispute(c1, tx_id)) == (
            s,
            Err::<(), ExecutionError>(ExecutionError::AlreadyDisputedTransaction),
        ),
{
}

/// A resolve or chargeback on an identifier not currently under dispute
/// fails with `NonDisputedTransaction`, and the ledger is unchanged.
pub proof fn lemma_undisputed_cannot_close(s: LedgerState, t: Transaction)
    requires
        t is Resolve || t is Chargeback,
        !s.disputed.contains(t.tx_id()),
    ensures
        step(s, t) == (s, Err::<(), ExecutionError>(ExecutionError::NonDisputedTransaction)),
{
}

} // verus!

