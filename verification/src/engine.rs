use vstd::prelude::*;

use crate::client::{AccountState, Client};
use crate::model::{spec_fetch, step, step_fits, LedgerState};
use crate::transaction::Transaction;

verus! {

/// Why the engine rejected a transaction. A rejected transaction never
/// mutates a balance; at most the account it references has been created.
#[derive(Debug, PartialEq, Eq, Structural)]
pub enum ExecutionError {
    InsufficientFunds,
    AccountLocked,
    TransactionNotFound,
    IneligibleTransaction,
    NonDisputedTransaction,
    AlreadyDisputedTransaction,
}

/// The account ledger as a mapping: each stored client under its identifier.
pub open spec fn accounts_of(s: Seq<Client>) -> Map<u16, AccountState>
    decreases s.len(),
{
    if s.len() == 0 {
        Map::empty()
    } else {
        accounts_of(s.drop_last()).insert(s.last().id, s.last()@)
    }
}

/// The transaction history as a mapping: each logged settlement under its
/// transaction identifier.
pub open spec fn log_of(s: Seq<Transaction>) -> Map<u32, Transaction>
    decreases s.len(),
{
    if s.len() == 0 {
        Map::empty()
    } else {
        log_of(s.drop_last()).insert(s.last().tx_id(), s.last())
    }
}

/// The set of transaction identifiers currently under dispute.
pub open spec fn disputed_of(s: Seq<u32>) -> Set<u32>
    decreases s.len(),
{
    if s.len() == 0 {
        Set::empty()
    } else {
        disputed_of(s.drop_last()).insert(s.last())
    }
}

/// Client identifiers strictly ascending: unique keys and the report order.
pub open spec fn clients_sorted(s: Seq<Client>) -> bool {
    forall|i: int, j: int| 0 <= i < j < s.len() ==> s[i].id < s[j].id
}

pub open spec fn tx_ids_unique(s: Seq<Transaction>) -> bool {
    forall|i: int, j: int| 0 <= i < j < s.len() ==> s[i].tx_id() != s[j].tx_id()
}

pub open spec fn disputed_unique(s: Seq<u32>) -> bool {
    forall|i: int, j: int| 0 <= i < j < s.len() ==> s[i] != s[j]
}

/// The transaction execution engine: the account ledger, the append-only
/// history of settlements, and the set of open disputes.
pub struct Engine {
    pub clients: Vec<Client>,
    pub transaction_log: Vec<Transaction>,
    pub disputed_transactions: Vec<u32>,
}

impl View for Engine {
    type V = LedgerState;

    open spec fn view(&self) -> LedgerState {
        LedgerState {
            accounts: accounts_of(self.clients@),
            log: log_of(self.transaction_log@),
            disputed: disputed_of(self.disputed_transactions@),
        }
    }
}

impl Engine {
    /// Well-formedness: the stores have unique keys, the ledger is kept in
    /// ascending identifier order, every account is balanced, and the history
    /// holds only valid settlements.
    pub open spec fn wf(self) -> bool {
        &&& clients_sorted(self.clients@)
        &&& forall|i: int|
            0 <= i < self.clients@.len() ==> (#[trigger] self.clients@[i])@.balanced()
        &&& tx_ids_unique(self.transaction_log@)
        &&& forall|i: int|
            0 <= i < self.transaction_log@.len() ==> {
                &&& (#[trigger] self.transaction_log@[i]).is_settlement()
                &&& self.transaction_log@[i].valid()
            }
        &&& disputed_unique(self.disputed_transactions@)
    }
}

proof fn lemma_accounts_of_props(s: Seq<Client>)
    requires
        forall|i: int, j: int| 0 <= i < j < s.len() ==> s[i].id != s[j].id,
    ensures
        forall|id: u16|
            #[trigger] accounts_of(s).contains_key(id) <==> exists|i: int|
                0 <= i < s.len() && s[i].id == id,
        forall|i: int|
            0 <= i < s.len() ==> accounts_of(s).contains_key(#[trigger] s[i].id)
                && accounts_of(s)[s[i].id] == s[i]@,
    decreases s.len(),
{
    if s.len() > 0 {
        let d = s.drop_last();
        assert(forall|i: int| 0 <= i < d.len() ==> d[i] == s[i]);
        lemma_accounts_of_props(d);
        assert forall|id: u16| #[trigger] accounts_of(s).contains_key(id) implies exists|i: int|
            0 <= i < s.len() && s[i].id == id by {
            if id == s.last().id {
                assert(s[s.len() - 1].id == id);
            } else {
                assert(accounts_of(s) == accounts_of(d).insert(s.last().id, s.last()@));
                assert(accounts_of(d).contains_key(id));
                let i = choose|i: int| 0 <= i < d.len() && d[i].id == id;
                assert(s[i].id == id);
            }
        }
        assert forall|id: u16| (exists|i: int| 0 <= i < s.len() && s[i].id == id) implies
            #[trigger] accounts_of(s).contains_key(id) by {
            let i = choose|i: int| 0 <= i < s.len() && s[i].id == id;
            if i < s.len() - 1 {
                assert(d[i].id == id);
            }
        }
        assert forall|i: int| 0 <= i < s.len() implies accounts_of(s).contains_key(
            #[trigger] s[i].id,
        ) && accounts_of(s)[s[i].id] == s[i]@ by {
            if i < s.len() - 1 {
                assert(d[i] == s[i]);
                assert(s[i].id != s[s.len() - 1].id);
            }
        }
    }
}

proof fn lemma_accounts_of_update(s: Seq<Client>, i: int, c: Client)
    requires
        forall|x: int, y: int| 0 <= x < y < s.len() ==> s[x].id != s[y].id,
        0 <= i < s.len(),
        c.id == s[i].id,
    ensures
        accounts_of(s.update(i, c)) == accounts_of(s).insert(c.id, c@),
    decreases s.len(),
{
    let u = s.update(i, c);
    let d = s.drop_last();
    if i == s.len() - 1 {
        assert(u.drop_last() =~= d);
        assert(u.last() == c);
        assert(accounts_of(s).insert(c.id, c@) =~= accounts_of(d).insert(c.id, c@));
    } else {
        assert(u.drop_last() =~= d.update(i, c));
        assert(u.last() == s.last());
        assert(forall|x: int| 0 <= x < d.len() ==> d[x] == s[x]);
        lemma_accounts_of_update(d, i, c);
        assert(c.id != s.last().id);
        assert(accounts_of(d).insert(c.id, c@).insert(s.last().id, s.last()@) =~= accounts_of(
            d,
        ).insert(s.last().id, s.last()@).insert(c.id, c@));
    }
}

proof fn lemma_accounts_of_insert(s: Seq<Client>, p: int, c: Client)
    requires
        0 <= p <= s.len(),
        forall|i: int| 0 <= i < s.len() ==> s[i].id != c.id,
    ensures
        accounts_of(s.insert(p, c)) == accounts_of(s).insert(c.id, c@),
    decreases s.len(),
{
    let u = s.insert(p, c);
    s.insert_ensures(p, c);
    if p == s.len() {
        assert(u =~= s.push(c));
        assert(s.push(c).drop_last() =~= s);
    } else {
        let d = s.drop_last();
        assert(u.last() == s.last());
        assert(u.drop_last() =~= d.insert(p, c));
        assert(forall|x: int| 0 <= x < d.len() ==> d[x] == s[x]);
        lemma_accounts_of_insert(d, p, c);
        assert(c.id != s.last().id);
        assert(accounts_of(d).insert(c.id, c@).insert(s.last().id, s.last()@) =~= accounts_of(
            d,
        ).insert(s.last().id, s.last()@).insert(c.id, c@));
    }
}

proof fn lemma_log_of_props(s: Seq<Transaction>)
    requires
        tx_ids_unique(s),
    ensures
        forall|k: u32|
            #[trigger] log_of(s).contains_key(k) <==> exists|i: int|
                0 <= i < s.len() && s[i].tx_id() == k,
        forall|i: int|
            0 <= i < s.len() ==> log_of(s).contains_key((#[trigger] s[i]).tx_id())
                && log_of(s)[s[i].tx_id()] == s[i],
    decreases s.len(),
{
    if s.len() > 0 {
        let d = s.drop_last();
        assert(forall|i: int| 0 <= i < d.len() ==> d[i] == s[i]);
        lemma_log_of_props(d);
        assert forall|k: u32| #[trigger] log_of(s).contains_key(k) implies exists|i: int|
            0 <= i < s.len() && s[i].tx_id() == k by {
            if k == s.last().tx_id() {
                assert(s[s.len() - 1].tx_id() == k);
            } else {
                assert(log_of(s) == log_of(d).insert(s.last().tx_id(), s.last()));
                assert(log_of(d).contains_key(k));
                let i = choose|i: int| 0 <= i < d.len() && d[i].tx_id() == k;
                assert(s[i].tx_id() == k);
            }
        }
        assert forall|k: u32| (exists|i: int| 0 <= i < s.len() && s[i].tx_id() == k) implies
            #[trigger] log_of(s).contains_key(k) by {
            let i = choose|i: int| 0 <= i < s.len() && s[i].tx_id() == k;
            if i < s.len() - 1 {
                assert(d[i].tx_id() == k);
            }
        }
        assert forall|i: int| 0 <= i < s.len() implies log_of(s).contains_key(
            (#[trigger] s[i]).tx_id(),
        ) && log_of(s)[s[i].tx_id()] == s[i] by {
            if i < s.len() - 1 {
                assert(d[i] == s[i]);
                assert(s[i].tx_id() != s[s.len() - 1].tx_id());
            }
        }
    }
}

proof fn lemma_log_of_update(s: Seq<Transaction>, i: int, t: Transaction)
    requires
        tx_ids_unique(s),
        0 <= i < s.len(),
        t.tx_id() == s[i].tx_id(),
    ensures
        log_of(s.update(i, t)) == log_of(s).insert(t.tx_id(), t),
    decreases s.len(),
{
    let u = s.update(i, t);
    let d = s.drop_last();
    if i == s.len() - 1 {
        assert(u.drop_last() =~= d);
        assert(u.last() == t);
        assert(log_of(s).insert(t.tx_id(), t) =~= log_of(d).insert(t.tx_id(), t));
    } else {
        assert(u.drop_last() =~= d.update(i, t));
        assert(u.last() == s.last());
        assert(forall|x: int| 0 <= x < d.len() ==> d[x] == s[x]);
        lemma_log_of_update(d, i, t);
        assert(t.tx_id() != s.last().tx_id());
        assert(log_of(d).insert(t.tx_id(), t).insert(s.last().tx_id(), s.last()) =~= log_of(
            d,
        ).insert(s.last().tx_id(), s.last()).insert(t.tx_id(), t));
    }
}

proof fn lemma_disputed_of_props(s: Seq<u32>)
    ensures
        forall|k: u32|
            #[trigger] disputed_of(s).contains(k) <==> exists|i: int| 0 <= i < s.len() && s[i] == k,
    decreases s.len(),
{
    if s.len() > 0 {
        let d = s.drop_last();
        assert(forall|i: int| 0 <= i < d.len() ==> d[i] == s[i]);
        lemma_disputed_of_props(d);
        assert forall|k: u32| #[trigger] disputed_of(s).contains(k) implies exists|i: int|
            0 <= i < s.len() && s[i] == k by {
            if k == s.last() {
                assert(s[s.len() - 1] == k);
            } else {
                assert(disputed_of(s) == disputed_of(d).insert(s.last()));
                assert(disputed_of(d).contains(k));
                let i = choose|i: int| 0 <= i < d.len() && d[i] == k;
                assert(s[i] == k);
            }
        }
        assert forall|k: u32| (exists|i: int| 0 <= i < s.len() && s[i] == k) implies
            #[trigger] disputed_of(s).contains(k) by {
            let i = choose|i: int| 0 <= i < s.len() && s[i] == k;
            assert(disputed_of(s) == disputed_of(d).insert(s.last()));
            if i < s.len() - 1 {
                assert(d[i] == k);
                assert(disputed_of(d).contains(k));
            }
        }
    }
}

proof fn lemma_disputed_of_remove(s: Seq<u32>, i: int)
    requires
        disputed_unique(s),
        0 <= i < s.len(),
    ensures
        disputed_of(s.remove(i)) == disputed_of(s).remove(s[i]),
    decreases s.len(),
{
    let u = s.remove(i);
    let d = s.drop_last();
    s.remove_ensures(i);
    if i == s.len() - 1 {
        assert(u =~= d);
        lemma_disputed_of_props(d);
        assert(forall|x: int| 0 <= x < d.len() ==> d[x] == s[x]);
        assert(!disputed_of(d).contains(s[i]));
        assert(disputed_of(d).insert(s[i]).remove(s[i]) =~= disputed_of(d));
    } else {
        assert(u.last() == s.last());
        assert(u.drop_last() =~= d.remove(i));
        assert(forall|x: int| 0 <= x < d.len() ==> d[x] == s[x]);
        lemma_disputed_of_remove(d, i);
        assert(s[i] != s.last());
        assert(disputed_of(d).remove(s[i]).insert(s.last()) =~= disputed_of(d).insert(
            s.last(),
        ).remove(s[i]));
    }
}

impl Engine {
    pub fn new() -> (e: Engine)
        ensures
            e@ == LedgerState::initial(),
            e.wf(),
    {
        Engine { clients: Vec::new(), transaction_log: Vec::new(), disputed_transactions: Vec::new() }
    }

    /// The first position whose client identifier is not below `client_id`:
    /// where that client is stored, or where it would be inserted.
    fn find_insert_position(&self, client_id: u16) -> (p: usize)
        requires
            clients_sorted(self.clients@),
        ensures
            p <= self.clients@.len(),
            forall|j: int| 0 <= j < p ==> self.clients@[j].id < client_id,
            forall|j: int| p <= j < self.clients@.len() ==> self.clients@[j].id >= client_id,
    {
        let n = self.clients.len();
        let mut i: usize = 0;
        while i < n && self.clients[i].id < client_id
            invariant
                n == self.clients@.len(),
                i <= n,
                clients_sorted(self.clients@),
                forall|j: int| 0 <= j < i ==> self.clients@[j].id < client_id,
            decreases n - i,
        {
            i += 1;
        }
        proof {
            assert forall|j: int| i <= j < self.clients@.len() implies self.clients@[j].id
                >= client_id by {
                if j > i {
                    assert(self.clients@[i as int].id < self.clients@[j].id);
                }
            }
        }
        i
    }

    /// Look up the account under `client_id`, creating it with zero balances
    /// if no transaction has referenced this identifier before, and return
    /// its position in the ledger.
    fn fetch_or_create_client(&mut self, client_id: u16) -> (idx: usize)
        requires
            old(self).wf(),
        ensures
            final(self).wf(),
            idx < final(self).clients@.len(),
            final(self).clients@[idx as int].id == client_id,
            final(self).clients@[idx as int]@ == old(self)@.account_or_new(client_id),
            final(self)@ == old(self)@.with_account(client_id),
            final(self).transaction_log == old(self).transaction_log,
            final(self).disputed_transactions == old(self).disputed_transactions,
    {
        let p = self.find_insert_position(client_id);
        let n = self.clients.len();
        if p < n && self.clients[p].id == client_id {
            proof {
                lemma_accounts_of_props(self.clients@);
                assert(accounts_of(self.clients@)[client_id] == self.clients@[p as int]@);
                assert(self@.accounts.insert(client_id, self@.account_or_new(client_id))
                    =~= self@.accounts);
            }
            return p;
        }
        let c = Client::new(client_id);
        self.clients.insert(p, c);
        proof {
            let s = old(self).clients@;
            s.insert_ensures(p as int, c);
            assert(self.clients@ == s.insert(p as int, c));
            assert(forall|j: int| 0 <= j < s.len() ==> s[j].id != client_id);
            lemma_accounts_of_props(s);
            assert(!accounts_of(s).contains_key(client_id));
            lemma_accounts_of_insert(s, p as int, c);
            assert forall|x: int, y: int|
                0 <= x < y < self.clients@.len() implies self.clients@[x].id
                < self.clients@[y].id by {
                let u = self.clients@;
                if y < p {
                    assert(u[x] == s[x] && u[y] == s[y]);
                } else if x < p && y == p {
                    assert(u[x] == s[x]);
                } else if x < p && y > p {
                    assert(u[x] == s[x] && u[y] == s[y - 1]);
                    assert(s[x].id < s[y - 1].id || x == y - 1);
                } else if x == p && y > p {
                    assert(u[y] == s[y - 1]);
                    assert(s[y - 1].id >= client_id && s[y - 1].id != client_id);
                } else {
                    assert(u[x] == s[x - 1] && u[y] == s[y - 1]);
                }
            }
        }
        p
    }

    /// Overwrite the stored account at position `i` with `c`, which must keep
    /// the identifier and the accounting invariant.
    fn set_client(&mut self, i: usize, c: Client)
        requires
            old(self).wf(),
            i < old(self).clients@.len(),
            c.id == old(self).clients@[i as int].id,
            c@.balanced(),
        ensures
            final(self).wf(),
            final(self)@ == (LedgerState {
                accounts: old(self)@.accounts.insert(c.id, c@),
                log: old(self)@.log,
                disputed: old(self)@.disputed,
            }),
            final(self).transaction_log == old(self).transaction_log,
            final(self).disputed_transactions == old(self).disputed_transactions,
    {
        self.clients[i] = c;
        proof {
            let s = old(self).clients@;
            assert(self.clients@ == s.update(i as int, c));
            lemma_accounts_of_update(s, i as int, c);
            assert forall|x: int, y: int|
                0 <= x < y < self.clients@.len() implies self.clients@[x].id
                < self.clients@[y].id by {
                assert(self.clients@[x].id == s[x].id);
                assert(self.clients@[y].id == s[y].id);
            }
        }
    }

    /// The position of the history entry for `tx_id`, if there is one.
    fn find_log_index(&self, tx_id: u32) -> (r: Option<usize>)
        ensures
            match r {
                Some(i) => i < self.transaction_log@.len() && self.transaction_log@[
                    i as int
                ].tx_id() == tx_id,
                None => forall|i: int|
                    0 <= i < self.transaction_log@.len() ==> self.transaction_log@[i].tx_id()
                        != tx_id,
            },
    {
        let n = self.transaction_log.len();
        let mut i: usize = 0;
        while i < n
            invariant
                n == self.transaction_log@.len(),
                i <= n,
                forall|j: int| 0 <= j < i ==> self.transaction_log@[j].tx_id() != tx_id,
            decreases n - i,
        {
            if self.transaction_log[i].tx_id() == tx_id {
                return Some(i);
            }
            i += 1;
        }
        None
    }

    /// Record a settlement in the transaction history. A colliding
    /// transaction identifier silently overwrites the stored entry.
    fn log_insert(&mut self, t: Transaction)
        requires
            old(self).wf(),
            t.is_settlement(),
            t.valid(),
        ensures
            final(self).wf(),
            final(self)@ == (LedgerState {
                accounts: old(self)@.accounts,
                log: old(self)@.log.insert(t.tx_id(), t),
                disputed: old(self)@.disputed,
            }),
            final(self).clients == old(self).clients,
            final(self).disputed_transactions == old(self).disputed_transactions,
    {
        match self.find_log_index(t.tx_id()) {
            Some(i) => {
                self.transaction_log[i] = t;
                proof {
                    let s = old(self).transaction_log@;
                    assert(self.transaction_log@ == s.update(i as int, t));
                    lemma_log_of_update(s, i as int, t);
                    assert forall|x: int, y: int|
                        0 <= x < y < self.transaction_log@.len() implies self.transaction_log@[
                        x].tx_id() != self.transaction_log@[y].tx_id() by {
                        assert(self.transaction_log@[x].tx_id() == s[x].tx_id());
                        assert(self.transaction_log@[y].tx_id() == s[y].tx_id());
                    }
                }
            },
            None => {
                self.transaction_log.push(t);
                proof {
                    let s = old(self).transaction_log@;
                    assert(self.transaction_log@.drop_last() =~= s);
                    assert(self.transaction_log@.last() == t);
                }
            },
        }
    }

    /// Recover the owning client and the settled amount of the deposit that
    /// a dispute-family transaction references.
    fn fetch_disputed_transaction(&self, tx_id: u32) -> (r: Result<(u16, i64), ExecutionError>)
        requires
            self.wf(),
        ensures
            r == spec_fetch(self@.log, tx_id),
    {
        proof {
            lemma_log_of_props(self.transaction_log@);
        }
        match self.find_log_index(tx_id) {
            None => Err(ExecutionError::TransactionNotFound),
            Some(i) => {
                match self.transaction_log[i] {
                    Transaction::Deposit(client_id, _, amount) => Ok((client_id, amount)),
                    _ => Err(ExecutionError::IneligibleTransaction),
                }
            },
        }
    }

    /// Whether `tx_id` is currently under dispute.
    fn dispute_contains(&self, tx_id: u32) -> (r: bool)
        ensures
            r == self@.disputed.contains(tx_id),
    {
        proof {
            lemma_disputed_of_props(self.disputed_transactions@);
        }
        let n = self.disputed_transactions.len();
        let mut i: usize = 0;
        while i < n
            invariant
                n == self.disputed_transactions@.len(),
                i <= n,
                forall|j: int| 0 <= j < i ==> self.disputed_transactions@[j] != tx_id,
            decreases n - i,
        {
            if self.disputed_transactions[i] == tx_id {
                proof {
                    lemma_disputed_of_props(self.disputed_transactions@);
                }
                return true;
            }
            i += 1;
        }
        false
    }

    /// Open a dispute on `tx_id`.
    fn dispute_insert(&mut self, tx_id: u32)
        requires
            old(self).wf(),
            !old(self)@.disputed.contains(tx_id),
        ensures
            final(self).wf(),
            final(self)@ == (LedgerState {
                accounts: old(self)@.accounts,
                log: old(self)@.log,
                disputed: old(self)@.disputed.insert(tx_id),
            }),
            final(self).clients == old(self).clients,
            final(self).transaction_log == old(self).transaction_log,
    {
        proof {
            lemma_disputed_of_props(old(self).disputed_transactions@);
        }
        self.disputed_transactions.push(tx_id);
        proof {
            let s = old(self).disputed_transactions@;
            assert(self.disputed_transactions@.drop_last() =~= s);
            assert(self.disputed_transactions@.last() == tx_id);
            assert forall|x: int, y: int|
                0 <= x < y < self.disputed_transactions@.len() implies self.disputed_transactions@[
                x] != self.disputed_transactions@[y] by {
                if y == s.len() {
                    assert(self.disputed_transactions@[x] == s[x]);
                }
            }
        }
    }

    /// Close the dispute on `tx_id`.
    fn dispute_remove(&mut self, tx_id: u32)
        requires
            old(self).wf(),
            old(self)@.disputed.contains(tx_id),
        ensures
            final(self).wf(),
            final(self)@ == (LedgerState {
                accounts: old(self)@.accounts,
                log: old(self)@.log,
                disputed: old(self)@.disputed.remove(tx_id),
            }),
            final(self).clients == old(self).clients,
            final(self).transaction_log == old(self).transaction_log,
    {
        proof {
            lemma_disputed_of_props(self.disputed_transactions@);
        }
        let n = self.disputed_transactions.len();
        let mut i: usize = 0;
        while i < n
            invariant
                n == self.disputed_transactions@.len(),
                i <= n,
                forall|j: int| 0 <= j < i ==> self.disputed_transactions@[j] != tx_id,
                exists|j: int| 0 <= j < n && self.disputed_transactions@[j] == tx_id,
                self == old(self),
                old(self).wf(),
            decreases n - i,
        {
            if self.disputed_transactions[i] == tx_id {
                self.disputed_transactions.remove(i);
                proof {
                    let s = old(self).disputed_transactions@;
                    lemma_disputed_of_remove(s, i as int);
                    assert forall|x: int, y: int|
                        0 <= x < y < self.disputed_transactions@.len() implies
                        self.disputed_transactions@[x] != self.disputed_transactions@[y] by {
                        s.remove_ensures(i as int);
                    }
                }
                return ;
            }
            i += 1;
        }
        proof {
            assert(false);
        }
    }

    /// The stored account under `client_id`, or a fresh one if no transaction
    /// has referenced that identifier.
    fn account_or_default(&self, client_id: u16) -> (c: Client)
        requires
            self.wf(),
        ensures
            c.id == client_id,
            c@ == self@.account_or_new(client_id),
    {
        proof {
            lemma_accounts_of_props(self.clients@);
        }
        let p = self.find_insert_position(client_id);
        if p < self.clients.len() && self.clients[p].id == client_id {
            self.clients[p]
        } else {
            proof {
                assert(forall|j: int|
                    0 <= j < self.clients@.len() ==> self.clients@[j].id != client_id);
            }
            Client::new(client_id)
        }
    }

    /// Apply one transaction. The outcome and the new state are exactly the
    /// ones the transition function `step` assigns to the current state.
    pub fn execute(&mut self, transaction: Transaction) -> (r: Result<(), ExecutionError>)
        requires
            old(self).wf(),
            transaction.valid(),
            step_fits(old(self)@, transaction),
        ensures
            final(self).wf(),
            final(self)@ == step(old(self)@, transaction).0,
            r == step(old(self)@, transaction).1,
    {
        match transaction {
            Transaction::Deposit(client_id, _, amount) => {
                let idx = self.fetch_or_create_client(client_id);
                let c = self.clients[idx];
                if c.locked {
                    return Err(ExecutionError::AccountLocked);
                }
                let updated = Client {
                    available: c.available + amount,
                    total: c.total + amount,
                    ..c
                };
                self.set_client(idx, updated);
                self.log_insert(transaction);
                Ok(())
            },
            Transaction::Withdrawal(client_id, _, amount) => {
                let idx = self.fetch_or_create_client(client_id);
                let c = self.clients[idx];
                if c.locked {
                    return Err(ExecutionError::AccountLocked);
                }
                if c.available >= amount {
                    let updated = Client {
                        available: c.available - amount,
                        total: c.total - amount,
                        ..c
                    };
                    self.set_client(idx, updated);
                    self.log_insert(transaction);
                    Ok(())
                } else {
                    Err(ExecutionError::InsufficientFunds)
                }
            },
            Transaction::Dispute(_, tx_id) => {
                if self.dispute_contains(tx_id) {
                    return Err(ExecutionError::AlreadyDisputedTransaction);
                }
                let (src_client_id, src_amount) = match self.fetch_disputed_transaction(tx_id) {
                    Ok(found) => found,
                    Err(e) => {
                        return Err(e);
                    },
                };
                let idx = self.fetch_or_create_client(src_client_id);
                let c = self.clients[idx];
                if c.locked {
                    return Err(ExecutionError::AccountLocked);
                }
                let updated = Client {
                    available: c.available - src_amount,
                    held: c.held + src_amount,
                    ..c
                };
                self.set_client(idx, updated);
                self.dispute_insert(tx_id);
                Ok(())
            },
            Transaction::Resolve(_, tx_id) => {
                if !self.dispute_contains(tx_id) {
                    return Err(ExecutionError::NonDisputedTransaction);
                }
                let (src_client_id, src_amount) = match self.fetch_disputed_transaction(tx_id) {
                    Ok(found) => found,
                    Err(e) => {
                        return Err(e);
                    },
                };
                let idx = self.fetch_or_create_client(src_client_id);
                let c = self.clients[idx];
                if c.locked {
                    return Err(ExecutionError::AccountLocked);
                }
                let updated = Client {
                    available: c.available + src_amount,
                    held: c.held - src_amount,
                    ..c
                };
                self.set_client(idx, updated);
                self.dispute_remove(tx_id);
                Ok(())
            },
            Transaction::Chargeback(_, tx_id) => {
                if !self.dispute_contains(tx_id) {
                    return Err(ExecutionError::NonDisputedTransaction);
                }
                let (src_client_id, src_amount) = match self.fetch_disputed_transaction(tx_id) {
                    Ok(found) => found,
                    Err(e) => {
                        return Err(e);
                    },
                };
                let idx = self.fetch_or_create_client(src_client_id);
                let c = self.clients[idx];
                if c.locked {
                    return Err(ExecutionError::AccountLocked);
                }
                let updated = Client {
                    held: c.held - src_amount,
                    total: c.total - src_amount,
                    locked: true,
                    ..c
                };
                self.set_client(idx, updated);
                self.dispute_remove(tx_id);
                Ok(())
            },
        }
    }

    /// Whether applying `transaction` keeps every balance representable, so
    /// that `execute` may be called. Rejected transactions always do.
    pub fn fits(&self, transaction: &Transaction) -> (r: bool)
        requires
            self.wf(),
        ensures
            r == step_fits(self@, *transaction),
    {
        match *transaction {
            Transaction::Deposit(client_id, _, amount) => {
                let a = self.account_or_default(client_id);
                if a.locked {
                    true
                } else {
                    let av: i128 = a.available as i128 + amount as i128;
                    let tt: i128 = a.total as i128 + amount as i128;
                    in_i64_range(av) && in_i64_range(tt)
                }
            },
            Transaction::Withdrawal(client_id, _, amount) => {
                let a = self.account_or_default(client_id);
                if a.locked || a.available < amount {
                    true
                } else {
                    let av: i128 = a.available as i128 - amount as i128;
                    let tt: i128 = a.total as i128 - amount as i128;
                    in_i64_range(av) && in_i64_range(tt)
                }
            },
            Transaction::Dispute(_, tx_id) => {
                if self.dispute_contains(tx_id) {
                    true
                } else {
                    match self.fetch_disputed_transaction(tx_id) {
                        Err(_) => true,
                        Ok((owner, amount)) => {
                            let a = self.account_or_default(owner);
                            if a.locked {
                                true
                            } else {
                                let av: i128 = a.available as i128 - amount as i128;
                                let hd: i128 = a.held as i128 + amount as i128;
                                in_i64_range(av) && in_i64_range(hd)
                            }
                        },
                    }
                }
            },
            Transaction::Resolve(_, tx_id) => {
                if !self.dispute_contains(tx_id) {
                    true
                } else {
                    match self.fetch_disputed_transaction(tx_id) {
                        Err(_) => true,
                        Ok((owner, amount)) => {
                            let a = self.account_or_default(owner);
                            if a.locked {
                                true
                            } else {
                                let av: i128 = a.available as i128 + amount as i128;
                                let hd: i128 = a.held as i128 - amount as i128;
                                in_i64_range(av) && in_i64_range(hd)
                            }
                        },
                    }
                }
            },
            Transaction::Chargeback(_, tx_id) => {
                if !self.dispute_contains(tx_id) {
                    true
                } else {
                    match self.fetch_disputed_transaction(tx_id) {
                        Err(_) => true,
                        Ok((owner, amount)) => {
                            let a = self.account_or_default(owner);
                            if a.locked {
                                true
                            } else {
                                let hd: i128 = a.held as i128 - amount as i128;
                                let tt: i128 = a.total as i128 - amount as i128;
                                in_i64_range(hd) && in_i64_range(tt)
                            }
                        },
                    }
                }
            },
        }
    }

    /// The stored state of the account under `client_id`, if any transaction
    /// has referenced that identifier.
    pub fn client(&self, client_id: u16) -> (r: Option<Client>)
        requires
            self.wf(),
        ensures
            match r {
                Some(c) => self@.accounts.contains_key(client_id) && c.id == client_id && c@
                    == self@.accounts[client_id],
                None => !self@.accounts.contains_key(client_id),
            },
    {
        proof {
            lemma_accounts_of_props(self.clients@);
        }
        let p = self.find_insert_position(client_id);
        if p < self.clients.len() && self.clients[p].id == client_id {
            Some(self.clients[p])
        } else {
            proof {
                assert(forall|j: int|
                    0 <= j < self.clients@.len() ==> self.clients@[j].id != client_id);
            }
            None
        }
    }

    /// Every account, one entry per identifier, in ascending identifier
    /// order: the rows of the final report.
    pub fn client_report(&self) -> (r: Vec<Client>)
        requires
            self.wf(),
        ensures
            forall|i: int, j: int| 0 <= i < j < r@.len() ==> r@[i].id < r@[j].id,
            forall|i: int|
                0 <= i < r@.len() ==> self@.accounts.contains_key((#[trigger] r@[i]).id)
                    && self@.accounts[r@[i].id] == r@[i]@,
            forall|id: u16|
                #[trigger] self@.accounts.contains_key(id) ==> exists|i: int|
                    0 <= i < r@.len() && r@[i].id == id,
    {
        proof {
            lemma_accounts_of_props(self.clients@);
        }
        let n = self.clients.len();
        let mut r: Vec<Client> = Vec::new();
        let mut i: usize = 0;
        while i < n
            invariant
                n == self.clients@.len(),
                i <= n,
                r@ == self.clients@.subrange(0, i as int),
            decreases n - i,
        {
            r.push(self.clients[i]);
            i += 1;
            proof {
                assert(r@ =~= self.clients@.subrange(0, i as int));
            }
        }
        proof {
            assert(r@ =~= self.clients@);
        }
        r
    }

    /// Well-formedness of the stores carries over to the abstract ledger.
    pub proof fn lemma_view_wf(self)
        requires
            self.wf(),
        ensures
            self@.wf(),
    {
        lemma_accounts_of_props(self.clients@);
        lemma_log_of_props(self.transaction_log@);
        assert forall|id: u16| self@.accounts.contains_key(id) implies (
        #[trigger] self@.accounts[id]).balanced() by {
            let i = choose|i: int| 0 <= i < self.clients@.len() && self.clients@[i].id == id;
            assert(self.clients@[i]@.balanced());
        }
        assert forall|k: u32| self@.log.contains_key(k) implies {
            &&& (#[trigger] self@.log[k]).is_settlement()
            &&& self@.log[k].valid()
            &&& self@.log[k].tx_id() == k
        } by {
            let i = choose|i: int|
                0 <= i < self.transaction_log@.len() && self.transaction_log@[i].tx_id() == k;
            assert(self@.log[k] == self.transaction_log@[i]);
        }
    }
}

/// Whether an `i128` intermediate value is representable as an `i64`.
fn in_i64_range(x: i128) -> (r: bool)
    ensures
        r == crate::model::fits_i64(x as int),
{
    i64::MIN as i128 <= x && x <= i64::MAX as i128
}

} // verus!
