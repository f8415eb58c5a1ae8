use vstd::prelude::*;

verus! {

/// Balances of one account. Monetary values are fixed-point decimals with
/// four fractional digits, stored as a signed count of ten-thousandths.
#[derive(Clone, Copy, Debug, PartialEq, Eq, Structural)]
pub struct Client {
    pub id: u16,
    pub available: i64,
    pub held: i64,
    pub total: i64,
    pub locked: bool,
}

/// The abstract state of one account: the same balances as `Client`, but as
/// unbounded integers, so that contracts can speak of exact arithmetic.
pub struct AccountState {
    pub available: int,
    pub held: int,
    pub total: int,
    pub locked: bool,
}

impl AccountState {
    /// The state every account is born with: all balances zero, unlocked.
    pub open spec fn initial() -> AccountState {
        AccountState { available: 0, held: 0, total: 0, locked: false }
    }

    /// The accounting invariant: funds owned equal usable funds plus frozen funds.
    pub open spec fn balanced(self) -> bool {
        self.total == self.available + self.held
    }
}

impl View for Client {
    type V = AccountState;

    open spec fn view(&self) -> AccountState {
        AccountState {
            available: self.available as int,
            held: self.held as int,
            total: self.total as int,
            locked: self.locked,
        }
    }
}

impl Client {
    pub fn new(id: u16) -> (c: Client)
        ensures
            c == (Client { id, available: 0, held: 0, total: 0, locked: false }),
            c@ == AccountState::initial(),
    {
        Client { id, available: 0, held: 0, total: 0, locked: false }
    }
}

} // verus!
