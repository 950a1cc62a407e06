//! Per-client account state and the fund-movement operations.

use vstd::prelude::*;

verus! {

/// Account state: fixed-point balances plus the terminal lock flag.
///
/// A well-formed account keeps `available >= 0`, `held >= 0`, and a total
/// that fits in `i64`, so balance arithmetic never overflows.
#[derive(Debug, Clone, Copy, PartialEq, Eq, Structural)]
pub struct Account {
    pub client_id: u16,
    pub available: i64,
    pub held: i64,
    pub locked: bool,
}

/// A sequence of accounts in strictly ascending client-id order.
pub open spec fn sorted_strictly_by_client(s: Seq<Account>) -> bool {
    forall|i: int, j: int|
        0 <= i < j < s.len() ==> #[trigger] s[i].client_id < #[trigger] s[j].client_id
}

/// Insert an account whose client id is not yet present into a strictly
/// sorted vector, keeping it sorted.
pub(crate) fn insert_sorted(out: &mut Vec<Account>, a: Account)
    requires
        sorted_strictly_by_client(old(out)@),
        forall|i: int|
            0 <= i < old(out)@.len() ==> (#[trigger] old(out)@[i]).client_id != a.client_id,
    ensures
        sorted_strictly_by_client(final(out)@),
        final(out)@.len() == old(out)@.len() + 1,
        forall|x: Account|
            #[trigger] final(out)@.contains(x) <==> (old(out)@.contains(x) || x == a),
{
    let n = out.len();
    let mut pos: usize = 0;
    while pos < n && out[pos].client_id < a.client_id
        invariant
            pos <= n,
            n == out@.len(),
            out@ == old(out)@,
            forall|j: int| 0 <= j < pos ==> (#[trigger] out@[j]).client_id < a.client_id,
        decreases n - pos,
    {
        pos = pos + 1;
    }
    assert forall|j: int| pos <= j < out@.len() implies (#[trigger] out@[j]).client_id
        > a.client_id by {
        assert(out@[pos as int].client_id >= a.client_id);
        assert(out@[pos as int].client_id != a.client_id);
        if j > pos {
            assert(out@[pos as int].client_id < out@[j].client_id);
        }
    }
    let ghost before = out@;
    out.insert(pos, a);
    proof {
        before.insert_ensures(pos as int, a);
        assert forall|x: Account| final(out)@.contains(x) implies (before.contains(x) || x
            == a) by {
            let k = choose|k: int| 0 <= k < final(out)@.len() && final(out)@[k] == x;
            if k < pos {
                assert(before[k] == x);
            } else if k > pos {
                assert(before[k - 1] == x);
            }
        }
        assert forall|x: Account| before.contains(x) || x == a implies final(out)@.contains(
            x,
        ) by {
            if x == a {
                assert(final(out)@[pos as int] == x);
            } else {
                let k = choose|k: int| 0 <= k < before.len() && before[k] == x;
                if k < pos {
                    assert(final(out)@[k] == x);
                } else {
                    assert(final(out)@[k + 1] == x);
                }
            }
        }
    }
}

impl Account {
    /// Both balances are non-negative and their sum fits in `i64`.
    pub open spec fn wf(self) -> bool {
        &&& 0 <= self.available
        &&& 0 <= self.held
        &&& self.available + self.held <= i64::MAX
    }

    /// The total balance as a mathematical integer.
    pub open spec fn spec_total(self) -> int {
        self.available + self.held
    }

    /// The fresh account for a client: zero balances, not locked.
    pub open spec fn initial(client_id: u16) -> Account {
        Account { client_id, available: 0, held: 0, locked: false }
    }

    /// A deposit succeeds when the account is not locked and the new
    /// total still fits in `i64`.
    pub open spec fn can_deposit(self, amount: int) -> bool {
        !self.locked && self.spec_total() + amount <= i64::MAX
    }

    /// The account after a successful deposit.
    pub open spec fn with_deposit(self, amount: int) -> Account {
        Account { available: (self.available + amount) as i64, ..self }
    }

    /// A withdrawal succeeds when the account is not locked and the
    /// available balance covers the amount.
    pub open spec fn can_withdraw(self, amount: int) -> bool {
        !self.locked && self.available >= amount
    }

    /// The account after a successful withdrawal.
    pub open spec fn with_withdrawal(self, amount: int) -> Account {
        Account { available: (self.available - amount) as i64, ..self }
    }

    /// A hold succeeds when the available balance covers the amount.
    /// There is deliberately no lock check.
    pub open spec fn can_hold(self, amount: int) -> bool {
        self.available >= amount
    }

    /// The account after a successful hold.
    pub open spec fn with_hold(self, amount: int) -> Account {
        Account {
            available: (self.available - amount) as i64,
            held: (self.held + amount) as i64,
            ..self
        }
    }

    /// A release succeeds when the held balance covers the amount.
    pub open spec fn can_release(self, amount: int) -> bool {
        self.held >= amount
    }

    /// The account after a successful release.
    pub open spec fn with_release(self, amount: int) -> Account {
        Account {
            available: (self.available + amount) as i64,
            held: (self.held - amount) as i64,
            ..self
        }
    }

    /// A chargeback succeeds when the held balance covers the amount.
    pub open spec fn can_chargeback(self, amount: int) -> bool {
        self.held >= amount
    }

    /// The account after a successful chargeback: held funds are
    /// removed and the account is locked.
    pub open spec fn with_chargeback(self, amount: int) -> Account {
        Account { held: (self.held - amount) as i64, locked: true, ..self }
    }

    /// Create a new client account with zero balances.
    pub fn new(client_id: u16) -> (a: Account)
        ensures
            a == Account::initial(client_id),
    {
        Account { client_id, available: 0, held: 0, locked: false }
    }

    /// Get the total balance (available + held).
    pub fn total(&self) -> (t: i64)
        requires
            self.wf(),
        ensures
            t == self.spec_total(),
    {
        self.available + self.held
    }

    /// Deposit funds to the available balance.
    ///
    /// Fails, without mutating, when the account is locked, or when the
    /// new total would not fit in `i64`.
    pub fn deposit(&mut self, amount: i64) -> (ok: bool)
        requires
            old(self).wf(),
            amount > 0,
        ensures
            final(self).wf(),
            ok == old(self).can_deposit(amount as int),
            ok ==> *final(self) == old(self).with_deposit(amount as int),
            !ok ==> *final(self) == *old(self),
    {
        if self.locked {
            return false;
        }
        if amount > i64::MAX - self.available - self.held {
            return false;
        }
        self.available = self.available + amount;
        true
    }

    /// Withdraw funds from the available balance.
    ///
    /// Fails, without mutating, when the account is locked or the
    /// available balance is insufficient.
    pub fn withdraw(&mut self, amount: i64) -> (ok: bool)
        requires
            old(self).wf(),
            amount > 0,
        ensures
            final(self).wf(),
            ok == old(self).can_withdraw(amount as int),
            ok ==> *final(self) == old(self).with_withdrawal(amount as int),
            !ok ==> *final(self) == *old(self),
    {
        if self.locked {
            return false;
        }
        if self.available < amount {
            return false;
        }
        self.available = self.available - amount;
        true
    }

    /// Move funds from available to held (for a dispute).
    ///
    /// Fails, without mutating, when the available balance is
    /// insufficient.  There is deliberately no lock check: a locked
    /// account can still have funds held, released or charged back.
    pub fn hold(&mut self, amount: i64) -> (ok: bool)
        requires
            old(self).wf(),
            amount > 0,
        ensures
            final(self).wf(),
            ok == old(self).can_hold(amount as int),
            ok ==> *final(self) == old(self).with_hold(amount as int),
            !ok ==> *final(self) == *old(self),
    {
        if self.available < amount {
            return false;
        }
        self.available = self.available - amount;
        self.held = self.held + amount;
        true
    }

    /// Move funds from held back to available (for a resolve).
    ///
    /// Fails, without mutating, when the held balance is insufficient.
    pub fn release(&mut self, amount: i64) -> (ok: bool)
        requires
            old(self).wf(),
            amount > 0,
        ensures
            final(self).wf(),
            ok == old(self).can_release(amount as int),
            ok ==> *final(self) == old(self).with_release(amount as int),
            !ok ==> *final(self) == *old(self),
    {
        if self.held < amount {
            return false;
        }
        self.held = self.held - amount;
        self.available = self.available + amount;
        true
    }

    /// Remove held funds and lock the account (for a chargeback).
    ///
    /// Fails, without mutating, when the held balance is insufficient.
    pub fn chargeback(&mut self, amount: i64) -> (ok: bool)
        requires
            old(self).wf(),
            amount > 0,
        ensures
            final(self).wf(),
            ok == old(self).can_chargeback(amount as int),
            ok ==> *final(self) == old(self).with_chargeback(amount as int),
            !ok ==> *final(self) == *old(self),
    {
        if self.held < amount {
            return false;
        }
        self.held = self.held - amount;
        self.locked = true;
        true
    }
}

} // verus!
