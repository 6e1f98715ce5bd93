//! In-memory account ledger: the reserve / unreserve / transfer primitives
//! that settlement draws on, modelled after the balance ledger the
//! surrounding system injects.  Each account holds a free and a reserved
//! amount; their sum never overflows the balance type.

use vstd::prelude::*;

use crate::types::AccountId;

verus! {

/// Balances of one account.
#[derive(Clone, Copy, PartialEq, Eq, Structural, Debug)]
pub struct AccountRecord {
    pub account: AccountId,
    pub free: u64,
    pub reserved: u64,
}

/// The account ledger.  `minimum_balance` is the protocol's existential
/// minimum: a keep-alive transfer never pushes the sender's free balance
/// below it.  An account without a record holds zero.
pub struct Ledger {
    pub minimum_balance: u64,
    pub accounts: Vec<AccountRecord>,
}

/// Free balance of `a` in `s`; zero when no record exists.
pub open spec fn free_in(s: Seq<AccountRecord>, a: AccountId) -> u64
    decreases s.len(),
{
    if s.len() == 0 {
        0u64
    } else if s.last().account == a {
        s.last().free
    } else {
        free_in(s.drop_last(), a)
    }
}

/// Reserved balance of `a` in `s`; zero when no record exists.
pub open spec fn reserved_in(s: Seq<AccountRecord>, a: AccountId) -> u64
    decreases s.len(),
{
    if s.len() == 0 {
        0u64
    } else if s.last().account == a {
        s.last().reserved
    } else {
        reserved_in(s.drop_last(), a)
    }
}

/// No two records describe the same account.
pub open spec fn accounts_unique(s: Seq<AccountRecord>) -> bool {
    forall|i: int, j: int|
        0 <= i < j < s.len() ==> #[trigger] s[i].account != #[trigger] s[j].account
}

/// Where a record for `a` stands at index `i`, it is the one the balance
/// functions report.
pub proof fn lemma_balances_at(s: Seq<AccountRecord>, a: AccountId, i: int)
    requires
        accounts_unique(s),
        0 <= i < s.len(),
        s[i].account == a,
    ensures
        free_in(s, a) == s[i].free,
        reserved_in(s, a) == s[i].reserved,
    decreases s.len(),
{
    if i == s.len() - 1 {
    } else {
        assert(s.last().account != a);
        assert(s.drop_last()[i] == s[i]);
        lemma_balances_at(s.drop_last(), a, i);
    }
}

/// Without any record for `a`, both balances are zero.
pub proof fn lemma_balances_absent(s: Seq<AccountRecord>, a: AccountId)
    requires
        forall|i: int| 0 <= i < s.len() ==> #[trigger] s[i].account != a,
    ensures
        free_in(s, a) == 0,
        reserved_in(s, a) == 0,
    decreases s.len(),
{
    if s.len() > 0 {
        lemma_balances_absent(s.drop_last(), a);
    }
}

/// Replacing the record at `i` without renaming its account changes the
/// balances of that account alone.
pub proof fn lemma_balances_update(s: Seq<AccountRecord>, i: int, r: AccountRecord, b: AccountId)
    requires
        accounts_unique(s),
        0 <= i < s.len(),
        r.account == s[i].account,
    ensures
        free_in(s.update(i, r), b) == if b == r.account {
            r.free
        } else {
            free_in(s, b)
        },
        reserved_in(s.update(i, r), b) == if b == r.account {
            r.reserved
        } else {
            reserved_in(s, b)
        },
    decreases s.len(),
{
    let t = s.update(i, r);
    assert(forall|k: int, l: int|
        0 <= k < l < s.len() - 1 ==> #[trigger] s.drop_last()[k].account
            != #[trigger] s.drop_last()[l].account);
    if i == s.len() - 1 {
        assert(t.drop_last() =~= s.drop_last());
    } else {
        assert(t.last() == s.last());
        assert(s.last().account != s[i].account);
        assert(t.drop_last() =~= s.drop_last().update(i, r));
        lemma_balances_update(s.drop_last(), i, r, b);
    }
}

impl Ledger {
    /// Balances are consistently keyed and each account's total fits the
    /// balance type.
    pub open spec fn wf(self) -> bool {
        &&& accounts_unique(self.accounts@)
        &&& forall|i: int|
            0 <= i < self.accounts@.len() ==> (#[trigger] self.accounts@[i]).free + self.accounts@[
                i
            ].reserved <= u64::MAX
    }

    /// Free balance of `a`.
    pub open spec fn free_of(self, a: AccountId) -> u64 {
        free_in(self.accounts@, a)
    }

    /// Reserved balance of `a`.
    pub open spec fn reserved_of(self, a: AccountId) -> u64 {
        reserved_in(self.accounts@, a)
    }

    /// An empty ledger with the given existential minimum.
    pub fn new(minimum_balance: u64) -> (r: Ledger)
        ensures
            r.wf(),
            r.minimum_balance == minimum_balance,
            r.accounts@.len() == 0,
    {
        Ledger { minimum_balance, accounts: Vec::new() }
    }

    /// Index of the record for `a`, if one exists.
    fn find_index(&self, a: AccountId) -> (r: Option<usize>)
        ensures
            match r {
                Some(i) => i < self.accounts@.len() && self.accounts@[i as int].account == a,
                None => forall|i: int|
                    0 <= i < self.accounts@.len() ==> (#[trigger] self.accounts@[i]).account != a,
            },
    {
        let mut i: usize = 0;
        while i < self.accounts.len()
            invariant
                i <= self.accounts@.len(),
                forall|j: int| 0 <= j < i ==> (#[trigger] self.accounts@[j]).account != a,
            decreases self.accounts@.len() - i,
        {
            if self.accounts[i].account == a {
                return Some(i);
            }
            i += 1;
        }
        None
    }

    /// Free balance of `a`, as the ledger reports it.
    pub fn free_balance(&self, a: AccountId) -> (r: u64)
        requires
            self.wf(),
        ensures
            r == self.free_of(a),
    {
        match self.find_index(a) {
            Some(i) => {
                proof {
                    lemma_balances_at(self.accounts@, a, i as int);
                }
                self.accounts[i].free
            },
            None => {
                proof {
                    lemma_balances_absent(self.accounts@, a);
                }
                0
            },
        }
    }

    /// Reserved balance of `a`, as the ledger reports it.
    pub fn reserved_balance(&self, a: AccountId) -> (r: u64)
        requires
            self.wf(),
        ensures
            r == self.reserved_of(a),
    {
        match self.find_index(a) {
            Some(i) => {
                proof {
                    lemma_balances_at(self.accounts@, a, i as int);
                }
                self.accounts[i].reserved
            },
            None => {
                proof {
                    lemma_balances_absent(self.accounts@, a);
                }
                0
            },
        }
    }


    /// Replaces the record at `i`, keeping its account.
    fn set_balances(&mut self, i: usize, r: AccountRecord)
        requires
            old(self).wf(),
            i < old(self).accounts@.len(),
            r.account == old(self).accounts@[i as int].account,
            r.free + r.reserved <= u64::MAX,
        ensures
            final(self).wf(),
            final(self).minimum_balance == old(self).minimum_balance,
            final(self).accounts@ == old(self).accounts@.update(i as int, r),
            final(self).free_of(r.account) == r.free,
            final(self).reserved_of(r.account) == r.reserved,
            forall|b: AccountId|
                #![trigger final(self).free_of(b)]
                #![trigger final(self).reserved_of(b)]
                b != r.account ==> final(self).free_of(b) == old(self).free_of(b)
                    && final(self).reserved_of(b) == old(self).reserved_of(b),
    {
        let ghost s0 = self.accounts@;
        let slot = &mut self.accounts[i];
        *slot = r;
        proof {
            lemma_balances_update_all(s0, i as int, r);
            assert forall|k: int, l: int|
                0 <= k < l < self.accounts@.len() implies (#[trigger] self.accounts@[k]).account
                    != (#[trigger] self.accounts@[l]).account by {
                assert(self.accounts@[k].account == s0[k].account);
                assert(self.accounts@[l].account == s0[l].account);
            }
        }
    }

    /// Adds a record for an account the ledger does not know yet.
    fn push_account(&mut self, r: AccountRecord)
        requires
            old(self).wf(),
            forall|i: int|
                0 <= i < old(self).accounts@.len() ==> (#[trigger] old(self).accounts@[
                i]).account != r.account,
            r.free + r.reserved <= u64::MAX,
        ensures
            final(self).wf(),
            final(self).minimum_balance == old(self).minimum_balance,
            final(self).accounts@ == old(self).accounts@.push(r),
            final(self).free_of(r.account) == r.free,
            final(self).reserved_of(r.account) == r.reserved,
            forall|b: AccountId|
                #![trigger final(self).free_of(b)]
                #![trigger final(self).reserved_of(b)]
                b != r.account ==> final(self).free_of(b) == old(self).free_of(b)
                    && final(self).reserved_of(b) == old(self).reserved_of(b),
    {
        let ghost s0 = self.accounts@;
        self.accounts.push(r);
        proof {
            assert(self.accounts@.drop_last() =~= s0);
            assert forall|b: AccountId|
                b != r.account implies #[trigger] free_in(self.accounts@, b) == free_in(s0, b)
                    && #[trigger] reserved_in(self.accounts@, b) == reserved_in(s0, b) by {
            }
        }
    }

    /// Endows `a` with `amount` of free balance.  Fails, changing nothing,
    /// exactly when the account's total would no longer fit the balance type.
    #[verifier::rlimit(50)]
    pub fn deposit(&mut self, a: AccountId, amount: u64) -> (ok: bool)
        requires
            old(self).wf(),
        ensures
            final(self).wf(),
            final(self).minimum_balance == old(self).minimum_balance,
            ok == (old(self).free_of(a) + old(self).reserved_of(a) + amount <= u64::MAX),
            ok ==> final(self).free_of(a) == old(self).free_of(a) + amount,
            !ok ==> *final(self) == *old(self),
            final(self).reserved_of(a) == old(self).reserved_of(a),
            forall|b: AccountId|
                #![trigger final(self).free_of(b)]
                #![trigger final(self).reserved_of(b)]
                b != a ==> final(self).free_of(b) == old(self).free_of(b)
                    && final(self).reserved_of(b) == old(self).reserved_of(b),
    {
        let ghost s0 = self.accounts@;
        match self.find_index(a) {
            Some(i) => {
                proof {
                    lemma_balances_at(s0, a, i as int);
                }
                let rec = self.accounts[i];
                if amount as u128 + rec.free as u128 + rec.reserved as u128 <= u64::MAX as u128 {
                    let updated = AccountRecord {
                        account: rec.account,
                        free: rec.free + amount,
                        reserved: rec.reserved,
                    };
                    self.set_balances(i, updated);
                    true
                } else {
                    false
                }
            },
            None => {
                proof {
                    lemma_balances_absent(s0, a);
                }
                let added = AccountRecord { account: a, free: amount, reserved: 0 };
                self.push_account(added);
                true
            },
        }
    }

    /// Moves `amount` from `a`'s free balance into reserve.  Fails, changing
    /// nothing, exactly when the free balance is insufficient.
    #[verifier::rlimit(50)]
    pub fn reserve(&mut self, a: AccountId, amount: u64) -> (ok: bool)
        requires
            old(self).wf(),
        ensures
            final(self).wf(),
            final(self).minimum_balance == old(self).minimum_balance,
            ok == (amount <= old(self).free_of(a)),
            ok ==> final(self).free_of(a) == old(self).free_of(a) - amount
                && final(self).reserved_of(a) == old(self).reserved_of(a) + amount,
            !ok ==> *final(self) == *old(self),
            forall|b: AccountId|
                #![trigger final(self).free_of(b)]
                #![trigger final(self).reserved_of(b)]
                b != a ==> final(self).free_of(b) == old(self).free_of(b)
                    && final(self).reserved_of(b) == old(self).reserved_of(b),
    {
        let ghost s0 = self.accounts@;
        match self.find_index(a) {
            Some(i) => {
                proof {
                    lemma_balances_at(s0, a, i as int);
                }
                let rec = self.accounts[i];
                if amount <= rec.free {
                    let updated = AccountRecord {
                        account: rec.account,
                        free: rec.free - amount,
                        reserved: rec.reserved + amount,
                    };
                    self.set_balances(i, updated);
                    true
                } else {
                    false
                }
            },
            None => {
                proof {
                    lemma_balances_absent(s0, a);
                }
                amount == 0
            },
        }
    }

    /// Releases up to `amount` from `a`'s reserve back into free balance and
    /// returns how much actually moved: the smaller of `amount` and the
    /// reserved balance.
    #[verifier::rlimit(50)]
    pub fn unreserve(&mut self, a: AccountId, amount: u64) -> (moved: u64)
        requires
            old(self).wf(),
        ensures
            final(self).wf(),
            final(self).minimum_balance == old(self).minimum_balance,
            moved == if amount <= old(self).reserved_of(a) {
                amount
            } else {
                old(self).reserved_of(a)
            },
            final(self).free_of(a) == old(self).free_of(a) + moved,
            final(self).reserved_of(a) == old(self).reserved_of(a) - moved,
            forall|b: AccountId|
                #![trigger final(self).free_of(b)]
                #![trigger final(self).reserved_of(b)]
                b != a ==> final(self).free_of(b) == old(self).free_of(b)
                    && final(self).reserved_of(b) == old(self).reserved_of(b),
    {
        let ghost s0 = self.accounts@;
        match self.find_index(a) {
            Some(i) => {
                proof {
                    lemma_balances_at(s0, a, i as int);
                }
                let rec = self.accounts[i];
                let moved = if amount <= rec.reserved {
                    amount
                } else {
                    rec.reserved
                };
                let updated = AccountRecord {
                    account: rec.account,
                    free: rec.free + moved,
                    reserved: rec.reserved - moved,
                };
                self.set_balances(i, updated);
                proof {
                    assert forall|b: AccountId|
                        #![trigger self.free_of(b)]
                        #![trigger self.reserved_of(b)]
                        b != a implies self.free_of(b) == free_in(s0, b)
                            && self.reserved_of(b) == reserved_in(s0, b) by {
                    }
                }
                moved
            },
            None => {
                proof {
                    lemma_balances_absent(s0, a);
                }
                0
            },
        }
    }

    /// Transfers `amount` of free balance from `from` to `to`, keeping the
    /// sender alive: it fails, changing nothing, unless the sender's free
    /// balance covers `amount` and stays at or above the existential minimum,
    /// and the recipient's total still fits the balance type.
    #[verifier::rlimit(50)]
    pub fn transfer_keep_alive(&mut self, from: AccountId, to: AccountId, amount: u64) -> (ok:
        bool)
        requires
            old(self).wf(),
        ensures
            final(self).wf(),
            final(self).minimum_balance == old(self).minimum_balance,
            ok == (amount <= old(self).free_of(from)
                && old(self).free_of(from) - amount >= old(self).minimum_balance
                && (from == to || old(self).free_of(to) + old(self).reserved_of(to)
                + amount <= u64::MAX)),
            !ok ==> *final(self) == *old(self),
            ok && from != to ==> final(self).free_of(from) == old(self).free_of(from) - amount
                && final(self).free_of(to) == old(self).free_of(to) + amount,
            ok && from == to ==> final(self).free_of(from) == old(self).free_of(from),
            final(self).reserved_of(from) == old(self).reserved_of(from),
            final(self).reserved_of(to) == old(self).reserved_of(to),
            forall|b: AccountId|
                #![trigger final(self).free_of(b)]
                #![trigger final(self).reserved_of(b)]
                b != from && b != to ==> final(self).free_of(b) == old(self).free_of(b)
                    && final(self).reserved_of(b) == old(self).reserved_of(b),
    {
        let ghost s0 = self.accounts@;
        let sender_free = self.free_balance(from);
        if amount > sender_free || sender_free - amount < self.minimum_balance {
            return false;
        }
        if from == to {
            return true;
        }
        let receiver_free = self.free_balance(to);
        let receiver_reserved = self.reserved_balance(to);
        if receiver_free as u128 + receiver_reserved as u128 + amount as u128 > u64::MAX as u128 {
            return false;
        }
        // Debit the sender.
        match self.find_index(from) {
            Some(i) => {
                proof {
                    lemma_balances_at(s0, from, i as int);
                }
                let rec = self.accounts[i];
                let updated = AccountRecord {
                    account: rec.account,
                    free: rec.free - amount,
                    reserved: rec.reserved,
                };
                self.set_balances(i, updated);
            },
            None => {
                proof {
                    lemma_balances_absent(s0, from);
                }
                assert(amount == 0);
            },
        }
        // Credit the recipient.  The debit left the recipient's balances as
        // they were read above.
        let receiver_free_now = self.free_balance(to);
        let receiver_reserved_now = self.reserved_balance(to);
        assert(receiver_free_now == receiver_free && receiver_reserved_now == receiver_reserved);
        let ghost s1 = self.accounts@;
        match self.find_index(to) {
            Some(i) => {
                proof {
                    lemma_balances_at(s1, to, i as int);
                }
                let rec = self.accounts[i];
                let updated = AccountRecord {
                    account: rec.account,
                    free: rec.free + amount,
                    reserved: rec.reserved,
                };
                self.set_balances(i, updated);
            },
            None => {
                proof {
                    lemma_balances_absent(s1, to);
                }
                let added = AccountRecord { account: to, free: amount, reserved: 0 };
                self.push_account(added);
            },
        }
        proof {
            assert(self.reserved_of(from) == reserved_in(s0, from));
            assert(self.reserved_of(to) == reserved_in(s0, to));
            assert forall|b: AccountId|
                #![trigger self.free_of(b)]
                #![trigger self.reserved_of(b)]
                b != from && b != to implies self.free_of(b) == free_in(s0, b)
                    && self.reserved_of(b) == reserved_in(s0, b) by {
            }
        }
        true
    }
}

/// In a well-formed ledger every account's total fits the balance type.
pub proof fn lemma_total_bounded(s: Seq<AccountRecord>, a: AccountId)
    requires
        forall|i: int| 0 <= i < s.len() ==> (#[trigger] s[i]).free + s[i].reserved <= u64::MAX,
    ensures
        free_in(s, a) + reserved_in(s, a) <= u64::MAX,
    decreases s.len(),
{
    if s.len() > 0 {
        assert(s[s.len() - 1] == s.last());
        if s.last().account != a {
            lemma_total_bounded(s.drop_last(), a);
        }
    }
}

/// The update lemma, stated for every observer account at once.
pub proof fn lemma_balances_update_all(s: Seq<AccountRecord>, i: int, r: AccountRecord)
    requires
        accounts_unique(s),
        0 <= i < s.len(),
        r.account == s[i].account,
    ensures
        forall|b: AccountId|
            #[trigger] free_in(s.update(i, r), b) == if b == r.account {
                r.free
            } else {
                free_in(s, b)
            },
        forall|b: AccountId|
            #[trigger] reserved_in(s.update(i, r), b) == if b == r.account {
                r.reserved
            } else {
                reserved_in(s, b)
            },
{
    assert forall|b: AccountId|
        #[trigger] free_in(s.update(i, r), b) == (if b == r.account {
            r.free
        } else {
            free_in(s, b)
        }) by {
        lemma_balances_update(s, i, r, b);
    }
    assert forall|b: AccountId|
        #[trigger] reserved_in(s.update(i, r), b) == (if b == r.account {
            r.reserved
        } else {
            reserved_in(s, b)
        }) by {
        lemma_balances_update(s, i, r, b);
    }
}

} // verus!
