//! Per-account coin balances.

use vstd::prelude::*;
use crate::bid::{AccountId, Coins};

verus! {

/// The balance of `account` among `entries`: the last entry for it, or zero.
pub open spec fn balance_in(entries: Seq<(AccountId, Coins)>, account: AccountId) -> nat
    decreases entries.len(),
{
    if entries.len() == 0 {
        0
    } else if entries.last().0 == account {
        entries.last().1 as nat
    } else {
        balance_in(entries.drop_last(), account)
    }
}

/// The sum of all balances among `entries`.
pub open spec fn total_in(entries: Seq<(AccountId, Coins)>) -> int
    decreases entries.len(),
{
    if entries.len() == 0 {
        0
    } else {
        total_in(entries.drop_last()) + entries.last().1
    }
}

/// No account has two entries.
pub open spec fn unique_accounts(entries: Seq<(AccountId, Coins)>) -> bool {
    forall|i: int, j: int|
        0 <= i < entries.len() && 0 <= j < entries.len() && i != j ==> entries[i].0
            != entries[j].0
}

proof fn lemma_balance_at(entries: Seq<(AccountId, Coins)>, i: int)
    requires
        unique_accounts(entries),
        0 <= i < entries.len(),
    ensures
        balance_in(entries, entries[i].0) == entries[i].1,
    decreases entries.len(),
{
    if i < entries.len() - 1 {
        let rest = entries.drop_last();
        assert(rest[i] == entries[i]);
        assert(entries.last().0 != entries[i].0);
        lemma_balance_at(rest, i);
    }
}

proof fn lemma_balance_absent(entries: Seq<(AccountId, Coins)>, account: AccountId)
    requires
        forall|j: int| 0 <= j < entries.len() ==> entries[j].0 != account,
    ensures
        balance_in(entries, account) == 0,
    decreases entries.len(),
{
    if entries.len() > 0 {
        let rest = entries.drop_last();
        assert forall|j: int| 0 <= j < rest.len() implies rest[j].0 != account by {
            assert(rest[j] == entries[j]);
        }
        lemma_balance_absent(rest, account);
    }
}

proof fn lemma_update(entries: Seq<(AccountId, Coins)>, i: int, value: Coins)
    requires
        unique_accounts(entries),
        0 <= i < entries.len(),
    ensures
        unique_accounts(entries.update(i, (entries[i].0, value))),
        total_in(entries.update(i, (entries[i].0, value))) == total_in(entries) - entries[i].1
            + value,
        forall|a: AccountId|
            #![trigger balance_in(entries.update(i, (entries[i].0, value)), a)]
            balance_in(entries.update(i, (entries[i].0, value)), a) == if a == entries[i].0 {
                value as nat
            } else {
                balance_in(entries, a)
            },
    decreases entries.len(),
{
    let updated = entries.update(i, (entries[i].0, value));
    let rest = entries.drop_last();
    if i == entries.len() - 1 {
        assert(updated.drop_last() =~= rest);
        assert forall|a: AccountId| a != entries[i].0 implies balance_in(updated, a) == balance_in(
            entries,
            a,
        ) by {}
    } else {
        assert(updated.drop_last() =~= rest.update(i, (entries[i].0, value)));
        assert(rest[i] == entries[i]);
        lemma_update(rest, i, value);
        assert forall|a: AccountId| #[trigger] balance_in(updated, a) == if a == entries[i].0 {
            value as nat
        } else {
            balance_in(entries, a)
        } by {
            assert(entries.last().0 != entries[i].0);
            assert(updated.last() == entries.last());
            assert(balance_in(rest.update(i, (entries[i].0, value)), a) == if a == entries[i].0 {
                value as nat
            } else {
                balance_in(rest, a)
            });
        }
    }
}

proof fn lemma_push(entries: Seq<(AccountId, Coins)>, account: AccountId, value: Coins)
    requires
        unique_accounts(entries),
        forall|j: int| 0 <= j < entries.len() ==> entries[j].0 != account,
    ensures
        unique_accounts(entries.push((account, value))),
        total_in(entries.push((account, value))) == total_in(entries) + value,
        forall|a: AccountId|
            #![trigger balance_in(entries.push((account, value)), a)]
            balance_in(entries.push((account, value)), a) == if a == account {
                value as nat
            } else {
                balance_in(entries, a)
            },
{
    assert(entries.push((account, value)).drop_last() =~= entries);
}

/// The coins that `credits` pay to `account`.
pub open spec fn credited(credits: Seq<(AccountId, Coins)>, account: AccountId) -> int
    decreases credits.len(),
{
    if credits.len() == 0 {
        0
    } else {
        credited(credits.drop_last(), account) + if credits.last().0 == account {
            credits.last().1 as int
        } else {
            0
        }
    }
}

/// The coins that `credits` pay in all.
pub open spec fn credits_sum(credits: Seq<(AccountId, Coins)>) -> int
    decreases credits.len(),
{
    if credits.len() == 0 {
        0
    } else {
        credits_sum(credits.drop_last()) + credits.last().1
    }
}

proof fn lemma_credited_prefix(credits: Seq<(AccountId, Coins)>, k: int, account: AccountId)
    requires
        0 <= k <= credits.len(),
    ensures
        0 <= credited(credits.take(k), account) <= credited(credits, account),
    decreases credits.len(),
{
    if k < credits.len() {
        assert(credits.drop_last().take(k) =~= credits.take(k));
        lemma_credited_prefix(credits.drop_last(), k, account);
    } else {
        assert(credits.take(k) =~= credits);
        lemma_credited_nonneg(credits, account);
    }
}

proof fn lemma_credited_nonneg(credits: Seq<(AccountId, Coins)>, account: AccountId)
    ensures
        0 <= credited(credits, account),
    decreases credits.len(),
{
    if credits.len() > 0 {
        lemma_credited_nonneg(credits.drop_last(), account);
    }
}

/// The balances of all accounts; an account without an entry holds nothing.
pub struct Ledger {
    entries: Vec<(AccountId, Coins)>,
}

impl Ledger {
    pub closed spec fn wf(&self) -> bool {
        unique_accounts(self.entries@)
    }

    /// The balance of `account`.
    pub closed spec fn balance(&self, account: AccountId) -> nat {
        balance_in(self.entries@, account)
    }

    /// The sum of all balances.
    pub closed spec fn total(&self) -> int {
        total_in(self.entries@)
    }

    /// A ledger in which every balance is zero.
    pub fn new() -> (r: Ledger)
        ensures
            r.wf(),
            r.total() == 0,
            forall|a: AccountId| #[trigger] r.balance(a) == 0,
    {
        Ledger { entries: Vec::new() }
    }

    /// Every balance fits in `Coins`.
    pub proof fn lemma_balance_bound(&self, account: AccountId)
        ensures
            self.balance(account) <= u64::MAX,
    {
        lemma_balance_in_bound(self.entries@, account);
    }

    /// The position of the entry for `account`, if there is one.
    fn find(&self, account: AccountId) -> (r: Option<usize>)
        requires
            self.wf(),
        ensures
            match r {
                Some(i) => i < self.entries@.len() && self.entries@[i as int].0 == account,
                None => forall|j: int|
                    0 <= j < self.entries@.len() ==> self.entries@[j].0 != account,
            },
    {
        let mut i: usize = 0;
        while i < self.entries.len()
            invariant
                i <= self.entries@.len(),
                forall|j: int| 0 <= j < i ==> self.entries@[j].0 != account,
            decreases self.entries@.len() - i,
        {
            if self.entries[i].0 == account {
                return Some(i);
            }
            i += 1;
        }
        None
    }

    /// The balance of `account`.
    pub fn get_balance(&self, account: AccountId) -> (r: Coins)
        requires
            self.wf(),
        ensures
            r == self.balance(account),
    {
        match self.find(account) {
            Some(i) => {
                proof {
                    lemma_balance_at(self.entries@, i as int);
                }
                self.entries[i].1
            },
            None => {
                proof {
                    lemma_balance_absent(self.entries@, account);
                }
                0
            },
        }
    }

    /// Pays every credit into its account, or, where a balance would exceed `Coins`,
    /// pays none and returns `false`.
    pub fn credit_all(&mut self, credits: &Vec<(AccountId, Coins)>) -> (r: bool)
        requires
            old(self).wf(),
        ensures
            final(self).wf(),
            r == forall|a: AccountId|
                old(self).balance(a) + #[trigger] credited(credits@, a) <= u64::MAX,
            r ==> forall|a: AccountId| #[trigger]
                final(self).balance(a) == old(self).balance(a) + credited(credits@, a),
            r ==> final(self).total() == old(self).total() + credits_sum(credits@),
            !r ==> *final(self) == *old(self),
    {
        let mut next = Ledger { entries: Vec::new() };
        let mut i: usize = 0;
        while i < self.entries.len()
            invariant
                i <= self.entries@.len(),
                next.entries@ =~= self.entries@.take(i as int),
            decreases self.entries@.len() - i,
        {
            next.entries.push(self.entries[i]);
            i += 1;
        }
        assert(next.entries@ =~= self.entries@);
        let mut k: usize = 0;
        while k < credits.len()
            invariant
                self.wf(),
                next.wf(),
                k <= credits@.len(),
                forall|a: AccountId| #[trigger]
                    next.balance(a) == self.balance(a) + credited(credits@.take(k as int), a),
                next.total() == self.total() + credits_sum(credits@.take(k as int)),
            decreases credits@.len() - k,
        {
            let (account, amount) = credits[k];
            let current = next.get_balance(account);
            assert(credits@.take(k + 1).drop_last() =~= credits@.take(k as int));
            if current > u64::MAX - amount {
                proof {
                    lemma_credited_prefix(credits@, k + 1, account);
                    assert(self.balance(account) + credited(credits@, account) > u64::MAX);
                }
                return false;
            }
            next.set_balance(account, current + amount);
            k += 1;
        }
        assert(credits@.take(k as int) =~= credits@);
        proof {
            assert forall|a: AccountId|
                self.balance(a) + #[trigger] credited(credits@, a) <= u64::MAX by {
                next.lemma_balance_bound(a);
            }
        }
        *self = next;
        true
    }

    /// Sets the balance of `account` to `value`.
    pub fn set_balance(&mut self, account: AccountId, value: Coins)
        requires
            old(self).wf(),
        ensures
            final(self).wf(),
            final(self).total() == old(self).total() - old(self).balance(account) + value,
            forall|a: AccountId| #[trigger]
                final(self).balance(a) == if a == account {
                    value as nat
                } else {
                    old(self).balance(a)
                },
    {
        match self.find(account) {
            Some(i) => {
                proof {
                    lemma_balance_at(self.entries@, i as int);
                    lemma_update(self.entries@, i as int, value);
                }
                self.entries.set(i, (account, value));
            },
            None => {
                proof {
                    lemma_balance_absent(self.entries@, account);
                    lemma_push(self.entries@, account, value);
                }
                self.entries.push((account, value));
            },
        }
    }
}

proof fn lemma_balance_in_bound(entries: Seq<(AccountId, Coins)>, account: AccountId)
    ensures
        balance_in(entries, account) <= u64::MAX,
    decreases entries.len(),
{
    if entries.len() > 0 {
        lemma_balance_in_bound(entries.drop_last(), account);
    }
}

} // verus!
