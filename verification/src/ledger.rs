//! A multi-asset ledger: free and reserved balances per currency and
//! account, and total issuance per currency.
//!
//! Every primitive mutation keeps the ledger invariant: for every currency,
//! the recorded total issuance equals the sum of free and reserved balances
//! over all accounts. Primitives that would overflow a balance or draw more
//! than an account holds fail with a [`LedgerError`] and leave the ledger
//! untouched.

use vstd::prelude::*;

verus! {

/// The balances one account holds in one currency.
#[derive(Clone, Copy, PartialEq, Eq, Structural, Debug)]
pub struct AccountEntry {
    pub currency: u64,
    pub account: u64,
    pub free: u64,
    pub reserved: u64,
}

/// The recorded total issuance of one currency.
#[derive(Clone, Copy, PartialEq, Eq, Structural, Debug)]
pub struct IssuanceEntry {
    pub currency: u64,
    pub amount: u64,
}

/// Why a ledger primitive refused to run.
#[derive(Clone, Copy, PartialEq, Eq, Structural, Debug)]
pub enum LedgerError {
    /// The mutation would push a total issuance past `u64::MAX`.
    Overflow,
    /// The account's free balance is smaller than the amount drawn.
    InsufficientFree,
    /// The account's reserved balance is smaller than the amount drawn.
    InsufficientReserved,
}

/// The ledger state: account balances and per-currency issuance.
pub struct Ledger {
    pub accounts: Vec<AccountEntry>,
    pub issuances: Vec<IssuanceEntry>,
}

/// First entry for the account `(c, a)` in `s`, if any.
pub open spec fn bal_in(s: Seq<AccountEntry>, c: u64, a: u64) -> Option<AccountEntry>
    decreases s.len(),
{
    if s.len() == 0 {
        None
    } else if s[0].currency == c && s[0].account == a {
        Some(s[0])
    } else {
        bal_in(s.skip(1), c, a)
    }
}

/// Free balance recorded for `(c, a)`, zero when no entry exists.
pub open spec fn free_in(s: Seq<AccountEntry>, c: u64, a: u64) -> u64 {
    match bal_in(s, c, a) {
        Some(e) => e.free,
        None => 0,
    }
}

/// Reserved balance recorded for `(c, a)`, zero when no entry exists.
pub open spec fn reserved_in(s: Seq<AccountEntry>, c: u64, a: u64) -> u64 {
    match bal_in(s, c, a) {
        Some(e) => e.reserved,
        None => 0,
    }
}

/// What one entry contributes to the balance total of currency `c`.
pub open spec fn entry_total(e: AccountEntry, c: u64) -> int {
    if e.currency == c {
        e.free + e.reserved
    } else {
        0
    }
}

/// Sum of free and reserved balances held in currency `c` over all entries.
pub open spec fn sum_for(s: Seq<AccountEntry>, c: u64) -> int
    decreases s.len(),
{
    if s.len() == 0 {
        0
    } else {
        entry_total(s[0], c) + sum_for(s.skip(1), c)
    }
}

/// First issuance entry for `c` in `s`, if any.
pub open spec fn issuance_in(s: Seq<IssuanceEntry>, c: u64) -> Option<u64>
    decreases s.len(),
{
    if s.len() == 0 {
        None
    } else if s[0].currency == c {
        Some(s[0].amount)
    } else {
        issuance_in(s.skip(1), c)
    }
}

/// Issuance recorded for `c`, zero when no entry exists.
pub open spec fn issuance_val(s: Seq<IssuanceEntry>, c: u64) -> u64 {
    match issuance_in(s, c) {
        Some(x) => x,
        None => 0,
    }
}

/// No two entries describe the same account in the same currency.
pub open spec fn accounts_unique(s: Seq<AccountEntry>) -> bool {
    forall|i: int, j: int|
        #![trigger s[i], s[j]]
        0 <= i < j < s.len() ==> !(s[i].currency == s[j].currency && s[i].account == s[j].account)
}

/// No two entries describe the issuance of the same currency.
pub open spec fn issuances_unique(s: Seq<IssuanceEntry>) -> bool {
    forall|i: int, j: int|
        #![trigger s[i], s[j]]
        0 <= i < j < s.len() ==> s[i].currency != s[j].currency
}

/// When entry `i` is the first entry for its account, the lookup finds it.
proof fn lemma_bal_in_found(s: Seq<AccountEntry>, i: int, c: u64, a: u64)
    requires
        0 <= i < s.len(),
        s[i].currency == c && s[i].account == a,
        forall|k: int|
            0 <= k < i ==> !((#[trigger] s[k]).currency == c && s[k].account == a),
    ensures
        bal_in(s, c, a) == Some(s[i]),
    decreases i,
{
    if i > 0 {
        assert(s.skip(1)[i - 1] == s[i]);
        assert(forall|k: int|
            0 <= k < i - 1 ==> !((#[trigger] s.skip(1)[k]).currency == c && s.skip(
                1,
            )[k].account == a));
        lemma_bal_in_found(s.skip(1), i - 1, c, a);
    }
}

/// When no entry matches the account, the lookup finds nothing.
proof fn lemma_bal_in_none(s: Seq<AccountEntry>, c: u64, a: u64)
    requires
        forall|k: int|
            0 <= k < s.len() ==> !((#[trigger] s[k]).currency == c && s[k].account == a),
    ensures
        bal_in(s, c, a) is None,
    decreases s.len(),
{
    if s.len() > 0 {
        lemma_bal_in_none(s.skip(1), c, a);
    }
}

/// Overwriting the first entry for an account changes that account's
/// balances and nothing else.
proof fn lemma_bal_in_update(s: Seq<AccountEntry>, i: int, e: AccountEntry)
    requires
        0 <= i < s.len(),
        s[i].currency == e.currency && s[i].account == e.account,
        forall|k: int|
            0 <= k < i ==> !((#[trigger] s[k]).currency == e.currency && s[k].account
                == e.account),
    ensures
        bal_in(s.update(i, e), e.currency, e.account) == Some(e),
        forall|c2: u64, a2: u64|
            !(c2 == e.currency && a2 == e.account) ==> bal_in(s.update(i, e), c2, a2) == bal_in(
                s,
                c2,
                a2,
            ),
    decreases i,
{
    let updated = s.update(i, e);
    if i == 0 {
        assert(updated.skip(1) =~= s.skip(1));
        assert forall|c2: u64, a2: u64| !(c2 == e.currency && a2 == e.account) implies bal_in(
            updated,
            c2,
            a2,
        ) == bal_in(s, c2, a2) by {
            assert(bal_in(updated, c2, a2) == bal_in(updated.skip(1), c2, a2));
            assert(bal_in(s, c2, a2) == bal_in(s.skip(1), c2, a2));
        }
    } else {
        assert(updated[0] == s[0]);
        assert(updated.skip(1) =~= s.skip(1).update(i - 1, e));
        assert(forall|k: int|
            0 <= k < i - 1 ==> !((#[trigger] s.skip(1)[k]).currency == e.currency && s.skip(
                1,
            )[k].account == e.account));
        lemma_bal_in_update(s.skip(1), i - 1, e);
        assert(bal_in(updated, e.currency, e.account) == Some(e));
        assert forall|c2: u64, a2: u64| !(c2 == e.currency && a2 == e.account) implies bal_in(
            updated,
            c2,
            a2,
        ) == bal_in(s, c2, a2) by {
            if s[0].currency == c2 && s[0].account == a2 {
                assert(bal_in(updated, c2, a2) == Some(s[0]));
            } else {
                assert(bal_in(updated, c2, a2) == bal_in(updated.skip(1), c2, a2));
                assert(bal_in(s, c2, a2) == bal_in(s.skip(1), c2, a2));
            }
        }
    }
}

/// Appending an entry for an account with no earlier entry records that
/// account's balances and changes nothing else.
proof fn lemma_bal_in_push(s: Seq<AccountEntry>, e: AccountEntry)
    requires
        forall|k: int|
            0 <= k < s.len() ==> !((#[trigger] s[k]).currency == e.currency && s[k].account
                == e.account),
    ensures
        bal_in(s.push(e), e.currency, e.account) == Some(e),
        forall|c2: u64, a2: u64|
            !(c2 == e.currency && a2 == e.account) ==> bal_in(s.push(e), c2, a2) == bal_in(
                s,
                c2,
                a2,
            ),
    decreases s.len(),
{
    let pushed = s.push(e);
    if s.len() == 0 {
        assert(pushed[0] == e);
        assert(pushed.skip(1) =~= s);
        assert forall|c2: u64, a2: u64| !(c2 == e.currency && a2 == e.account) implies bal_in(
            pushed,
            c2,
            a2,
        ) == bal_in(s, c2, a2) by {
            assert(bal_in(pushed, c2, a2) == bal_in(pushed.skip(1), c2, a2));
        }
    } else {
        assert(pushed[0] == s[0]);
        assert(pushed.skip(1) =~= s.skip(1).push(e));
        lemma_bal_in_push(s.skip(1), e);
        assert(bal_in(pushed, e.currency, e.account) == Some(e));
        assert forall|c2: u64, a2: u64| !(c2 == e.currency && a2 == e.account) implies bal_in(
            pushed,
            c2,
            a2,
        ) == bal_in(s, c2, a2) by {
            if s[0].currency == c2 && s[0].account == a2 {
                assert(bal_in(pushed, c2, a2) == Some(s[0]));
            } else {
                assert(bal_in(pushed, c2, a2) == bal_in(pushed.skip(1), c2, a2));
                assert(bal_in(s, c2, a2) == bal_in(s.skip(1), c2, a2));
            }
        }
    }
}

/// How overwriting entry `i` moves the balance total of each currency.
proof fn lemma_sum_update(s: Seq<AccountEntry>, i: int, e: AccountEntry, c: u64)
    requires
        0 <= i < s.len(),
    ensures
        sum_for(s.update(i, e), c) == sum_for(s, c) - entry_total(s[i], c) + entry_total(e, c),
    decreases s.len(),
{
    let updated = s.update(i, e);
    if i == 0 {
        assert(updated.skip(1) =~= s.skip(1));
        assert(updated[0] == e);
    } else {
        assert(updated[0] == s[0]);
        assert(updated.skip(1) =~= s.skip(1).update(i - 1, e));
        lemma_sum_update(s.skip(1), i - 1, e, c);
        assert(s.skip(1)[i - 1] == s[i]);
    }
}

/// Appending an entry adds its contribution to each currency's total.
proof fn lemma_sum_push(s: Seq<AccountEntry>, e: AccountEntry, c: u64)
    ensures
        sum_for(s.push(e), c) == sum_for(s, c) + entry_total(e, c),
    decreases s.len(),
{
    let pushed = s.push(e);
    if s.len() == 0 {
        assert(pushed[0] == e);
        assert(pushed.skip(1) =~= s);
    } else {
        assert(pushed[0] == s[0]);
        assert(pushed.skip(1) =~= s.skip(1).push(e));
        lemma_sum_push(s.skip(1), e, c);
    }
}

/// Balance totals are never negative.
proof fn lemma_sum_nonneg(s: Seq<AccountEntry>, c: u64)
    ensures
        0 <= sum_for(s, c),
    decreases s.len(),
{
    if s.len() > 0 {
        lemma_sum_nonneg(s.skip(1), c);
    }
}

/// One account's holdings never exceed the balance total of its currency.
proof fn lemma_bal_le_sum(s: Seq<AccountEntry>, c: u64, a: u64)
    ensures
        free_in(s, c, a) + reserved_in(s, c, a) <= sum_for(s, c),
    decreases s.len(),
{
    if s.len() > 0 {
        lemma_sum_nonneg(s.skip(1), c);
        if s[0].currency == c && s[0].account == a {
        } else {
            lemma_bal_le_sum(s.skip(1), c, a);
        }
    }
}

impl Ledger {
    /// Free balance the ledger records for `(c, a)`.
    pub open spec fn spec_free(self, c: u64, a: u64) -> u64 {
        free_in(self.accounts@, c, a)
    }

    /// Reserved balance the ledger records for `(c, a)`.
    pub open spec fn spec_reserved(self, c: u64, a: u64) -> u64 {
        reserved_in(self.accounts@, c, a)
    }

    /// Total issuance the ledger records for `c`.
    pub open spec fn spec_issuance(self, c: u64) -> u64 {
        issuance_val(self.issuances@, c)
    }

    /// The ledger invariant: entries are unique per key, and for every
    /// currency the recorded issuance equals the sum of free and reserved
    /// balances over all accounts.
    pub open spec fn wf(self) -> bool {
        &&& accounts_unique(self.accounts@)
        &&& issuances_unique(self.issuances@)
        &&& forall|c: u64| #[trigger] self.spec_issuance(c) == sum_for(self.accounts@, c)
    }

    /// An empty ledger: no balances, no issuance.
    pub fn new() -> (r: Ledger)
        ensures
            r.wf(),
            forall|c: u64, a: u64| r.spec_free(c, a) == 0 && r.spec_reserved(c, a) == 0,
            forall|c: u64| r.spec_issuance(c) == 0,
    {
        Ledger { accounts: Vec::new(), issuances: Vec::new() }
    }

    /// Read the total issuance of `currency_id`.
    pub fn total_issuance(&self, currency_id: u64) -> (r: u64)
        ensures
            r == self.spec_issuance(currency_id),
    {
        let n = self.issuances.len();
        let mut i: usize = 0;
        proof {
            assert(self.issuances@.skip(0) =~= self.issuances@);
        }
        while i < n
            invariant
                i <= n,
                n == self.issuances.len(),
                issuance_in(self.issuances@, currency_id) == issuance_in(
                    self.issuances@.skip(i as int),
                    currency_id,
                ),
            decreases n - i,
        {
            let entry = self.issuances[i];
            proof {
                assert(self.issuances@.skip(i as int)[0] == self.issuances@[i as int]);
                assert(self.issuances@.skip(i as int).skip(1) =~= self.issuances@.skip(
                    i as int + 1,
                ));
            }
            if entry.currency == currency_id {
                return entry.amount;
            }
            i = i + 1;
        }
        proof {
            assert(self.issuances@.skip(n as int).len() == 0);
        }
        0
    }

    /// Read the entry recorded for `(currency_id, account)`, if any.
    fn find_entry(&self, currency_id: u64, account: u64) -> (r: Option<AccountEntry>)
        ensures
            r == bal_in(self.accounts@, currency_id, account),
    {
        let n = self.accounts.len();
        let mut i: usize = 0;
        proof {
            assert(self.accounts@.skip(0) =~= self.accounts@);
        }
        while i < n
            invariant
                i <= n,
                n == self.accounts.len(),
                bal_in(self.accounts@, currency_id, account) == bal_in(
                    self.accounts@.skip(i as int),
                    currency_id,
                    account,
                ),
            decreases n - i,
        {
            let entry = self.accounts[i];
            proof {
                assert(self.accounts@.skip(i as int)[0] == self.accounts@[i as int]);
                assert(self.accounts@.skip(i as int).skip(1) =~= self.accounts@.skip(i as int + 1));
            }
            if entry.currency == currency_id && entry.account == account {
                return Some(entry);
            }
            i = i + 1;
        }
        proof {
            assert(self.accounts@.skip(n as int).len() == 0);
        }
        None
    }

    /// Read the free balance of `account` in `currency_id`.
    pub fn free_balance(&self, currency_id: u64, account: u64) -> (r: u64)
        ensures
            r == self.spec_free(currency_id, account),
    {
        match self.find_entry(currency_id, account) {
            Some(e) => e.free,
            None => 0,
        }
    }

    /// Read the reserved balance of `account` in `currency_id`.
    pub fn reserved_balance(&self, currency_id: u64, account: u64) -> (r: u64)
        ensures
            r == self.spec_reserved(currency_id, account),
    {
        match self.find_entry(currency_id, account) {
            Some(e) => e.reserved,
            None => 0,
        }
    }

    /// Write both balances of `(c, a)`, leaving every other account and all
    /// issuance records as they were.
    fn set_account(&mut self, c: u64, a: u64, new_free: u64, new_reserved: u64)
        requires
            accounts_unique(old(self).accounts@),
        ensures
            accounts_unique(final(self).accounts@),
            final(self).issuances@ == old(self).issuances@,
            free_in(final(self).accounts@, c, a) == new_free,
            reserved_in(final(self).accounts@, c, a) == new_reserved,
            forall|c2: u64, a2: u64|
                !(c2 == c && a2 == a) ==> bal_in(final(self).accounts@, c2, a2) == bal_in(
                    old(self).accounts@,
                    c2,
                    a2,
                ),
            forall|c2: u64|
                c2 != c ==> sum_for(final(self).accounts@, c2) == sum_for(
                    old(self).accounts@,
                    c2,
                ),
            sum_for(final(self).accounts@, c) == sum_for(old(self).accounts@, c) - free_in(
                old(self).accounts@,
                c,
                a,
            ) - reserved_in(old(self).accounts@, c, a) + new_free + new_reserved,
    {
        let n = self.accounts.len();
        let mut i: usize = 0;
        while i < n
            invariant
                i <= n,
                n == self.accounts.len(),
                self.accounts@ == old(self).accounts@,
                self.issuances@ == old(self).issuances@,
                accounts_unique(self.accounts@),
                forall|k: int|
                    0 <= k < i ==> !((#[trigger] self.accounts@[k]).currency == c
                        && self.accounts@[k].account == a),
            decreases n - i,
        {
            let entry = self.accounts[i];
            if entry.currency == c && entry.account == a {
                let updated = AccountEntry { currency: c, account: a, free: new_free, reserved: new_reserved };
                proof {
                    let s = self.accounts@;
                    lemma_bal_in_found(s, i as int, c, a);
                    lemma_bal_in_update(s, i as int, updated);
                    assert forall|c2: u64|
                        sum_for(s.update(i as int, updated), c2) == sum_for(s, c2) - entry_total(
                            s[i as int],
                            c2,
                        ) + entry_total(updated, c2) by {
                        lemma_sum_update(s, i as int, updated, c2);
                    }
                    let t = s.update(i as int, updated);
                    assert forall|p: int, q: int|
                        #![trigger t[p], t[q]]
                        0 <= p < q < t.len() implies !(t[p].currency == t[q].currency
                        && t[p].account == t[q].account) by {
                        assert(s[p].currency == t[p].currency && s[p].account == t[p].account);
                        assert(s[q].currency == t[q].currency && s[q].account == t[q].account);
                    }
                }
                self.accounts[i] = updated;
                return ;
            }
            i = i + 1;
        }
        let fresh = AccountEntry { currency: c, account: a, free: new_free, reserved: new_reserved };
        proof {
            let s = self.accounts@;
            lemma_bal_in_none(s, c, a);
            lemma_bal_in_push(s, fresh);
            assert forall|c2: u64|
                sum_for(s.push(fresh), c2) == sum_for(s, c2) + entry_total(fresh, c2) by {
                lemma_sum_push(s, fresh, c2);
            }
            let t = s.push(fresh);
            assert forall|p: int, q: int|
                #![trigger t[p], t[q]]
                0 <= p < q < t.len() implies !(t[p].currency == t[q].currency && t[p].account
                == t[q].account) by {
                if q < s.len() {
                    assert(s[p] == t[p] && s[q] == t[q]);
                } else {
                    assert(t[q] == fresh);
                    assert(s[p] == t[p]);
                }
            }
        }
        self.accounts.push(fresh);
    }

    /// Write the issuance recorded for `c`, leaving every other currency and
    /// all account balances as they were.
    fn set_issuance(&mut self, c: u64, amount: u64)
        requires
            issuances_unique(old(self).issuances@),
        ensures
            issuances_unique(final(self).issuances@),
            final(self).accounts@ == old(self).accounts@,
            issuance_val(final(self).issuances@, c) == amount,
            forall|c2: u64|
                c2 != c ==> issuance_val(final(self).issuances@, c2) == issuance_val(
                    old(self).issuances@,
                    c2,
                ),
    {
        let n = self.issuances.len();
        let mut i: usize = 0;
        while i < n
            invariant
                i <= n,
                n == self.issuances.len(),
                self.accounts@ == old(self).accounts@,
                self.issuances@ == old(self).issuances@,
                issuances_unique(self.issuances@),
                forall|k: int|
                    0 <= k < i ==> (#[trigger] self.issuances@[k]).currency != c,
            decreases n - i,
        {
            let entry = self.issuances[i];
            if entry.currency == c {
                let updated = IssuanceEntry { currency: c, amount: amount };
                proof {
                    let s = self.issuances@;
                    lemma_issuance_in_update(s, i as int, updated);
                    let t = s.update(i as int, updated);
                    assert forall|p: int, q: int|
                        #![trigger t[p], t[q]]
                        0 <= p < q < t.len() implies t[p].currency != t[q].currency by {
                        assert(s[p].currency == t[p].currency);
                        assert(s[q].currency == t[q].currency);
                    }
                }
                self.issuances[i] = updated;
                return ;
            }
            i = i + 1;
        }
        let fresh = IssuanceEntry { currency: c, amount: amount };
        proof {
            let s = self.issuances@;
            lemma_issuance_in_none(s, c);
            lemma_issuance_in_push(s, fresh);
            let t = s.push(fresh);
            assert forall|p: int, q: int|
                #![trigger t[p], t[q]]
                0 <= p < q < t.len() implies t[p].currency != t[q].currency by {
                if q < s.len() {
                    assert(s[p] == t[p] && s[q] == t[q]);
                } else {
                    assert(t[q] == fresh);
                    assert(s[p] == t[p]);
                }
            }
        }
        self.issuances.push(fresh);
    }

    /// Mint `amount` into the free balance of `account`, raising the total
    /// issuance of `currency_id` by the same amount.
    pub fn deposit(&mut self, currency_id: u64, account: u64, amount: u64) -> (r: Result<
        (),
        LedgerError,
    >)
        requires
            old(self).wf(),
        ensures
            final(self).wf(),
            (r is Err) <==> old(self).spec_issuance(currency_id) + amount > u64::MAX,
            r is Err ==> r == Err::<(), LedgerError>(LedgerError::Overflow) && *final(self)
                == *old(self),
            r is Ok ==> final(self).spec_free(currency_id, account) == old(self).spec_free(
                currency_id,
                account,
            ) + amount,
            r is Ok ==> final(self).spec_issuance(currency_id) == old(self).spec_issuance(
                currency_id,
            ) + amount,
            forall|c2: u64, a2: u64|
                !(c2 == currency_id && a2 == account) ==> final(self).spec_free(c2, a2) == old(self).spec_free(c2, a2),
            forall|c2: u64, a2: u64|
                final(self).spec_reserved(c2, a2) == old(self).spec_reserved(c2, a2),
            forall|c2: u64|
                c2 != currency_id ==> final(self).spec_issuance(c2) == old(self).spec_issuance(
                    c2,
                ),
    {
        let iss = self.total_issuance(currency_id);
        if amount > u64::MAX - iss {
            return Err(LedgerError::Overflow);
        }
        let f = self.free_balance(currency_id, account);
        let rv = self.reserved_balance(currency_id, account);
        proof {
            lemma_bal_le_sum(self.accounts@, currency_id, account);
            assert(old(self).spec_issuance(currency_id) == sum_for(
                old(self).accounts@,
                currency_id,
            ));
        }
        self.set_account(currency_id, account, f + amount, rv);
        self.set_issuance(currency_id, iss + amount);
        proof {
            assert forall|c2: u64| #[trigger] self.spec_issuance(c2) == sum_for(
                self.accounts@,
                c2,
            ) by {
                assert(old(self).spec_issuance(c2) == sum_for(old(self).accounts@, c2));
            }
        }
        Ok(())
    }

    /// Mint `amount` into the reserved balance of `account`, raising the
    /// total issuance of `currency_id` by the same amount.
    pub fn deposit_reserved(&mut self, currency_id: u64, account: u64, amount: u64) -> (r: Result<
        (),
        LedgerError,
    >)
        requires
            old(self).wf(),
        ensures
            final(self).wf(),
            (r is Err) <==> old(self).spec_issuance(currency_id) + amount > u64::MAX,
            r is Err ==> r == Err::<(), LedgerError>(LedgerError::Overflow) && *final(self)
                == *old(self),
            r is Ok ==> final(self).spec_reserved(currency_id, account) == old(self).spec_reserved(
                currency_id,
                account,
            ) + amount,
            r is Ok ==> final(self).spec_issuance(currency_id) == old(self).spec_issuance(
                currency_id,
            ) + amount,
            forall|c2: u64, a2: u64|
                !(c2 == currency_id && a2 == account) ==> final(self).spec_reserved(c2, a2) == old(self).spec_reserved(c2, a2),
            forall|c2: u64, a2: u64| final(self).spec_free(c2, a2) == old(self).spec_free(c2, a2),
            forall|c2: u64|
                c2 != currency_id ==> final(self).spec_issuance(c2) == old(self).spec_issuance(
                    c2,
                ),
    {
        let iss = self.total_issuance(currency_id);
        if amount > u64::MAX - iss {
            return Err(LedgerError::Overflow);
        }
        let f = self.free_balance(currency_id, account);
        let rv = self.reserved_balance(currency_id, account);
        proof {
            lemma_bal_le_sum(self.accounts@, currency_id, account);
            assert(old(self).spec_issuance(currency_id) == sum_for(
                old(self).accounts@,
                currency_id,
            ));
        }
        self.set_account(currency_id, account, f, rv + amount);
        self.set_issuance(currency_id, iss + amount);
        proof {
            assert forall|c2: u64| #[trigger] self.spec_issuance(c2) == sum_for(
                self.accounts@,
                c2,
            ) by {
                assert(old(self).spec_issuance(c2) == sum_for(old(self).accounts@, c2));
            }
        }
        Ok(())
    }

    /// Burn `amount` from the free balance of `account`, lowering the total
    /// issuance of `currency_id` by the same amount.
    pub fn withdraw(&mut self, currency_id: u64, account: u64, amount: u64) -> (r: Result<
        (),
        LedgerError,
    >)
        requires
            old(self).wf(),
        ensures
            final(self).wf(),
            (r is Err) <==> old(self).spec_free(currency_id, account) < amount,
            r is Err ==> r == Err::<(), LedgerError>(LedgerError::InsufficientFree) && *final(self)
                == *old(self),
            r is Ok ==> final(self).spec_free(currency_id, account) == old(self).spec_free(
                currency_id,
                account,
            ) - amount,
            r is Ok ==> final(self).spec_issuance(currency_id) == old(self).spec_issuance(
                currency_id,
            ) - amount,
            forall|c2: u64, a2: u64|
                !(c2 == currency_id && a2 == account) ==> final(self).spec_free(c2, a2) == old(self).spec_free(c2, a2),
            forall|c2: u64, a2: u64|
                final(self).spec_reserved(c2, a2) == old(self).spec_reserved(c2, a2),
            forall|c2: u64|
                c2 != currency_id ==> final(self).spec_issuance(c2) == old(self).spec_issuance(
                    c2,
                ),
    {
        let f = self.free_balance(currency_id, account);
        if f < amount {
            return Err(LedgerError::InsufficientFree);
        }
        let rv = self.reserved_balance(currency_id, account);
        let iss = self.total_issuance(currency_id);
        proof {
            lemma_bal_le_sum(self.accounts@, currency_id, account);
            assert(old(self).spec_issuance(currency_id) == sum_for(
                old(self).accounts@,
                currency_id,
            ));
        }
        self.set_account(currency_id, account, f - amount, rv);
        self.set_issuance(currency_id, iss - amount);
        proof {
            assert forall|c2: u64| #[trigger] self.spec_issuance(c2) == sum_for(
                self.accounts@,
                c2,
            ) by {
                assert(old(self).spec_issuance(c2) == sum_for(old(self).accounts@, c2));
            }
        }
        Ok(())
    }

    /// Burn `amount` from the reserved balance of `account`, lowering the
    /// total issuance of `currency_id` by the same amount.
    pub fn slash_reserved(&mut self, currency_id: u64, account: u64, amount: u64) -> (r: Result<
        (),
        LedgerError,
    >)
        requires
            old(self).wf(),
        ensures
            final(self).wf(),
            (r is Err) <==> old(self).spec_reserved(currency_id, account) < amount,
            r is Err ==> r == Err::<(), LedgerError>(LedgerError::InsufficientReserved) && *final(self) == *old(self),
            r is Ok ==> final(self).spec_reserved(currency_id, account) == old(self).spec_reserved(
                currency_id,
                account,
            ) - amount,
            r is Ok ==> final(self).spec_issuance(currency_id) == old(self).spec_issuance(
                currency_id,
            ) - amount,
            forall|c2: u64, a2: u64|
                !(c2 == currency_id && a2 == account) ==> final(self).spec_reserved(c2, a2) == old(self).spec_reserved(c2, a2),
            forall|c2: u64, a2: u64| final(self).spec_free(c2, a2) == old(self).spec_free(c2, a2),
            forall|c2: u64|
                c2 != currency_id ==> final(self).spec_issuance(c2) == old(self).spec_issuance(
                    c2,
                ),
    {
        let rv = self.reserved_balance(currency_id, account);
        if rv < amount {
            return Err(LedgerError::InsufficientReserved);
        }
        let f = self.free_balance(currency_id, account);
        let iss = self.total_issuance(currency_id);
        proof {
            lemma_bal_le_sum(self.accounts@, currency_id, account);
            assert(old(self).spec_issuance(currency_id) == sum_for(
                old(self).accounts@,
                currency_id,
            ));
        }
        self.set_account(currency_id, account, f, rv - amount);
        self.set_issuance(currency_id, iss - amount);
        proof {
            assert forall|c2: u64| #[trigger] self.spec_issuance(c2) == sum_for(
                self.accounts@,
                c2,
            ) by {
                assert(old(self).spec_issuance(c2) == sum_for(old(self).accounts@, c2));
            }
        }
        Ok(())
    }

    /// Move `amount` from the free balance of `account` into its reserved
    /// balance. Total issuance does not change.
    pub fn reserve(&mut self, currency_id: u64, account: u64, amount: u64) -> (r: Result<
        (),
        LedgerError,
    >)
        requires
            old(self).wf(),
        ensures
            final(self).wf(),
            (r is Err) <==> old(self).spec_free(currency_id, account) < amount,
            r is Err ==> r == Err::<(), LedgerError>(LedgerError::InsufficientFree) && *final(self)
                == *old(self),
            r is Ok ==> final(self).spec_free(currency_id, account) == old(self).spec_free(
                currency_id,
                account,
            ) - amount,
            r is Ok ==> final(self).spec_reserved(currency_id, account) == old(self).spec_reserved(
                currency_id,
                account,
            ) + amount,
            forall|c2: u64, a2: u64|
                !(c2 == currency_id && a2 == account) ==> final(self).spec_free(c2, a2) == old(self).spec_free(c2, a2) && final(self).spec_reserved(c2, a2) == old(self).spec_reserved(
                    c2,
                    a2,
                ),
            forall|c2: u64| final(self).spec_issuance(c2) == old(self).spec_issuance(c2),
    {
        let f = self.free_balance(currency_id, account);
        if f < amount {
            return Err(LedgerError::InsufficientFree);
        }
        let rv = self.reserved_balance(currency_id, account);
        proof {
            lemma_bal_le_sum(self.accounts@, currency_id, account);
            assert(old(self).spec_issuance(currency_id) == sum_for(
                old(self).accounts@,
                currency_id,
            ));
        }
        self.set_account(currency_id, account, f - amount, rv + amount);
        proof {
            assert forall|c2: u64| #[trigger] self.spec_issuance(c2) == sum_for(
                self.accounts@,
                c2,
            ) by {
                assert(old(self).spec_issuance(c2) == sum_for(old(self).accounts@, c2));
            }
        }
        Ok(())
    }

    /// Move `amount` from the reserved balance of `account` back into its
    /// free balance. Total issuance does not change.
    pub fn unreserve(&mut self, currency_id: u64, account: u64, amount: u64) -> (r: Result<
        (),
        LedgerError,
    >)
        requires
            old(self).wf(),
        ensures
            final(self).wf(),
            (r is Err) <==> old(self).spec_reserved(currency_id, account) < amount,
            r is Err ==> r == Err::<(), LedgerError>(LedgerError::InsufficientReserved) && *final(self) == *old(self),
            r is Ok ==> final(self).spec_reserved(currency_id, account) == old(self).spec_reserved(
                currency_id,
                account,
            ) - amount,
            r is Ok ==> final(self).spec_free(currency_id, account) == old(self).spec_free(
                currency_id,
                account,
            ) + amount,
            forall|c2: u64, a2: u64|
                !(c2 == currency_id && a2 == account) ==> final(self).spec_free(c2, a2) == old(self).spec_free(c2, a2) && final(self).spec_reserved(c2, a2) == old(self).spec_reserved(
                    c2,
                    a2,
                ),
            forall|c2: u64| final(self).spec_issuance(c2) == old(self).spec_issuance(c2),
    {
        let rv = self.reserved_balance(currency_id, account);
        if rv < amount {
            return Err(LedgerError::InsufficientReserved);
        }
        let f = self.free_balance(currency_id, account);
        proof {
            lemma_bal_le_sum(self.accounts@, currency_id, account);
            assert(old(self).spec_issuance(currency_id) == sum_for(
                old(self).accounts@,
                currency_id,
            ));
        }
        self.set_account(currency_id, account, f + amount, rv - amount);
        proof {
            assert forall|c2: u64| #[trigger] self.spec_issuance(c2) == sum_for(
                self.accounts@,
                c2,
            ) by {
                assert(old(self).spec_issuance(c2) == sum_for(old(self).accounts@, c2));
            }
        }
        Ok(())
    }

    /// Move `amount` of free balance from `from` to `to` within one
    /// currency. Total issuance does not change.
    pub fn transfer(&mut self, currency_id: u64, from: u64, to: u64, amount: u64) -> (r: Result<
        (),
        LedgerError,
    >)
        requires
            old(self).wf(),
        ensures
            final(self).wf(),
            (r is Err) <==> old(self).spec_free(currency_id, from) < amount,
            r is Err ==> r == Err::<(), LedgerError>(LedgerError::InsufficientFree) && *final(self)
                == *old(self),
            r is Ok && from == to ==> *final(self) == *old(self),
            r is Ok && from != to ==> final(self).spec_free(currency_id, from) == old(self).spec_free(currency_id, from) - amount,
            r is Ok && from != to ==> final(self).spec_free(currency_id, to) == old(self).spec_free(
                currency_id,
                to,
            ) + amount,
            forall|c2: u64, a2: u64|
                !(c2 == currency_id && (a2 == from || a2 == to)) ==> final(self).spec_free(c2, a2)
                    == old(self).spec_free(c2, a2),
            forall|c2: u64, a2: u64|
                final(self).spec_reserved(c2, a2) == old(self).spec_reserved(c2, a2),
            forall|c2: u64| final(self).spec_issuance(c2) == old(self).spec_issuance(c2),
    {
        let f_from = self.free_balance(currency_id, from);
        if f_from < amount {
            return Err(LedgerError::InsufficientFree);
        }
        if from == to {
            return Ok(());
        }
        let r_from = self.reserved_balance(currency_id, from);
        proof {
            lemma_bal_le_sum(self.accounts@, currency_id, from);
            assert(old(self).spec_issuance(currency_id) == sum_for(
                old(self).accounts@,
                currency_id,
            ));
        }
        self.set_account(currency_id, from, f_from - amount, r_from);
        let f_to = self.free_balance(currency_id, to);
        let r_to = self.reserved_balance(currency_id, to);
        proof {
            lemma_bal_le_sum(self.accounts@, currency_id, to);
        }
        self.set_account(currency_id, to, f_to + amount, r_to);
        proof {
            assert forall|c2: u64| #[trigger] self.spec_issuance(c2) == sum_for(
                self.accounts@,
                c2,
            ) by {
                assert(old(self).spec_issuance(c2) == sum_for(old(self).accounts@, c2));
            }
        }
        Ok(())
    }
}

/// The ledger invariant, stated on its own: a well-formed ledger records,
/// for every currency, a total issuance equal to the sum of the free and
/// reserved balances that all accounts together hold in that currency.
pub proof fn lemma_issuance_matches_accounts(l: Ledger, c: u64)
    requires
        l.wf(),
    ensures
        l.spec_issuance(c) == sum_for(l.accounts@, c),
{
}

/// When no entry records currency `c`, the issuance lookup finds nothing.
proof fn lemma_issuance_in_none(s: Seq<IssuanceEntry>, c: u64)
    requires
        forall|k: int| 0 <= k < s.len() ==> (#[trigger] s[k]).currency != c,
    ensures
        issuance_in(s, c) is None,
    decreases s.len(),
{
    if s.len() > 0 {
        lemma_issuance_in_none(s.skip(1), c);
    }
}

/// Overwriting the first issuance entry of a currency changes that
/// currency's issuance and nothing else.
proof fn lemma_issuance_in_update(s: Seq<IssuanceEntry>, i: int, e: IssuanceEntry)
    requires
        0 <= i < s.len(),
        s[i].currency == e.currency,
        forall|k: int| 0 <= k < i ==> (#[trigger] s[k]).currency != e.currency,
    ensures
        issuance_in(s.update(i, e), e.currency) == Some(e.amount),
        forall|c2: u64|
            c2 != e.currency ==> issuance_in(s.update(i, e), c2) == issuance_in(s, c2),
    decreases i,
{
    let updated = s.update(i, e);
    if i == 0 {
        assert(updated.skip(1) =~= s.skip(1));
        assert forall|c2: u64| c2 != e.currency implies issuance_in(updated, c2) == issuance_in(
            s,
            c2,
        ) by {
            assert(issuance_in(updated, c2) == issuance_in(updated.skip(1), c2));
            assert(issuance_in(s, c2) == issuance_in(s.skip(1), c2));
        }
    } else {
        assert(updated[0] == s[0]);
        assert(updated.skip(1) =~= s.skip(1).update(i - 1, e));
        assert(forall|k: int|
            0 <= k < i - 1 ==> (#[trigger] s.skip(1)[k]).currency != e.currency);
        lemma_issuance_in_update(s.skip(1), i - 1, e);
        assert(issuance_in(updated, e.currency) == Some(e.amount));
        assert forall|c2: u64| c2 != e.currency implies issuance_in(updated, c2) == issuance_in(
            s,
            c2,
        ) by {
            if s[0].currency == c2 {
                assert(issuance_in(updated, c2) == Some(s[0].amount));
            } else {
                assert(issuance_in(updated, c2) == issuance_in(updated.skip(1), c2));
                assert(issuance_in(s, c2) == issuance_in(s.skip(1), c2));
            }
        }
    }
}

/// Appending an issuance entry for a currency with no earlier entry records
/// that currency's issuance and changes nothing else.
proof fn lemma_issuance_in_push(s: Seq<IssuanceEntry>, e: IssuanceEntry)
    requires
        forall|k: int| 0 <= k < s.len() ==> (#[trigger] s[k]).currency != e.currency,
    ensures
        issuance_in(s.push(e), e.currency) == Some(e.amount),
        forall|c2: u64| c2 != e.currency ==> issuance_in(s.push(e), c2) == issuance_in(s, c2),
    decreases s.len(),
{
    let pushed = s.push(e);
    if s.len() == 0 {
        assert(pushed[0] == e);
        assert(pushed.skip(1) =~= s);
        assert forall|c2: u64| c2 != e.currency implies issuance_in(pushed, c2) == issuance_in(
            s,
            c2,
        ) by {
            assert(issuance_in(pushed, c2) == issuance_in(pushed.skip(1), c2));
        }
    } else {
        assert(pushed[0] == s[0]);
        assert(pushed.skip(1) =~= s.skip(1).push(e));
        lemma_issuance_in_push(s.skip(1), e);
        assert(issuance_in(pushed, e.currency) == Some(e.amount));
        assert forall|c2: u64| c2 != e.currency implies issuance_in(pushed, c2) == issuance_in(
            s,
            c2,
        ) by {
            if s[0].currency == c2 {
                assert(issuance_in(pushed, c2) == Some(s[0].amount));
            } else {
                assert(issuance_in(pushed, c2) == issuance_in(pushed.skip(1), c2));
                assert(issuance_in(s, c2) == issuance_in(s.skip(1), c2));
            }
        }
    }
}

} // verus!
