use vstd::prelude::*;

use crate::bytestr::bytes_eq;
use crate::bytestr::bytes_copy;

verus! {

/// One cumulative amount for one denomination.
pub struct DenomAmount {
    pub denom: Vec<u8>,
    pub amount: u128,
}

/// Per-denomination cumulative fee amounts, one entry per denomination.
pub struct DenomTally {
    pub entries: Vec<DenomAmount>,
}

/// Sum of every recorded amount for denomination `d`.
pub open spec fn denom_sum(es: Seq<DenomAmount>, d: Seq<u8>) -> int
    decreases es.len(),
{
    if es.len() == 0 {
        0
    } else {
        (if es.last().denom@ == d {
            es.last().amount as int
        } else {
            0
        }) + denom_sum(es.drop_last(), d)
    }
}

pub proof fn lemma_denom_sum_push(es: Seq<DenomAmount>, e: DenomAmount, d: Seq<u8>)
    ensures
        denom_sum(es.push(e), d) == denom_sum(es, d) + (if e.denom@ == d {
            e.amount as int
        } else {
            0
        }),
{
    assert(es.push(e).drop_last() =~= es);
}

pub proof fn lemma_denom_sum_update(es: Seq<DenomAmount>, k: int, e: DenomAmount, d: Seq<u8>)
    requires
        0 <= k < es.len(),
        es[k].denom@ == e.denom@,
    ensures
        denom_sum(es.update(k, e), d) == denom_sum(es, d) + (if e.denom@ == d {
            e.amount - es[k].amount
        } else {
            0
        }),
    decreases es.len(),
{
    let up = es.update(k, e);
    if k == es.len() - 1 {
        assert(up.drop_last() =~= es.drop_last());
        assert(up.last() == e);
    } else {
        assert(up.drop_last() =~= es.drop_last().update(k, e));
        assert(up.last() == es.last());
        lemma_denom_sum_update(es.drop_last(), k, e, d);
    }
}

pub proof fn lemma_denom_sum_absent(es: Seq<DenomAmount>, d: Seq<u8>)
    requires
        forall|j: int| 0 <= j < es.len() ==> es[j].denom@ != d,
    ensures
        denom_sum(es, d) == 0,
    decreases es.len(),
{
    if es.len() > 0 {
        assert(forall|j: int|
            0 <= j < es.drop_last().len() ==> es.drop_last()[j].denom@ != d);
        lemma_denom_sum_absent(es.drop_last(), d);
    }
}

pub proof fn lemma_denom_sum_at(es: Seq<DenomAmount>, k: int)
    requires
        0 <= k < es.len(),
        forall|j1: int, j2: int|
            0 <= j1 < j2 < es.len() ==> es[j1].denom@ != es[j2].denom@,
    ensures
        denom_sum(es, es[k].denom@) == es[k].amount,
    decreases es.len(),
{
    let d = es[k].denom@;
    if k == es.len() - 1 {
        assert(forall|j: int| 0 <= j < es.drop_last().len() ==> es.drop_last()[j].denom@ != d);
        lemma_denom_sum_absent(es.drop_last(), d);
    } else {
        assert(es.last().denom@ != d);
        assert(es.drop_last()[k] == es[k]);
        lemma_denom_sum_at(es.drop_last(), k);
    }
}

impl DenomTally {
    /// One entry per denomination.
    pub open spec fn wf(self) -> bool {
        forall|j1: int, j2: int|
            0 <= j1 < j2 < self.entries@.len() ==> self.entries@[j1].denom@
                != self.entries@[j2].denom@
    }

    /// Cumulative amount recorded for denomination `d`.
    pub open spec fn sum_of(self, d: Seq<u8>) -> int {
        denom_sum(self.entries@, d)
    }

    pub fn new() -> (r: DenomTally)
        ensures
            r.wf(),
            forall|d: Seq<u8>| r.sum_of(d) == 0,
    {
        DenomTally { entries: Vec::new() }
    }

    /// Adds `amount` under `denom`; reports failure without change when the
    /// running sum would not fit in 128 bits.
    pub fn add(&mut self, denom: &Vec<u8>, amount: u128) -> (ok: bool)
        requires
            old(self).wf(),
        ensures
            final(self).wf(),
            ok ==> forall|d: Seq<u8>|
                final(self).sum_of(d) == old(self).sum_of(d) + (if d == denom@ {
                    amount as int
                } else {
                    0
                }),
            !ok ==> *final(self) == *old(self) && old(self).sum_of(denom@) + amount > u128::MAX,
    {
        let n = self.entries.len();
        let mut k: usize = 0;
        while k < n
            invariant
                *self == *old(self),
                n == self.entries@.len(),
                0 <= k <= n,
                forall|j: int| 0 <= j < k ==> self.entries@[j].denom@ != denom@,
            decreases n - k,
        {
            if bytes_eq(&self.entries[k].denom, denom) {
                let cur: u128 = self.entries[k].amount;
                proof {
                    lemma_denom_sum_at(self.entries@, k as int);
                }
                match cur.checked_add(amount) {
                    Some(v) => {
                        let d2 = bytes_copy(&self.entries[k].denom);
                        let e = DenomAmount { denom: d2, amount: v };
                        proof {
                            assert(e.denom@ == self.entries@[k as int].denom@);
                            assert(forall|d: Seq<u8>|
                                denom_sum(self.entries@.update(k as int, e), d) == denom_sum(
                                    self.entries@,
                                    d,
                                ) + (if d == denom@ {
                                    amount as int
                                } else {
                                    0
                                })) by {
                                assert forall|d: Seq<u8>| true implies denom_sum(
                                    self.entries@.update(k as int, e),
                                    d,
                                ) == denom_sum(self.entries@, d) + (if d == denom@ {
                                    amount as int
                                } else {
                                    0
                                }) by {
                                    lemma_denom_sum_update(self.entries@, k as int, e, d);
                                }
                            }
                        }
                        self.entries[k] = e;
                        return true;
                    },
                    None => {
                        return false;
                    },
                }
            }
            k = k + 1;
        }
        proof {
            lemma_denom_sum_absent(self.entries@, denom@);
        }
        let e = DenomAmount { denom: bytes_copy(denom), amount };
        proof {
            assert(forall|d: Seq<u8>| #![auto]
                denom_sum(self.entries@.push(e), d) == denom_sum(self.entries@, d) + (if d
                    == denom@ {
                    amount as int
                } else {
                    0
                })) by {
                assert forall|d: Seq<u8>| true implies denom_sum(self.entries@.push(e), d)
                    == denom_sum(self.entries@, d) + (if d == denom@ {
                    amount as int
                } else {
                    0
                }) by {
                    lemma_denom_sum_push(self.entries@, e, d);
                }
            }
        }
        self.entries.push(e);
        true
    }
}

/// With one entry per denomination, a stored sum always fits in 128 bits.
pub proof fn lemma_denom_sum_in_range(es: Seq<DenomAmount>, d: Seq<u8>)
    requires
        forall|j1: int, j2: int|
            0 <= j1 < j2 < es.len() ==> es[j1].denom@ != es[j2].denom@,
    ensures
        0 <= denom_sum(es, d) <= u128::MAX,
    decreases es.len(),
{
    if es.len() > 0 {
        assert(forall|j1: int, j2: int|
            0 <= j1 < j2 < es.drop_last().len() ==> es.drop_last()[j1].denom@
                != es.drop_last()[j2].denom@);
        lemma_denom_sum_in_range(es.drop_last(), d);
        if es.last().denom@ == d {
            assert(forall|j: int|
                0 <= j < es.drop_last().len() ==> es.drop_last()[j].denom@ != d);
            lemma_denom_sum_absent(es.drop_last(), d);
        }
    }
}

impl DenomTally {
    /// Reads the cumulative amount for one denomination.
    pub fn amount_of(&self, denom: &Vec<u8>) -> (r: u128)
        requires
            self.wf(),
        ensures
            r as int == self.sum_of(denom@),
    {
        let n = self.entries.len();
        let mut k: usize = 0;
        while k < n
            invariant
                n == self.entries@.len(),
                0 <= k <= n,
                forall|j: int| 0 <= j < k ==> self.entries@[j].denom@ != denom@,
            decreases n - k,
        {
            if bytes_eq(&self.entries[k].denom, denom) {
                proof {
                    lemma_denom_sum_at(self.entries@, k as int);
                }
                return self.entries[k].amount;
            }
            k = k + 1;
        }
        proof {
            lemma_denom_sum_absent(self.entries@, denom@);
        }
        0
    }
}

/// One account's cumulative fees.
pub struct AccountEntry {
    pub account: Vec<u8>,
    pub fees: DenomTally,
}

/// Per-account, per-denomination cumulative fee amounts.
pub struct AccountTally {
    pub entries: Vec<AccountEntry>,
}

/// Sum of every amount recorded for account `a` under denomination `d`.
pub open spec fn account_sum(es: Seq<AccountEntry>, a: Seq<u8>, d: Seq<u8>) -> int
    decreases es.len(),
{
    if es.len() == 0 {
        0
    } else {
        (if es.last().account@ == a {
            denom_sum(es.last().fees.entries@, d)
        } else {
            0
        }) + account_sum(es.drop_last(), a, d)
    }
}

pub proof fn lemma_account_sum_push(es: Seq<AccountEntry>, e: AccountEntry, a: Seq<u8>, d: Seq<u8>)
    ensures
        account_sum(es.push(e), a, d) == account_sum(es, a, d) + (if e.account@ == a {
            denom_sum(e.fees.entries@, d)
        } else {
            0
        }),
{
    assert(es.push(e).drop_last() =~= es);
}

pub proof fn lemma_account_sum_update(es: Seq<AccountEntry>, k: int, e: AccountEntry, a: Seq<u8>, d: Seq<u8>)
    requires
        0 <= k < es.len(),
        es[k].account@ == e.account@,
    ensures
        account_sum(es.update(k, e), a, d) == account_sum(es, a, d) + (if e.account@ == a {
            denom_sum(e.fees.entries@, d) - denom_sum(es[k].fees.entries@, d)
        } else {
            0
        }),
    decreases es.len(),
{
    let up = es.update(k, e);
    if k == es.len() - 1 {
        assert(up.drop_last() =~= es.drop_last());
        assert(up.last() == e);
    } else {
        assert(up.drop_last() =~= es.drop_last().update(k, e));
        assert(up.last() == es.last());
        lemma_account_sum_update(es.drop_last(), k, e, a, d);
    }
}

pub proof fn lemma_account_sum_absent(es: Seq<AccountEntry>, a: Seq<u8>, d: Seq<u8>)
    requires
        forall|j: int| 0 <= j < es.len() ==> es[j].account@ != a,
    ensures
        account_sum(es, a, d) == 0,
    decreases es.len(),
{
    if es.len() > 0 {
        assert(forall|j: int|
            0 <= j < es.drop_last().len() ==> es.drop_last()[j].account@ != a);
        lemma_account_sum_absent(es.drop_last(), a, d);
    }
}

pub proof fn lemma_account_sum_at(es: Seq<AccountEntry>, k: int, d: Seq<u8>)
    requires
        0 <= k < es.len(),
        forall|j1: int, j2: int|
            0 <= j1 < j2 < es.len() ==> es[j1].account@ != es[j2].account@,
    ensures
        account_sum(es, es[k].account@, d) == denom_sum(es[k].fees.entries@, d),
    decreases es.len(),
{
    let a = es[k].account@;
    if k == es.len() - 1 {
        assert(forall|j: int| 0 <= j < es.drop_last().len() ==> es.drop_last()[j].account@ != a);
        lemma_account_sum_absent(es.drop_last(), a, d);
    } else {
        assert(es.last().account@ != a);
        assert(es.drop_last()[k] == es[k]);
        lemma_account_sum_at(es.drop_last(), k, d);
    }
}

/// Whether some entry carries account `a`.
pub open spec fn has_account(es: Seq<AccountEntry>, a: Seq<u8>) -> bool {
    exists|k: int| 0 <= k < es.len() && es[k].account@ == a
}

proof fn lemma_has_account_update(es: Seq<AccountEntry>, k: int, e: AccountEntry)
    requires
        0 <= k < es.len(),
        es[k].account@ == e.account@,
    ensures
        forall|a: Seq<u8>| has_account(es.update(k, e), a) == has_account(es, a),
{
    assert forall|a: Seq<u8>| has_account(es.update(k, e), a) == has_account(es, a) by {
        if has_account(es.update(k, e), a) {
            let w = choose|w: int| 0 <= w < es.update(k, e).len() && es.update(k, e)[w].account@ == a;
            assert(es[w].account@ == a);
            assert(has_account(es, a));
        }
        if has_account(es, a) {
            let w = choose|w: int| 0 <= w < es.len() && es[w].account@ == a;
            assert(es.update(k, e)[w].account@ == a);
            assert(has_account(es.update(k, e), a));
        }
    }
}

proof fn lemma_has_account_push(es: Seq<AccountEntry>, e: AccountEntry)
    ensures
        forall|a: Seq<u8>|
            #[trigger] has_account(es.push(e), a) ==> a == e.account@ || has_account(es, a),
        has_account(es.push(e), e.account@),
        forall|a: Seq<u8>| #[trigger] has_account(es, a) ==> has_account(es.push(e), a),
{
    assert forall|a: Seq<u8>| #[trigger] has_account(es.push(e), a) implies a == e.account@
        || has_account(es, a) by {
        let w = choose|w: int| 0 <= w < es.push(e).len() && es.push(e)[w].account@ == a;
        if w < es.len() {
            assert(es[w].account@ == a);
            assert(has_account(es, a));
        } else {
            assert(es.push(e)[w] == e);
        }
    }
    assert(es.push(e)[es.len() as int].account@ == e.account@);
    assert forall|a: Seq<u8>| #[trigger] has_account(es, a) implies has_account(
        es.push(e),
        a,
    ) by {
        let w = choose|w: int| 0 <= w < es.len() && es[w].account@ == a;
        assert(es.push(e)[w].account@ == a);
    }
}

pub proof fn lemma_account_seq_in_range(es: Seq<AccountEntry>, a: Seq<u8>, d: Seq<u8>)
    requires
        forall|j1: int, j2: int|
            0 <= j1 < j2 < es.len() ==> es[j1].account@ != es[j2].account@,
        forall|j: int| 0 <= j < es.len() ==> (#[trigger] es[j]).fees.wf(),
    ensures
        0 <= account_sum(es, a, d) <= u128::MAX,
    decreases es.len(),
{
    if es.len() > 0 {
        assert(forall|j1: int, j2: int|
            0 <= j1 < j2 < es.drop_last().len() ==> es.drop_last()[j1].account@
                != es.drop_last()[j2].account@);
        assert(forall|j: int|
            0 <= j < es.drop_last().len() ==> (#[trigger] es.drop_last()[j]).fees.wf());
        lemma_account_seq_in_range(es.drop_last(), a, d);
        if es.last().account@ == a {
            assert(forall|j: int|
                0 <= j < es.drop_last().len() ==> es.drop_last()[j].account@ != a);
            lemma_account_sum_absent(es.drop_last(), a, d);
            assert(es.last().fees.wf());
            lemma_denom_sum_in_range(es.last().fees.entries@, d);
        }
    }
}

/// A well-formed tally's sums always fit in 128 bits.
pub proof fn lemma_account_sum_in_range(t: AccountTally, a: Seq<u8>, d: Seq<u8>)
    requires
        t.wf(),
    ensures
        0 <= t.sum_of(a, d) <= u128::MAX,
{
    lemma_account_seq_in_range(t.entries@, a, d);
}

impl AccountTally {
    /// One entry per account, each well formed.
    pub open spec fn wf(self) -> bool {
        &&& forall|j1: int, j2: int|
            0 <= j1 < j2 < self.entries@.len() ==> self.entries@[j1].account@
                != self.entries@[j2].account@
        &&& forall|j: int| 0 <= j < self.entries@.len() ==> (#[trigger] self.entries@[j]).fees.wf()
    }

    /// Cumulative amount recorded for account `a` under denomination `d`.
    pub open spec fn sum_of(self, a: Seq<u8>, d: Seq<u8>) -> int {
        account_sum(self.entries@, a, d)
    }

    pub fn new() -> (r: AccountTally)
        ensures
            r.wf(),
            r.entries@.len() == 0,
            forall|a: Seq<u8>, d: Seq<u8>| r.sum_of(a, d) == 0,
    {
        AccountTally { entries: Vec::new() }
    }

    /// Credits `amount` of `denom` to `account`; reports failure without
    /// change when the running sum would not fit in 128 bits.
    pub fn add(&mut self, account: &Vec<u8>, denom: &Vec<u8>, amount: u128) -> (ok: bool)
        requires
            old(self).wf(),
        ensures
            final(self).wf(),
            final(self).entries@.len() >= old(self).entries@.len(),
            ok ==> forall|a: Seq<u8>, d: Seq<u8>|
                final(self).sum_of(a, d) == old(self).sum_of(a, d) + (if a == account@ && d
                    == denom@ {
                    amount as int
                } else {
                    0
                }),
            !ok ==> final(self).entries@ == old(self).entries@ && old(self).sum_of(
                account@,
                denom@,
            ) + amount > u128::MAX,
            forall|a: Seq<u8>|
                has_account(final(self).entries@, a) == ((ok && a == account@) || has_account(
                    old(self).entries@,
                    a,
                )),
    {
        let n = self.entries.len();
        let mut k: usize = 0;
        while k < n
            invariant
                *self == *old(self),
                n == self.entries@.len(),
                0 <= k <= n,
                forall|j: int| 0 <= j < k ==> self.entries@[j].account@ != account@,
            decreases n - k,
        {
            if bytes_eq(&self.entries[k].account, account) {
                let ghost old_entries = self.entries@;
                proof {
                    assert forall|d: Seq<u8>| true implies account_sum(old_entries, account@, d)
                        == old_entries[k as int].fees.sum_of(d) by {
                        lemma_account_sum_at(old_entries, k as int, d);
                    }
                }
                let ok = self.entries[k].fees.add(denom, amount);
                proof {
                    let e = self.entries@[k as int];
                    assert(self.entries@ =~= old_entries.update(k as int, e));
                    assert(e.account@ == old_entries[k as int].account@);
                    if ok {
                        assert forall|a: Seq<u8>, d: Seq<u8>| true implies account_sum(
                            self.entries@,
                            a,
                            d,
                        ) == account_sum(old_entries, a, d) + (if a == account@ && d == denom@ {
                            amount as int
                        } else {
                            0
                        }) by {
                            lemma_account_sum_update(old_entries, k as int, e, a, d);
                            assert(e.fees.sum_of(d) == old_entries[k as int].fees.sum_of(d) + (
                            if d == denom@ {
                                amount as int
                            } else {
                                0
                            }));
                        }
                    } else {
                        assert(e == old_entries[k as int]);
                        assert(self.entries@ =~= old_entries);
                    }
                    lemma_has_account_update(old_entries, k as int, e);
                    assert(old_entries[k as int].account@ == account@);
                    assert(has_account(old_entries, account@));
                    assert forall|a: Seq<u8>| has_account(self.entries@, a) == ((ok && a
                        == account@) || has_account(old_entries, a)) by {
                        assert(has_account(self.entries@, a) == has_account(
                            old_entries.update(k as int, e),
                            a,
                        ));
                    }
                }
                return ok;
            }
            k = k + 1;
        }
        proof {
            lemma_account_sum_absent(self.entries@, account@, denom@);
        }
        let mut fees = DenomTally::new();
        let ok = fees.add(denom, amount);
        let e = AccountEntry { account: bytes_copy(account), fees };
        proof {
            assert forall|a: Seq<u8>, d: Seq<u8>| true implies account_sum(
                self.entries@.push(e),
                a,
                d,
            ) == account_sum(self.entries@, a, d) + (if a == account@ && d == denom@ {
                amount as int
            } else {
                0
            }) by {
                lemma_account_sum_push(self.entries@, e, a, d);
                assert(e.fees.sum_of(d) == (if d == denom@ {
                    amount as int
                } else {
                    0
                }));
                if a == account@ {
                    lemma_account_sum_absent(self.entries@, a, d);
                }
            }
        }
        let ghost pre = self.entries@;
        self.entries.push(e);
        proof {
            lemma_has_account_push(pre, e);
            assert(self.entries@ == pre.push(e));
            assert forall|a: Seq<u8>| has_account(self.entries@, a) == ((a == account@)
                || has_account(pre, a)) by {
                assert(has_account(self.entries@, a) == has_account(pre.push(e), a));
                if a == account@ {
                    assert(has_account(pre.push(e), e.account@));
                }
                if has_account(pre, a) {
                    assert(has_account(pre.push(e), a));
                }
            }
        }
        true
    }
}

} // verus!
