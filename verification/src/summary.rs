use vstd::prelude::*;

use crate::bytestr::{bytes_copy, bytes_eq, split_bytes, split_exec, views};
use crate::coin::{coin_token_ok, parse_coin, token_amount, token_denom, Coin};
use crate::digits::{dec_value, parse_u64};
use crate::tally::{denom_sum, DenomTally};

verus! {

/// A condition fatal to summarization.
#[derive(Clone, Copy, Debug, PartialEq, Eq, Structural)]
pub enum SummaryError {
    /// A data line's leading block height did not parse.
    BadHeight,
    /// A running count or fee sum does not fit its machine word.
    Overflow,
}

/// One account's summary: how many records were attributed to it and its
/// cumulative fees per denomination.
pub struct FeeSummary {
    pub count: usize,
    pub fees: DenomTally,
}

impl FeeSummary {
    pub open spec fn wf(self) -> bool {
        self.fees.wf()
    }

    /// A summary opened by its first coin: one record counted, that coin's
    /// amount recorded.
    pub fn create(coin: &Coin) -> (r: FeeSummary)
        ensures
            r.wf(),
            r.count == 1,
            forall|d: Seq<u8>|
                r.fees.sum_of(d) == if d == coin@.denom {
                    coin@.amount as int
                } else {
                    0
                },
    {
        let mut fees = DenomTally::new();
        let _ok = fees.add(&coin.denom, coin.amount);
        FeeSummary { count: 1, fees }
    }

    /// Counts one more record and folds one coin into the fees.
    pub fn add_fee(&mut self, coin: &Coin) -> (ok: bool)
        requires
            old(self).wf(),
        ensures
            final(self).wf(),
            ok ==> final(self).count == old(self).count + 1 && forall|d: Seq<u8>|
                final(self).fees.sum_of(d) == old(self).fees.sum_of(d) + (if d == coin@.denom {
                    coin@.amount as int
                } else {
                    0
                }),
            !ok ==> final(self).count == old(self).count && final(self).fees.entries@ == old(
                self,
            ).fees.entries@ && (old(self).count == usize::MAX || old(self).fees.sum_of(coin@.denom)
                + coin@.amount > u128::MAX),
    {
        let c = match self.count.checked_add(1) {
            Some(c) => c,
            None => {
                return false;
            },
        };
        let ok = self.fees.add(&coin.denom, coin.amount);
        if ok {
            self.count = c;
        }
        ok
    }

    /// Folds one coin into the fees without counting a record.
    pub fn add_coin(&mut self, coin: &Coin) -> (ok: bool)
        requires
            old(self).wf(),
        ensures
            final(self).wf(),
            final(self).count == old(self).count,
            ok ==> forall|d: Seq<u8>|
                final(self).fees.sum_of(d) == old(self).fees.sum_of(d) + (if d == coin@.denom {
                    coin@.amount as int
                } else {
                    0
                }),
            !ok ==> final(self).fees.entries@ == old(self).fees.entries@ && old(self).fees.sum_of(
                coin@.denom,
            ) + coin@.amount > u128::MAX,
    {
        self.fees.add(&coin.denom, coin.amount)
    }
}

/// One account of the offline summary.
pub struct AccountSummary {
    pub account: Vec<u8>,
    pub summary: FeeSummary,
}

/// Number of records attributed to account `a`.
pub open spec fn count_sum(es: Seq<AccountSummary>, a: Seq<u8>) -> int
    decreases es.len(),
{
    if es.len() == 0 {
        0
    } else {
        (if es.last().account@ == a {
            es.last().summary.count as int
        } else {
            0
        }) + count_sum(es.drop_last(), a)
    }
}

/// Fees recorded for account `a` under denomination `d`.
pub open spec fn fees_sum(es: Seq<AccountSummary>, a: Seq<u8>, d: Seq<u8>) -> int
    decreases es.len(),
{
    if es.len() == 0 {
        0
    } else {
        (if es.last().account@ == a {
            denom_sum(es.last().summary.fees.entries@, d)
        } else {
            0
        }) + fees_sum(es.drop_last(), a, d)
    }
}

proof fn lemma_sums_push(es: Seq<AccountSummary>, e: AccountSummary, a: Seq<u8>, d: Seq<u8>)
    ensures
        count_sum(es.push(e), a) == count_sum(es, a) + (if e.account@ == a {
            e.summary.count as int
        } else {
            0
        }),
        fees_sum(es.push(e), a, d) == fees_sum(es, a, d) + (if e.account@ == a {
            denom_sum(e.summary.fees.entries@, d)
        } else {
            0
        }),
{
    assert(es.push(e).drop_last() =~= es);
}

proof fn lemma_sums_update(es: Seq<AccountSummary>, k: int, e: AccountSummary, a: Seq<u8>, d: Seq<u8>)
    requires
        0 <= k < es.len(),
        es[k].account@ == e.account@,
    ensures
        count_sum(es.update(k, e), a) == count_sum(es, a) + (if e.account@ == a {
            e.summary.count - es[k].summary.count
        } else {
            0
        }),
        fees_sum(es.update(k, e), a, d) == fees_sum(es, a, d) + (if e.account@ == a {
            denom_sum(e.summary.fees.entries@, d) - denom_sum(es[k].summary.fees.entries@, d)
        } else {
            0
        }),
    decreases es.len(),
{
    let up = es.update(k, e);
    if k == es.len() - 1 {
        assert(up.drop_last() =~= es.drop_last());
        assert(up.last() == e);
    } else {
        assert(up.drop_last() =~= es.drop_last().update(k, e));
        assert(up.last() == es.last());
        lemma_sums_update(es.drop_last(), k, e, a, d);
    }
}

proof fn lemma_sums_absent(es: Seq<AccountSummary>, a: Seq<u8>, d: Seq<u8>)
    requires
        forall|j: int| 0 <= j < es.len() ==> es[j].account@ != a,
    ensures
        count_sum(es, a) == 0,
        fees_sum(es, a, d) == 0,
    decreases es.len(),
{
    if es.len() > 0 {
        assert(forall|j: int| 0 <= j < es.drop_last().len() ==> es.drop_last()[j].account@ != a);
        lemma_sums_absent(es.drop_last(), a, d);
    }
}

proof fn lemma_sums_at(es: Seq<AccountSummary>, k: int, d: Seq<u8>)
    requires
        0 <= k < es.len(),
        forall|j1: int, j2: int|
            0 <= j1 < j2 < es.len() ==> es[j1].account@ != es[j2].account@,
    ensures
        count_sum(es, es[k].account@) == es[k].summary.count,
        fees_sum(es, es[k].account@, d) == denom_sum(es[k].summary.fees.entries@, d),
    decreases es.len(),
{
    let a = es[k].account@;
    if k == es.len() - 1 {
        assert(forall|j: int| 0 <= j < es.drop_last().len() ==> es.drop_last()[j].account@ != a);
        lemma_sums_absent(es.drop_last(), a, d);
    } else {
        assert(es.last().account@ != a);
        assert(es.drop_last()[k] == es[k]);
        lemma_sums_at(es.drop_last(), k, d);
    }
}

/// Sum of the amounts of the well-formed coin tokens with denomination `d`.
pub open spec fn tokens_coin_sum(tokens: Seq<Seq<u8>>, d: Seq<u8>) -> int
    decreases tokens.len(),
{
    if tokens.len() == 0 {
        0
    } else {
        (if coin_token_ok(tokens.last()) && token_denom(tokens.last()) == d {
            token_amount(tokens.last())
        } else {
            0
        }) + tokens_coin_sum(tokens.drop_last(), d)
    }
}

proof fn lemma_token_amount_nonneg(t: Seq<u8>)
    requires
        coin_token_ok(t),
    ensures
        token_amount(t) >= 0,
{
    let p = crate::coin::digit_prefix_len(t);
    crate::coin::lemma_digit_prefix_is_digits(t);
    assert(crate::digits::all_digits(t.take(p))) by {
        assert(forall|j: int| 0 <= j < p ==> crate::digits::is_digit(#[trigger] t.take(p)[j]));
    }
    crate::digits::lemma_dec_value_nonneg(t.take(p));
}

proof fn lemma_tokens_coin_sum_nonneg(tokens: Seq<Seq<u8>>, d: Seq<u8>)
    ensures
        tokens_coin_sum(tokens, d) >= 0,
    decreases tokens.len(),
{
    if tokens.len() > 0 {
        lemma_tokens_coin_sum_nonneg(tokens.drop_last(), d);
        if coin_token_ok(tokens.last()) && token_denom(tokens.last()) == d {
            lemma_token_amount_nonneg(tokens.last());
        }
    }
}

proof fn lemma_tokens_coin_sum_take(tokens: Seq<Seq<u8>>, m: int, d: Seq<u8>)
    requires
        0 <= m <= tokens.len(),
    ensures
        tokens_coin_sum(tokens.take(m), d) <= tokens_coin_sum(tokens, d),
    decreases tokens.len() - m,
{
    if m < tokens.len() {
        lemma_tokens_coin_sum_take(tokens, m + 1, d);
        assert(tokens.take(m + 1).drop_last() =~= tokens.take(m));
        let t = tokens.take(m + 1).last();
        if coin_token_ok(t) && token_denom(t) == d {
            lemma_token_amount_nonneg(t);
        }
    } else {
        assert(tokens.take(m) =~= tokens);
    }
}

/// The comma-separated fields of one input line.
pub open spec fn line_fields(line: Seq<u8>) -> Seq<Seq<u8>> {
    split_bytes(line, 44)
}

/// Whether a field is a block height fitting in 64 bits.
pub open spec fn height_ok(f: Seq<u8>) -> bool {
    f.len() > 0 && crate::digits::all_digits(f) && dec_value(f) <= u64::MAX
}

/// A line that carries a record: at least three fields after the marker.
pub open spec fn is_record_shape(line: Seq<u8>) -> bool {
    line_fields(line).len() >= 3
}

pub open spec fn line_account(line: Seq<u8>) -> Seq<u8> {
    line_fields(line)[1]
}

/// The `|`-separated coin tokens of a record's third field.
pub open spec fn line_tokens(line: Seq<u8>) -> Seq<Seq<u8>> {
    split_bytes(line_fields(line)[2], 124)
}

/// Fees one record adds under denomination `d`.
pub open spec fn line_coin_sum(line: Seq<u8>, d: Seq<u8>) -> int {
    tokens_coin_sum(line_tokens(line), d)
}

/// The offline summarizer: reads the emitted record stream line by line and
/// rebuilds the per-account tally together with the height range seen.
pub struct Summarizer {
    pub start: Option<u64>,
    pub last: Option<u64>,
    pub entries: Vec<AccountSummary>,
}

impl Summarizer {
    /// One entry per account, each well formed.
    pub open spec fn wf(self) -> bool {
        &&& forall|j1: int, j2: int|
            0 <= j1 < j2 < self.entries@.len() ==> self.entries@[j1].account@
                != self.entries@[j2].account@
        &&& forall|j: int|
            0 <= j < self.entries@.len() ==> (#[trigger] self.entries@[j]).summary.wf()
    }

    /// Records attributed to account `a` so far.
    pub open spec fn count_of(self, a: Seq<u8>) -> int {
        count_sum(self.entries@, a)
    }

    /// Fees summed for account `a` under denomination `d` so far.
    pub open spec fn sum_of(self, a: Seq<u8>, d: Seq<u8>) -> int {
        fees_sum(self.entries@, a, d)
    }

    /// Index of the entry for `account`, if one exists.
    fn find_account(&self, account: &Vec<u8>) -> (r: Option<usize>)
        ensures
            match r {
                Some(k) => k < self.entries@.len() && self.entries@[k as int].account@ == account@,
                None => forall|j: int|
                    0 <= j < self.entries@.len() ==> self.entries@[j].account@ != account@,
            },
    {
        let n = self.entries.len();
        let mut k: usize = 0;
        while k < n
            invariant
                n == self.entries@.len(),
                0 <= k <= n,
                forall|j: int| 0 <= j < k ==> self.entries@[j].account@ != account@,
            decreases n - k,
        {
            if bytes_eq(&self.entries[k].account, account) {
                return Some(k);
            }
            k = k + 1;
        }
        None
    }

    pub fn new() -> (r: Summarizer)
        ensures
            r.wf(),
            r.start is None,
            r.last is None,
            r.entries@.len() == 0,
            forall|a: Seq<u8>| r.count_of(a) == 0,
            forall|a: Seq<u8>, d: Seq<u8>| r.sum_of(a, d) == 0,
    {
        Summarizer { start: None, last: None, entries: Vec::new() }
    }

    /// Counts one record for `account` and folds in its coin tokens; tokens
    /// that are not well-formed coins are skipped.
    fn apply_record(&mut self, account: &Vec<u8>, tokens: &Vec<Vec<u8>>) -> (ok: bool)
        requires
            old(self).wf(),
        ensures
            final(self).wf(),
            final(self).start == old(self).start,
            final(self).last == old(self).last,
            ok ==> forall|a: Seq<u8>|
                final(self).count_of(a) == old(self).count_of(a) + (if a == account@ {
                    1int
                } else {
                    0
                }),
            ok ==> forall|a: Seq<u8>, d: Seq<u8>|
                final(self).sum_of(a, d) == old(self).sum_of(a, d) + (if a == account@ {
                    tokens_coin_sum(views(tokens@), d)
                } else {
                    0
                }),
            !ok ==> old(self).count_of(account@) >= usize::MAX || exists|d: Seq<u8>|
                old(self).sum_of(account@, d) + tokens_coin_sum(views(tokens@), d) > u128::MAX,
    {
        let ghost tvs = views(tokens@);
        let n = self.entries.len();
        let found = self.find_account(account);
        let mut k: usize = 0;
        let is_new: bool = found.is_none();
        match found {
            Some(idx) => {
                k = idx;
            },
            None => {},
        }
        if is_new {
            proof {
                lemma_sums_absent(self.entries@, account@, account@);
                assert forall|d: Seq<u8>| true implies fees_sum(self.entries@, account@, d)
                    == 0 by {
                    lemma_sums_absent(self.entries@, account@, d);
                }
            }
            let e = AccountSummary {
                account: bytes_copy(account),
                summary: FeeSummary { count: 0, fees: DenomTally::new() },
            };
            let ghost before = self.entries@;
            let ghost ev = e;
            self.entries.push(e);
            proof {
                assert(self.entries@ == before.push(ev));
                assert(self.entries@[n as int] == ev);
                assert forall|a: Seq<u8>| true implies count_sum(self.entries@, a) == count_sum(
                    before,
                    a,
                ) by {
                    lemma_sums_push(before, ev, a, a);
                    assert(ev.summary.count == 0);
                }
                assert forall|a: Seq<u8>, d: Seq<u8>| true implies fees_sum(self.entries@, a, d)
                    == fees_sum(before, a, d) by {
                    lemma_sums_push(before, ev, a, d);
                    assert(ev.summary.fees.sum_of(d) == 0);
                }
            }
            k = n;
        }
        proof {
            assert(self.entries@[k as int].account@ == account@);
        }
        let ghost entries0 = self.entries@;
        proof {
            assert(entries0[k as int].account@ == account@);
            assert forall|d: Seq<u8>| true implies fees_sum(entries0, account@, d) == denom_sum(
                entries0[k as int].summary.fees.entries@,
                d,
            ) && count_sum(entries0, account@) == entries0[k as int].summary.count by {
                lemma_sums_at(entries0, k as int, d);
            }
        }
        proof {
            lemma_sums_at(entries0, k as int, account@);
        }
        let c = match self.entries[k].summary.count.checked_add(1) {
            Some(c) => c,
            None => {
                return false;
            },
        };
        self.entries[k].summary.count = c;
        proof {
            let e1 = self.entries@[k as int];
            assert(self.entries@ =~= entries0.update(k as int, e1));
            assert forall|a: Seq<u8>| true implies count_sum(self.entries@, a) == count_sum(
                entries0,
                a,
            ) + (if a == account@ {
                1int
            } else {
                0
            }) by {
                lemma_sums_update(entries0, k as int, e1, a, a);
            }
            assert forall|a: Seq<u8>, d: Seq<u8>| true implies fees_sum(self.entries@, a, d)
                == fees_sum(entries0, a, d) by {
                lemma_sums_update(entries0, k as int, e1, a, d);
            }
        }
        let ghost entries1 = self.entries@;
        let m = tokens.len();
        let mut j: usize = 0;
        while j < m
            invariant
                0 <= j <= m,
                m == tvs.len(),
                tvs == views(tokens@),
                0 <= k < self.entries@.len(),
                self.entries@.len() == entries1.len(),
                self.entries@[k as int].account@ == account@,
                self.wf(),
                self.start == old(self).start,
                self.last == old(self).last,
                forall|a: Seq<u8>|
                    count_sum(self.entries@, a) == count_sum(entries1, a),
                forall|a: Seq<u8>, d: Seq<u8>|
                    fees_sum(self.entries@, a, d) == fees_sum(entries1, a, d) + (if a == account@ {
                        tokens_coin_sum(tvs.take(j as int), d)
                    } else {
                        0
                    }),
            decreases m - j,
        {
            proof {
                assert(tvs[j as int] == tokens@[j as int]@);
                assert(tvs.take(j + 1).drop_last() =~= tvs.take(j as int));
                assert(tvs.take(j + 1).last() == tvs[j as int]);
            }
            match parse_coin(&tokens[j]) {
                Some(c) => {
                    let ghost before = self.entries@;
                    proof {
                        assert forall|d: Seq<u8>| true implies fees_sum(before, account@, d)
                            == denom_sum(before[k as int].summary.fees.entries@, d) by {
                            lemma_sums_at(before, k as int, d);
                        }
                    }
                    let ghost oldfees = self.entries@[k as int].summary.fees;
                    let ok = self.entries[k].summary.fees.add(&c.denom, c.amount);
                    proof {
                        let e2 = self.entries@[k as int];
                        assert(self.entries@ =~= before.update(k as int, e2));
                        assert(e2.account@ == account@);
                        assert(e2.summary.count == before[k as int].summary.count);
                    }
                    if !ok {
                        proof {
                            let d0 = c@.denom;
                            let e2 = self.entries@[k as int];
                            assert(e2.summary.fees.entries@ == oldfees.entries@);
                            assert(oldfees.sum_of(d0) + c@.amount > u128::MAX);
                            assert(fees_sum(before, account@, d0) == denom_sum(
                                oldfees.entries@,
                                d0,
                            ));
                            lemma_tokens_coin_sum_take(tvs, j + 1, d0);
                            lemma_tokens_coin_sum_nonneg(tvs.take(j as int), d0);
                            assert(tokens_coin_sum(tvs.take(j + 1), d0) == tokens_coin_sum(
                                tvs.take(j as int),
                                d0,
                            ) + c@.amount);
                            assert(fees_sum(entries1, account@, d0) == fees_sum(
                                entries0,
                                account@,
                                d0,
                            ));
                            assert(old(self).sum_of(account@, d0) + tokens_coin_sum(tvs, d0)
                                > u128::MAX);
                        }
                        return false;
                    }
                    proof {
                        let e2 = self.entries@[k as int];
                        assert forall|a: Seq<u8>| true implies count_sum(self.entries@, a)
                            == count_sum(before, a) by {
                            lemma_sums_update(before, k as int, e2, a, a);
                        }
                        assert forall|a: Seq<u8>, d: Seq<u8>| true implies fees_sum(
                            self.entries@,
                            a,
                            d,
                        ) == fees_sum(before, a, d) + (if a == account@ && d == c@.denom {
                            c@.amount as int
                        } else {
                            0
                        }) by {
                            lemma_sums_update(before, k as int, e2, a, d);
                            assert(e2.summary.fees.sum_of(d) == oldfees.sum_of(d) + (if d
                                == c@.denom {
                                c@.amount as int
                            } else {
                                0
                            }));
                        }
                        assert forall|a: Seq<u8>, d: Seq<u8>| true implies fees_sum(
                            self.entries@,
                            a,
                            d,
                        ) == fees_sum(entries1, a, d) + (if a == account@ {
                            tokens_coin_sum(tvs.take(j + 1), d)
                        } else {
                            0
                        }) by {
                            if coin_token_ok(tvs[j as int]) && token_denom(tvs[j as int]) == d {
                            }
                        }
                    }
                },
                None => {
                    proof {
                        assert(!coin_token_ok(tvs[j as int]));
                        assert forall|a: Seq<u8>, d: Seq<u8>| true implies fees_sum(
                            self.entries@,
                            a,
                            d,
                        ) == fees_sum(entries1, a, d) + (if a == account@ {
                            tokens_coin_sum(tvs.take(j + 1), d)
                        } else {
                            0
                        }) by {
                            assert(tokens_coin_sum(tvs.take(j + 1), d) == tokens_coin_sum(
                                tvs.take(j as int),
                                d,
                            ));
                        }
                    }
                },
            }
            j = j + 1;
        }
        proof {
            assert(tvs.take(m as int) =~= tvs);
            assert forall|a: Seq<u8>| true implies count_sum(self.entries@, a) == count_sum(
                old(self).entries@,
                a,
            ) + (if a == account@ {
                1int
            } else {
                0
            }) by {
                assert(count_sum(self.entries@, a) == count_sum(entries1, a));
                assert(count_sum(entries1, a) == count_sum(entries0, a) + (if a == account@ {
                    1int
                } else {
                    0
                }));
            }
            assert forall|a: Seq<u8>, d: Seq<u8>| true implies fees_sum(self.entries@, a, d)
                == fees_sum(old(self).entries@, a, d) + (if a == account@ {
                tokens_coin_sum(tvs, d)
            } else {
                0
            }) by {
                assert(fees_sum(self.entries@, a, d) == fees_sum(entries1, a, d) + (if a
                    == account@ {
                    tokens_coin_sum(tvs.take(m as int), d)
                } else {
                    0
                }));
            }
        }
        true
    }

    /// Feeds one input line.  The first line whose leading field parses as a
    /// height becomes the start marker.  After that, a line with fewer than
    /// three fields is ignored; otherwise its height must parse (else the
    /// run fails), the line counts one record for its account, and every
    /// well-formed coin token of its third field is added to that account.
    /// A line that overflows a running sum fails the run and may be only
    /// partially folded in.
    pub fn process_line(&mut self, line: &Vec<u8>) -> (r: Result<(), SummaryError>)
        requires
            old(self).wf(),
        ensures
            final(self).wf(),
            old(self).start is None ==> r is Ok && final(self).last == old(self).last
                && final(self).entries@ == old(self).entries@ && final(self).start == (
            if height_ok(line_fields(line@)[0]) {
                Some(dec_value(line_fields(line@)[0]) as u64)
            } else {
                None
            }),
            old(self).start is Some ==> final(self).start == old(self).start,
            old(self).start is Some && !is_record_shape(line@) ==> r is Ok
                && *final(self) == *old(self),
            old(self).start is Some && is_record_shape(line@) && !height_ok(line_fields(line@)[0])
                ==> r == Err::<(), SummaryError>(SummaryError::BadHeight)
                && *final(self) == *old(self),
            old(self).start is Some && is_record_shape(line@) && height_ok(line_fields(line@)[0])
                && r is Ok ==> {
                &&& final(self).last == Some(dec_value(line_fields(line@)[0]) as u64)
                &&& forall|a: Seq<u8>|
                    final(self).count_of(a) == old(self).count_of(a) + (if a == line_account(
                        line@,
                    ) {
                        1int
                    } else {
                        0
                    })
                &&& forall|a: Seq<u8>, d: Seq<u8>|
                    final(self).sum_of(a, d) == old(self).sum_of(a, d) + (if a == line_account(
                        line@,
                    ) {
                        line_coin_sum(line@, d)
                    } else {
                        0
                    })
            },
            old(self).start is Some && is_record_shape(line@) && height_ok(line_fields(line@)[0])
                && old(self).count_of(line_account(line@)) < usize::MAX && (forall|d: Seq<u8>|
                old(self).sum_of(line_account(line@), d) + line_coin_sum(line@, d)
                    <= u128::MAX) ==> r is Ok,
            r == Err::<(), SummaryError>(SummaryError::BadHeight) ==> !height_ok(
                line_fields(line@)[0],
            ),
            r is Err ==> old(self).start is Some && is_record_shape(line@),
    {
        let fields = split_exec(line, 44);
        proof {
            crate::bytestr::lemma_split_nonempty(line@, 44);
            assert(views(fields@) == line_fields(line@));
            assert(fields@[0]@ == line_fields(line@)[0]);
        }
        if self.start.is_none() {
            match parse_u64(&fields[0]) {
                Some(h) => {
                    self.start = Some(h);
                },
                None => {},
            }
            return Ok(());
        }
        if fields.len() < 3 {
            return Ok(());
        }
        let h = match parse_u64(&fields[0]) {
            Some(h) => h,
            None => {
                return Err(SummaryError::BadHeight);
            },
        };
        proof {
            assert(fields@[1]@ == line_account(line@));
            assert(fields@[2]@ == line_fields(line@)[2]);
        }
        let tokens = split_exec(&fields[2], 124);
        proof {
            assert(views(tokens@) == line_tokens(line@));
        }
        let ok = self.apply_record(&fields[1], &tokens);
        if !ok {
            proof {
                if old(self).count_of(line_account(line@)) < usize::MAX {
                    let d0 = choose|d: Seq<u8>|
                        old(self).sum_of(fields@[1]@, d) + tokens_coin_sum(views(tokens@), d)
                            > u128::MAX;
                    assert(old(self).sum_of(line_account(line@), d0) + line_coin_sum(line@, d0)
                        > u128::MAX);
                }
            }
            return Err(SummaryError::Overflow);
        }
        let ghost mid = *self;
        self.last = Some(h);
        proof {
            assert(self.entries@ == mid.entries@);
            assert forall|a: Seq<u8>| true implies self.count_of(a) == old(self).count_of(a) + (
            if a == line_account(line@) {
                1int
            } else {
                0
            }) by {
                assert(mid.count_of(a) == old(self).count_of(a) + (if a == fields@[1]@ {
                    1int
                } else {
                    0
                }));
            }
            assert forall|a: Seq<u8>, d: Seq<u8>| true implies self.sum_of(a, d) == old(
                self,
            ).sum_of(a, d) + (if a == line_account(line@) {
                line_coin_sum(line@, d)
            } else {
                0
            }) by {
                assert(mid.sum_of(a, d) == old(self).sum_of(a, d) + (if a == fields@[1]@ {
                    tokens_coin_sum(views(tokens@), d)
                } else {
                    0
                }));
            }
        }
        Ok(())
    }

    /// Number of distinct accounts seen.
    pub fn account_count(&self) -> (r: usize)
        ensures
            r == self.entries@.len(),
    {
        self.entries.len()
    }

    /// Records counted for one account.
    pub fn records_for(&self, account: &Vec<u8>) -> (r: usize)
        requires
            self.wf(),
        ensures
            r as int == self.count_of(account@),
    {
        let n = self.entries.len();
        let mut k: usize = 0;
        while k < n
            invariant
                n == self.entries@.len(),
                0 <= k <= n,
                forall|j: int| 0 <= j < k ==> self.entries@[j].account@ != account@,
            decreases n - k,
        {
            if bytes_eq(&self.entries[k].account, account) {
                proof {
                    lemma_sums_at(self.entries@, k as int, account@);
                }
                return self.entries[k].summary.count;
            }
            k = k + 1;
        }
        proof {
            lemma_sums_absent(self.entries@, account@, account@);
        }
        0
    }

    /// Fees summed for one account under one denomination.
    pub fn fees_for(&self, account: &Vec<u8>, denom: &Vec<u8>) -> (r: u128)
        requires
            self.wf(),
        ensures
            r as int == self.sum_of(account@, denom@),
    {
        let n = self.entries.len();
        let mut k: usize = 0;
        while k < n
            invariant
                n == self.entries@.len(),
                0 <= k <= n,
                forall|j: int| 0 <= j < k ==> self.entries@[j].account@ != account@,
            decreases n - k,
        {
            if bytes_eq(&self.entries[k].account, account) {
                proof {
                    lemma_sums_at(self.entries@, k as int, denom@);
                }
                return self.entries[k].summary.fees.amount_of(denom);
            }
            k = k + 1;
        }
        proof {
            lemma_sums_absent(self.entries@, account@, denom@);
        }
        0
    }
}

/// Total fees per denomination across every account.
pub open spec fn global_sum(es: Seq<AccountSummary>, d: Seq<u8>) -> int
    decreases es.len(),
{
    if es.len() == 0 {
        0
    } else {
        denom_sum(es.last().summary.fees.entries@, d) + global_sum(es.drop_last(), d)
    }
}

proof fn lemma_denom_sum_nonneg_all(es: Seq<crate::tally::DenomAmount>, d: Seq<u8>)
    ensures
        denom_sum(es, d) >= 0,
    decreases es.len(),
{
    if es.len() > 0 {
        lemma_denom_sum_nonneg_all(es.drop_last(), d);
    }
}

proof fn lemma_denom_sum_take_le(es: Seq<crate::tally::DenomAmount>, m: int, d: Seq<u8>)
    requires
        0 <= m <= es.len(),
    ensures
        denom_sum(es.take(m), d) <= denom_sum(es, d),
    decreases es.len() - m,
{
    if m < es.len() {
        lemma_denom_sum_take_le(es, m + 1, d);
        assert(es.take(m + 1).drop_last() =~= es.take(m));
    } else {
        assert(es.take(m) =~= es);
    }
}

proof fn lemma_global_sum_take_le(es: Seq<AccountSummary>, m: int, d: Seq<u8>)
    requires
        0 <= m <= es.len(),
    ensures
        global_sum(es.take(m), d) <= global_sum(es, d),
    decreases es.len() - m,
{
    if m < es.len() {
        lemma_global_sum_take_le(es, m + 1, d);
        assert(es.take(m + 1).drop_last() =~= es.take(m));
        lemma_denom_sum_nonneg_all(es.take(m + 1).last().summary.fees.entries@, d);
    } else {
        assert(es.take(m) =~= es);
    }
}

impl Summarizer {
    /// Folds every account's fees into one per-denomination total; `None`
    /// exactly when some denomination's grand total does not fit in 128 bits.
    pub fn global_totals(&self) -> (r: Option<DenomTally>)
        requires
            self.wf(),
        ensures
            match r {
                Some(t) => t.wf() && forall|d: Seq<u8>|
                    t.sum_of(d) == global_sum(self.entries@, d),
                None => exists|d: Seq<u8>| global_sum(self.entries@, d) > u128::MAX,
            },
    {
        let mut t = DenomTally::new();
        let n = self.entries.len();
        let mut k: usize = 0;
        while k < n
            invariant
                n == self.entries@.len(),
                0 <= k <= n,
                t.wf(),
                forall|d: Seq<u8>| t.sum_of(d) == global_sum(self.entries@.take(k as int), d),
            decreases n - k,
        {
            proof {
                assert(self.entries@.take(k + 1).drop_last() =~= self.entries@.take(k as int));
                assert(self.entries@.take(k + 1).last() == self.entries@[k as int]);
            }
            let fe = &self.entries[k].summary.fees;
            let ghost fes = fe.entries@;
            let m = fe.entries.len();
            let mut j: usize = 0;
            while j < m
                invariant
                    0 <= j <= m,
                    m == fes.len(),
                    fes == self.entries@[k as int].summary.fees.entries@,
                    0 <= k < n,
                    n == self.entries@.len(),
                    t.wf(),
                    forall|d: Seq<u8>|
                        t.sum_of(d) == global_sum(self.entries@.take(k as int), d) + denom_sum(
                            fes.take(j as int),
                            d,
                        ),
                decreases m - j,
            {
                proof {
                    assert(fes.take(j + 1).drop_last() =~= fes.take(j as int));
                    assert(fes.take(j + 1).last() == fes[j as int]);
                }
                let denom = &fe.entries[j].denom;
                let amount = fe.entries[j].amount;
                let ok = t.add(denom, amount);
                if !ok {
                    proof {
                        let d0 = denom@;
                        lemma_denom_sum_take_le(fes, j + 1, d0);
                        lemma_denom_sum_nonneg_all(fes.take(j as int), d0);
                        assert(global_sum(self.entries@.take(k + 1), d0) > u128::MAX);
                        lemma_global_sum_take_le(self.entries@, k + 1, d0);
                    }
                    return None;
                }
                j = j + 1;
            }
            proof {
                assert(fes.take(m as int) =~= fes);
            }
            k = k + 1;
        }
        proof {
            assert(self.entries@.take(n as int) =~= self.entries@);
        }
        Some(t)
    }
}

/// Re-aggregation is deliberately not deduplicating: feeding the same record
/// twice doubles the account's record count and its fee sums.  The states
/// are related exactly as `process_line` relates them for a record line.
pub proof fn lemma_duplicate_record_doubles(
    s0: Summarizer,
    s1: Summarizer,
    s2: Summarizer,
    line: Seq<u8>,
)
    requires
        forall|a: Seq<u8>|
            s1.count_of(a) == s0.count_of(a) + (if a == line_account(line) {
                1int
            } else {
                0
            }),
        forall|a: Seq<u8>, d: Seq<u8>|
            s1.sum_of(a, d) == s0.sum_of(a, d) + (if a == line_account(line) {
                line_coin_sum(line, d)
            } else {
                0
            }),
        forall|a: Seq<u8>|
            s2.count_of(a) == s1.count_of(a) + (if a == line_account(line) {
                1int
            } else {
                0
            }),
        forall|a: Seq<u8>, d: Seq<u8>|
            s2.sum_of(a, d) == s1.sum_of(a, d) + (if a == line_account(line) {
                line_coin_sum(line, d)
            } else {
                0
            }),
    ensures
        s2.count_of(line_account(line)) == s0.count_of(line_account(line)) + 2,
        forall|d: Seq<u8>|
            s2.sum_of(line_account(line), d) == s0.sum_of(line_account(line), d) + 2
                * line_coin_sum(line, d),
{
}

/// `# Start,End,#Accounts`, the counts header.
pub open spec fn counts_header_spec() -> Seq<u8> {
    seq![35u8, 32u8, 83u8, 116u8, 97u8, 114u8, 116u8, 44u8, 69u8, 110u8, 100u8, 44u8, 35u8,
        65u8, 99u8, 99u8, 111u8, 117u8, 110u8, 116u8, 115u8]
}

pub fn counts_header() -> (r: Vec<u8>)
    ensures
        r@ == counts_header_spec(),
{
    let v: Vec<u8> = vec![35u8, 32u8, 83u8, 116u8, 97u8, 114u8, 116u8, 44u8, 69u8, 110u8, 100u8,
        44u8, 35u8, 65u8, 99u8, 99u8, 111u8, 117u8, 110u8, 116u8, 115u8];
    proof {
        assert(v@ =~= counts_header_spec());
    }
    v
}

/// `# Totals`, the totals block header.
pub open spec fn totals_header_spec() -> Seq<u8> {
    seq![35u8, 32u8, 84u8, 111u8, 116u8, 97u8, 108u8, 115u8]
}

pub fn totals_header() -> (r: Vec<u8>)
    ensures
        r@ == totals_header_spec(),
{
    let v: Vec<u8> = vec![35u8, 32u8, 84u8, 111u8, 116u8, 97u8, 108u8, 115u8];
    proof {
        assert(v@ =~= totals_header_spec());
    }
    v
}

/// `denom,amount`, the totals table columns.
pub open spec fn totals_columns_spec() -> Seq<u8> {
    seq![100u8, 101u8, 110u8, 111u8, 109u8, 44u8, 97u8, 109u8, 111u8, 117u8, 110u8, 116u8]
}

pub fn totals_columns() -> (r: Vec<u8>)
    ensures
        r@ == totals_columns_spec(),
{
    let v: Vec<u8> = vec![100u8, 101u8, 110u8, 111u8, 109u8, 44u8, 97u8, 109u8, 111u8, 117u8,
        110u8, 116u8];
    proof {
        assert(v@ =~= totals_columns_spec());
    }
    v
}

/// `Account,#Transactions,Fees`, the account table header.
pub open spec fn accounts_header_spec() -> Seq<u8> {
    seq![65u8, 99u8, 99u8, 111u8, 117u8, 110u8, 116u8, 44u8, 35u8, 84u8, 114u8, 97u8, 110u8,
        115u8, 97u8, 99u8, 116u8, 105u8, 111u8, 110u8, 115u8, 44u8, 70u8, 101u8, 101u8, 115u8]
}

pub fn accounts_header() -> (r: Vec<u8>)
    ensures
        r@ == accounts_header_spec(),
{
    let v: Vec<u8> = vec![65u8, 99u8, 99u8, 111u8, 117u8, 110u8, 116u8, 44u8, 35u8, 84u8, 114u8,
        97u8, 110u8, 115u8, 97u8, 99u8, 116u8, 105u8, 111u8, 110u8, 115u8, 44u8, 70u8, 101u8,
        101u8, 115u8];
    proof {
        assert(v@ =~= accounts_header_spec());
    }
    v
}

/// `# <start>,<last>,<accounts>`: the height range seen and how many
/// accounts, absent heights rendered as zero.
pub open spec fn counts_line_spec(start: Option<u64>, last: Option<u64>, n: int) -> Seq<u8> {
    seq![35u8, 32u8] + crate::digits::dec_repr(match start {
        Some(h) => h as int,
        None => 0,
    }) + seq![44u8] + crate::digits::dec_repr(match last {
        Some(h) => h as int,
        None => 0,
    }) + seq![44u8] + crate::digits::dec_repr(n)
}

impl Summarizer {
    /// Renders the counts line for this summary.
    pub fn counts_line(&self) -> (r: Vec<u8>)
        ensures
            r@ == counts_line_spec(self.start, self.last, self.entries@.len() as int),
    {
        let mut out: Vec<u8> = Vec::new();
        out.push(35);
        out.push(32);
        let s = match self.start {
            Some(h) => h,
            None => 0,
        };
        let l = match self.last {
            Some(h) => h,
            None => 0,
        };
        let sb = crate::digits::render_u64(s);
        crate::bytestr::push_all(&mut out, &sb);
        out.push(44);
        let lb = crate::digits::render_u64(l);
        crate::bytestr::push_all(&mut out, &lb);
        out.push(44);
        let nb = crate::digits::render_u64(self.entries.len() as u64);
        crate::bytestr::push_all(&mut out, &nb);
        proof {
            assert(out@ =~= counts_line_spec(self.start, self.last, self.entries@.len() as int));
        }
        out
    }
}

/// `<denom>,<amount>`: one row of the totals table.
pub open spec fn total_row_spec(denom: Seq<u8>, amount: u128) -> Seq<u8> {
    denom + seq![44u8] + crate::digits::dec_repr(amount as int)
}

/// Renders one totals row.
pub fn total_row(denom: &Vec<u8>, amount: u128) -> (r: Vec<u8>)
    ensures
        r@ == total_row_spec(denom@, amount),
{
    let mut out = crate::bytestr::bytes_copy(denom);
    out.push(44);
    let ab = crate::digits::render_u128(amount);
    crate::bytestr::push_all(&mut out, &ab);
    proof {
        assert(out@ =~= total_row_spec(denom@, amount));
    }
    out
}

/// The `<amount><denom>` tokens of a fee table, in stored order.
pub open spec fn fee_tokens_of(es: Seq<crate::tally::DenomAmount>) -> Seq<Seq<u8>> {
    es.map_values(
        |da: crate::tally::DenomAmount| crate::digits::dec_repr(da.amount as int) + da.denom@,
    )
}

/// `<account>,<count>,"<token>,<token>,..."`: one row of the account table.
pub open spec fn account_row_spec(e: AccountSummary) -> Seq<u8> {
    e.account@ + seq![44u8] + crate::digits::dec_repr(e.summary.count as int) + seq![44u8, 34u8]
        + crate::bytestr::join_bytes(fee_tokens_of(e.summary.fees.entries@), 44) + seq![34u8]
}

/// Renders one account row, its coin tokens comma-joined and quoted.
pub fn account_row(e: &AccountSummary) -> (r: Vec<u8>)
    ensures
        r@ == account_row_spec(*e),
{
    let mut tokens: Vec<Vec<u8>> = Vec::new();
    let m = e.summary.fees.entries.len();
    let mut j: usize = 0;
    while j < m
        invariant
            0 <= j <= m,
            m == e.summary.fees.entries@.len(),
            views(tokens@) =~= fee_tokens_of(e.summary.fees.entries@.take(j as int)),
        decreases m - j,
    {
        let da = &e.summary.fees.entries[j];
        let mut tok = crate::digits::render_u128(da.amount);
        crate::bytestr::push_all(&mut tok, &da.denom);
        let ghost tokv = tok@;
        tokens.push(tok);
        proof {
            let ghost es = e.summary.fees.entries@;
            assert forall|i: int| 0 <= i < j + 1 implies views(tokens@)[i] == fee_tokens_of(
                es.take(j + 1),
            )[i] by {
                assert(es.take(j + 1)[i] == es[i]);
                assert(views(tokens@)[i] == tokens@[i]@);
                if i < j {
                    assert(es.take(j as int)[i] == es[i]);
                    assert(views(tokens@)[i] == fee_tokens_of(es.take(j as int))[i]);
                } else {
                    assert(tokens@[i]@ == tokv);
                }
            }
            assert(views(tokens@) =~= fee_tokens_of(es.take(j + 1)));
        }
        j = j + 1;
    }
    proof {
        assert(e.summary.fees.entries@.take(m as int) =~= e.summary.fees.entries@);
    }
    let joined = crate::bytestr::join_exec(&tokens, 44);
    let mut out = crate::bytestr::bytes_copy(&e.account);
    out.push(44);
    let cb = crate::digits::render_u64(e.summary.count as u64);
    crate::bytestr::push_all(&mut out, &cb);
    out.push(44);
    out.push(34);
    crate::bytestr::push_all(&mut out, &joined);
    out.push(34);
    proof {
        assert(out@ =~= account_row_spec(*e));
    }
    out
}

} // verus!
