use vstd::prelude::*;

use crate::bytestr::{join_bytes, join_exec, push_all, views};
use crate::classify::{process_tx, process_tx_spec, IBCTx, IBCTxView, TxError};
use crate::coin::{coin_token_of, render_coin, CoinView};
use crate::digits::{dec_repr, render_u64};
use crate::tally::{has_account, AccountTally};

verus! {

/// Sum of the amounts under denomination `d` in a coin list.
pub open spec fn coin_sum(cs: Seq<CoinView>, d: Seq<u8>) -> int
    decreases cs.len(),
{
    if cs.len() == 0 {
        0
    } else {
        (if cs.last().denom == d {
            cs.last().amount as int
        } else {
            0
        }) + coin_sum(cs.drop_last(), d)
    }
}

pub proof fn lemma_coin_sum_nonneg(cs: Seq<CoinView>, d: Seq<u8>)
    ensures
        coin_sum(cs, d) >= 0,
    decreases cs.len(),
{
    if cs.len() > 0 {
        lemma_coin_sum_nonneg(cs.drop_last(), d);
    }
}

pub proof fn lemma_coin_sum_take(cs: Seq<CoinView>, m: int, d: Seq<u8>)
    requires
        0 <= m <= cs.len(),
    ensures
        coin_sum(cs.take(m), d) <= coin_sum(cs, d),
    decreases cs.len() - m,
{
    if m < cs.len() {
        lemma_coin_sum_take(cs, m + 1, d);
        assert(cs.take(m + 1).drop_last() =~= cs.take(m));
        assert(coin_sum(cs.take(m + 1), d) >= coin_sum(cs.take(m), d));
    } else {
        assert(cs.take(m) =~= cs);
    }
}

/// Total fees attributed to account `a` under denomination `d` across a
/// sequence of attributed transactions: the exact arithmetic sum of every
/// matching coin amount.
pub open spec fn tx_fee_sum(ts: Seq<IBCTxView>, a: Seq<u8>, d: Seq<u8>) -> int
    decreases ts.len(),
{
    if ts.len() == 0 {
        0
    } else {
        (if ts.last().account == a {
            coin_sum(ts.last().coins, d)
        } else {
            0
        }) + tx_fee_sum(ts.drop_last(), a, d)
    }
}

pub proof fn lemma_tx_fee_sum_push(ts: Seq<IBCTxView>, t: IBCTxView, a: Seq<u8>, d: Seq<u8>)
    ensures
        tx_fee_sum(ts.push(t), a, d) == tx_fee_sum(ts, a, d) + (if t.account == a {
            coin_sum(t.coins, d)
        } else {
            0
        }),
{
    assert(ts.push(t).drop_last() =~= ts);
}

pub proof fn lemma_tx_fee_sum_take(ts: Seq<IBCTxView>, m: int, a: Seq<u8>, d: Seq<u8>)
    requires
        0 <= m <= ts.len(),
    ensures
        tx_fee_sum(ts.take(m), a, d) <= tx_fee_sum(ts, a, d),
    decreases ts.len() - m,
{
    if m < ts.len() {
        lemma_tx_fee_sum_take(ts, m + 1, a, d);
        assert(ts.take(m + 1).drop_last() =~= ts.take(m));
        lemma_coin_sum_nonneg(ts.take(m + 1).last().coins, d);
    } else {
        assert(ts.take(m) =~= ts);
    }
}

/// Aggregation is additive across concatenation: the tally of two batches is
/// the sum of their tallies, exact to the unit.
pub proof fn lemma_tx_fee_sum_concat(ts1: Seq<IBCTxView>, ts2: Seq<IBCTxView>, a: Seq<u8>, d: Seq<u8>)
    ensures
        tx_fee_sum(ts1 + ts2, a, d) == tx_fee_sum(ts1, a, d) + tx_fee_sum(ts2, a, d),
    decreases ts2.len(),
{
    if ts2.len() == 0 {
        assert(ts1 + ts2 =~= ts1);
    } else {
        assert((ts1 + ts2).drop_last() =~= ts1 + ts2.drop_last());
        assert((ts1 + ts2).last() == ts2.last());
        lemma_tx_fee_sum_concat(ts1, ts2.drop_last(), a, d);
    }
}

/// The attributed transactions of a blob sequence, in order, or the first
/// error raised while classifying them.
pub open spec fn block_results(tvs: Seq<Seq<char>>) -> Result<Seq<IBCTxView>, TxError>
    decreases tvs.len(),
{
    if tvs.len() == 0 {
        Ok(Seq::empty())
    } else {
        match block_results(tvs.drop_last()) {
            Err(e) => Err(e),
            Ok(s) => match process_tx_spec(tvs.last()) {
                Err(e) => Err(e),
                Ok(None) => Ok(s),
                Ok(Some(t)) => Ok(s.push(t)),
            },
        }
    }
}

/// Once a prefix classifies with an error, the whole sequence does.
pub proof fn lemma_block_results_err(tvs: Seq<Seq<char>>, i: int)
    requires
        0 <= i <= tvs.len(),
        block_results(tvs.take(i)) is Err,
    ensures
        block_results(tvs) == block_results(tvs.take(i)),
    decreases tvs.len() - i,
{
    if i < tvs.len() {
        assert(tvs.take(i + 1).drop_last() =~= tvs.take(i));
        lemma_block_results_err(tvs, i + 1);
    } else {
        assert(tvs.take(i) =~= tvs);
    }
}

/// Every prefix of a cleanly classified sequence classifies cleanly, to a
/// prefix of the same transactions.
pub proof fn lemma_block_results_prefix(tvs: Seq<Seq<char>>, ts: Seq<IBCTxView>, j: int)
    requires
        block_results(tvs) == Ok::<Seq<IBCTxView>, TxError>(ts),
        0 <= j <= tvs.len(),
    ensures
        exists|m: int|
            0 <= m <= ts.len() && block_results(tvs.take(j)) == Ok::<Seq<IBCTxView>, TxError>(
                #[trigger] ts.take(m),
            ),
    decreases tvs.len() - j,
{
    if j == tvs.len() {
        assert(tvs.take(j) =~= tvs);
        assert(ts.take(ts.len() as int) =~= ts);
    } else {
        lemma_block_results_prefix(tvs, ts, j + 1);
        let m1 = choose|m: int|
            0 <= m <= ts.len() && block_results(tvs.take(j + 1)) == Ok::<Seq<IBCTxView>, TxError>(
                #[trigger] ts.take(m),
            );
        assert(tvs.take(j + 1).drop_last() =~= tvs.take(j));
        match block_results(tvs.take(j)) {
            Err(_) => {
                assert(block_results(tvs.take(j + 1)) is Err);
                assert(false);
            },
            Ok(s) => {
                match process_tx_spec(tvs.take(j + 1).last()) {
                    Err(_) => {
                        assert(false);
                    },
                    Ok(None) => {
                        assert(s == ts.take(m1));
                    },
                    Ok(Some(t)) => {
                        assert(s.push(t) == ts.take(m1));
                        assert(m1 >= 1) by {
                            assert(ts.take(m1).len() == s.len() + 1);
                        }
                        assert(s =~= ts.take(m1 - 1)) by {
                            assert(s == ts.take(m1).drop_last());
                            assert(ts.take(m1).drop_last() =~= ts.take(m1 - 1));
                        }
                    },
                }
            },
        }
    }
}

/// No account's total under any denomination exceeds what the batch sums to
/// in 128 bits.
pub open spec fn sums_fit(ts: Seq<IBCTxView>) -> bool {
    forall|a: Seq<u8>, d: Seq<u8>| tx_fee_sum(ts, a, d) <= u128::MAX
}

/// Whether some transaction of the batch is attributed to account `a`.
pub open spec fn batch_credits(ts: Seq<IBCTxView>, a: Seq<u8>) -> bool {
    exists|i: int| 0 <= i < ts.len() && ts[i].account == a
}

/// Whether some transaction attributed to `a` carries at least one fee coin.
pub open spec fn batch_credits_coins(ts: Seq<IBCTxView>, a: Seq<u8>) -> bool {
    exists|i: int| 0 <= i < ts.len() && ts[i].account == a && ts[i].coins.len() > 0
}

/// Some prefix of the batch classifies cleanly to transactions whose total
/// for some account and denomination does not fit in 128 bits.
pub open spec fn prefix_overflows(tvs: Seq<Seq<char>>) -> bool {
    exists|j: int, a: Seq<u8>, d: Seq<u8>|
        0 <= j <= tvs.len() && block_results(tvs.take(j)) is Ok && #[trigger] tx_fee_sum(
            block_results(tvs.take(j))->Ok_0,
            a,
            d,
        ) > u128::MAX
}

/// The canonical tokens of a coin list, in order.
pub open spec fn coin_tokens_of(cs: Seq<CoinView>) -> Seq<Seq<u8>> {
    cs.map_values(|c: CoinView| coin_token_of(c))
}

/// One emitted record: height, account, the `|`-joined coin tokens, the
/// captured client identifier, and the sanitized memo, comma-separated.
pub open spec fn line_of(height: u64, t: IBCTxView) -> Seq<u8> {
    dec_repr(height as int) + seq![44u8] + t.account + seq![44u8] + join_bytes(
        coin_tokens_of(t.coins),
        124,
    ) + seq![44u8] + t.client + seq![44u8] + t.memo
}

/// The emitted records of a transaction batch, in order.
pub open spec fn lines_of(height: u64, ts: Seq<IBCTxView>) -> Seq<Seq<u8>> {
    ts.map_values(|t: IBCTxView| line_of(height, t))
}

/// The header line of the emitted record stream.
pub open spec fn header_line_spec() -> Seq<u8> {
    seq![98u8, 108u8, 111u8, 99u8, 107u8, 44u8, 97u8, 99u8, 99u8, 111u8, 117u8, 110u8, 116u8,
        44u8, 102u8, 101u8, 101u8, 115u8, 44u8, 115u8, 114u8, 99u8, 95u8, 112u8, 111u8, 114u8,
        116u8, 44u8, 115u8, 114u8, 99u8, 95u8, 99u8, 104u8, 97u8, 110u8, 110u8, 101u8, 108u8]
}

/// `block,account,fees,src_port,src_channel`, the stream's header.
pub fn header_line() -> (r: Vec<u8>)
    ensures
        r@ == header_line_spec(),
{
    let v: Vec<u8> = vec![98u8, 108u8, 111u8, 99u8, 107u8, 44u8, 97u8, 99u8, 99u8, 111u8, 117u8,
        110u8, 116u8, 44u8, 102u8, 101u8, 101u8, 115u8, 44u8, 115u8, 114u8, 99u8, 95u8, 112u8,
        111u8, 114u8, 116u8, 44u8, 115u8, 114u8, 99u8, 95u8, 99u8, 104u8, 97u8, 110u8, 110u8,
        101u8, 108u8];
    proof {
        assert(v@ =~= header_line_spec());
    }
    v
}

/// Builds the emitted record for one attributed transaction.
pub fn build_line(height: u64, t: &IBCTx) -> (r: Vec<u8>)
    ensures
        r@ == line_of(height, t@),
{
    let mut tokens: Vec<Vec<u8>> = Vec::new();
    let mut i: usize = 0;
    while i < t.coins.len()
        invariant
            0 <= i <= t.coins@.len(),
            views(tokens@) =~= coin_tokens_of(t@.coins.take(i as int)),
        decreases t.coins@.len() - i,
    {
        let ghost prev = tokens@;
        let tok = render_coin(&t.coins[i]);
        let ghost tokv = tok@;
        tokens.push(tok);
        proof {
            assert(t@.coins[i as int] == t.coins@[i as int]@);
            assert forall|j: int| 0 <= j < i + 1 implies views(tokens@)[j] == coin_tokens_of(
                t@.coins.take(i + 1),
            )[j] by {
                assert(t@.coins.take(i + 1)[j] == t@.coins[j]);
                assert(coin_tokens_of(t@.coins.take(i + 1))[j] == coin_token_of(t@.coins[j]));
                assert(views(tokens@)[j] == tokens@[j]@);
                if j < i {
                    assert(tokens@[j] == prev[j]);
                    assert(views(prev)[j] == prev[j]@);
                    assert(coin_tokens_of(t@.coins.take(i as int))[j] == coin_token_of(
                        t@.coins.take(i as int)[j],
                    ));
                    assert(t@.coins.take(i as int)[j] == t@.coins[j]);
                } else {
                    assert(tokens@[j]@ == tokv);
                }
            }
            assert(views(tokens@) =~= coin_tokens_of(t@.coins.take(i + 1)));
        }
        i = i + 1;
    }
    proof {
        assert(t@.coins.take(t.coins@.len() as int) =~= t@.coins);
    }
    let fees = join_exec(&tokens, 124);
    let mut out = render_u64(height);
    out.push(44);
    push_all(&mut out, &t.account);
    out.push(44);
    push_all(&mut out, &fees);
    out.push(44);
    push_all(&mut out, &t.client);
    out.push(44);
    push_all(&mut out, &t.memo);
    proof {
        assert(out@ =~= line_of(height, t@));
    }
    out
}

/// What one processed block yields: the block-scoped tally and the records
/// to emit, one per attributed transaction, in transaction order.
pub struct BlockOutput {
    pub tally: AccountTally,
    pub lines: Vec<Vec<u8>>,
}

/// The views of a blob list.
pub open spec fn blob_views(txs: Seq<String>) -> Seq<Seq<char>> {
    txs.map_values(|s: String| s@)
}

/// Classifies every transaction of one block, in order, folding fees into a
/// block-scoped per-account tally and building one record per attributed
/// transaction. Fails exactly when classification fails or a fee sum does
/// not fit in 128 bits.
pub fn process_block(block_height: u64, txs: &Vec<String>) -> (r: Result<BlockOutput, TxError>)
    ensures
        match r {
            Ok(out) => {
                &&& block_results(blob_views(txs@)) matches Ok(ts) && out.tally.wf() && sums_fit(
                    ts,
                ) && views(out.lines@) == lines_of(block_height, ts) && (forall|
                    a: Seq<u8>,
                    d: Seq<u8>,
                |
                    out.tally.sum_of(a, d) == tx_fee_sum(ts, a, d)) && (forall|a: Seq<u8>|
                    #[trigger] has_account(out.tally.entries@, a) ==> batch_credits(ts, a)) && (
                forall|a: Seq<u8>|
                    #[trigger] batch_credits_coins(ts, a) ==> has_account(out.tally.entries@, a))
            },
            Err(e) => {
                &&& (block_results(blob_views(txs@)) matches Ok(ts) ==> !sums_fit(ts))
                &&& e != TxError::AmountOverflow ==> block_results(blob_views(txs@)) == Err::<
                    Seq<IBCTxView>,
                    TxError,
                >(e)
                &&& e == TxError::AmountOverflow ==> prefix_overflows(blob_views(txs@))
            },
        },
{
    let ghost tvs = blob_views(txs@);
    let mut tally = AccountTally::new();
    let mut lines: Vec<Vec<u8>> = Vec::new();
    let ghost mut ts: Seq<IBCTxView> = Seq::empty();
    let n = txs.len();
    let mut i: usize = 0;
    proof {
        assert(tvs.take(0) =~= Seq::<Seq<char>>::empty());
    }
    while i < n
        invariant
            0 <= i <= n,
            n == txs@.len(),
            tvs == blob_views(txs@),
            block_results(tvs.take(i as int)) == Ok::<Seq<IBCTxView>, TxError>(ts),
            tally.wf(),
            forall|a: Seq<u8>, d: Seq<u8>| tally.sum_of(a, d) == tx_fee_sum(ts, a, d),
            forall|a: Seq<u8>| #[trigger] has_account(tally.entries@, a) ==> batch_credits(ts, a),
            forall|a: Seq<u8>|
                #[trigger] batch_credits_coins(ts, a) ==> has_account(tally.entries@, a),
            views(lines@) =~= lines_of(block_height, ts),
        decreases n - i,
    {
        proof {
            assert(tvs[i as int] == txs@[i as int]@);
            assert(tvs.take(i + 1).drop_last() =~= tvs.take(i as int));
            assert(tvs.take(i + 1).last() == tvs[i as int]);
        }
        match process_tx(&txs[i]) {
            Err(e) => {
                proof {
                    assert(block_results(tvs.take(i + 1)) == Err::<Seq<IBCTxView>, TxError>(e));
                    lemma_block_results_err(tvs, i + 1);
                }
                return Err(e);
            },
            Ok(None) => {},
            Ok(Some(t)) => {
                let ghost prev_lines = lines@;
                let line = build_line(block_height, &t);
                let ghost linev = line@;
                lines.push(line);
                let ghost ts1 = ts.push(t@);
                proof {
                    assert forall|a: Seq<u8>, d: Seq<u8>| true implies tx_fee_sum(ts1, a, d)
                        == tx_fee_sum(ts, a, d) + (if t@.account == a {
                        coin_sum(t@.coins, d)
                    } else {
                        0
                    }) by {
                        lemma_tx_fee_sum_push(ts, t@, a, d);
                    }
                    assert forall|j: int| 0 <= j < ts1.len() implies views(lines@)[j] == lines_of(
                        block_height,
                        ts1,
                    )[j] by {
                        assert(lines_of(block_height, ts1)[j] == line_of(block_height, ts1[j]));
                        assert(views(lines@)[j] == lines@[j]@);
                        if j < ts.len() {
                            assert(lines@[j] == prev_lines[j]);
                            assert(views(prev_lines)[j] == prev_lines[j]@);
                            assert(lines_of(block_height, ts)[j] == line_of(block_height, ts[j]));
                            assert(ts1[j] == ts[j]);
                        } else {
                            assert(lines@[j]@ == linev);
                            assert(ts1[j] == t@);
                        }
                    }
                    assert(views(lines@) =~= lines_of(block_height, ts1));
                }
                let m = t.coins.len();
                let mut j: usize = 0;
                while j < m
                    invariant
                        0 <= j <= m,
                        m == t.coins@.len(),
                        tally.wf(),
                        forall|a: Seq<u8>, d: Seq<u8>|
                            tally.sum_of(a, d) == tx_fee_sum(ts, a, d) + (if t@.account == a {
                                coin_sum(t@.coins.take(j as int), d)
                            } else {
                                0
                            }),
                        forall|a: Seq<u8>|
                            #[trigger] has_account(tally.entries@, a) ==> batch_credits(ts, a) || a
                                == t@.account,
                        j > 0 ==> has_account(tally.entries@, t@.account),
                        forall|a: Seq<u8>|
                            #[trigger] batch_credits_coins(ts, a) ==> has_account(
                                tally.entries@,
                                a,
                            ),
                    decreases m - j,
                {
                    let c = &t.coins[j];
                    proof {
                        assert(t@.coins[j as int] == c@);
                        assert(t@.coins.take(j + 1).drop_last() =~= t@.coins.take(j as int));
                        assert(t@.coins.take(j + 1).last() == t@.coins[j as int]);
                    }
                    let ok = tally.add(&t.account, &c.denom, c.amount);
                    if !ok {
                        proof {
                            lemma_coin_sum_take(t@.coins, j + 1, c@.denom);
                            lemma_tx_fee_sum_push(ts, t@, t@.account, c@.denom);
                            assert(tx_fee_sum(ts1, t@.account, c@.denom) > u128::MAX);
                            assert(block_results(tvs.take(i + 1)) == Ok::<
                                Seq<IBCTxView>,
                                TxError,
                            >(ts1));
                            match block_results(tvs) {
                                Ok(tsf) => {
                                    if sums_fit(tsf) {
                                        lemma_block_results_prefix(tvs, tsf, i + 1);
                                        let m2 = choose|m2: int|
                                            0 <= m2 <= tsf.len() && block_results(tvs.take(i + 1))
                                                == Ok::<Seq<IBCTxView>, TxError>(
                                                #[trigger] tsf.take(m2),
                                            );
                                        assert(ts1 == tsf.take(m2));
                                        lemma_tx_fee_sum_take(tsf, m2, t@.account, c@.denom);
                                        assert(false);
                                    }
                                },
                                Err(_) => {},
                            }
                            assert(block_results(tvs.take(i + 1)) is Ok);
                            assert(block_results(tvs.take(i + 1))->Ok_0 == ts1);
                            assert(tx_fee_sum(
                                block_results(tvs.take(i + 1))->Ok_0,
                                t@.account,
                                c@.denom,
                            ) > u128::MAX);
                            assert(0 <= i + 1 <= tvs.len());
                            assert(prefix_overflows(tvs));
                        }
                        return Err(TxError::AmountOverflow);
                    }
                    j = j + 1;
                }
                proof {
                    assert(t@.coins.take(m as int) =~= t@.coins);
                    assert forall|a: Seq<u8>| #[trigger] has_account(tally.entries@, a) implies
                        batch_credits(ts1, a) by {
                        if a == t@.account {
                            assert(ts1[ts.len() as int].account == a);
                        } else {
                            let w = choose|w: int| 0 <= w < ts.len() && ts[w].account == a;
                            assert(ts1[w].account == a);
                        }
                    }
                    assert forall|a: Seq<u8>| #[trigger] batch_credits_coins(ts1, a) implies
                        has_account(tally.entries@, a) by {
                        let w = choose|w: int|
                            0 <= w < ts1.len() && ts1[w].account == a && ts1[w].coins.len() > 0;
                        if w < ts.len() {
                            assert(ts[w].account == a && ts[w].coins.len() > 0);
                            assert(batch_credits_coins(ts, a));
                        } else {
                            assert(ts1[w] == t@);
                            assert(m > 0);
                            assert(has_account(tally.entries@, t@.account));
                        }
                    }
                    ts = ts1;
                }
            },
        }
        i = i + 1;
    }
    proof {
        assert(tvs.take(n as int) =~= tvs);
        assert forall|a: Seq<u8>, d: Seq<u8>| true implies tx_fee_sum(ts, a, d) <= u128::MAX by {
            crate::tally::lemma_account_sum_in_range(tally, a, d);
        }
    }
    Ok(BlockOutput { tally, lines })
}

} // verus!
