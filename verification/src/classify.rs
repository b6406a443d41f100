use vstd::prelude::*;

use crate::bytestr::{bytes_copy, bytes_eq};
use crate::codec;
use crate::coin::{Coin, CoinView};
use crate::digits::{all_digits, dec_value, parse_u128};
use crate::envelope::{CoinStr, CoinStrView, EnvelopeView, MsgView, RawMsg, TxEnvelope};

verus! {

/// A condition fatal to the run, per the error taxonomy of this scanner.
#[derive(Clone, Copy, Debug, PartialEq, Eq, Structural)]
pub enum TxError {
    /// The transaction envelope, an inner message, or an amount within it
    /// could not be decoded.
    MalformedTransaction,
    /// The first signer's public key could not be read or rendered.
    InvalidKey,
    /// A running fee sum does not fit in 128 bits.
    AmountOverflow,
    /// The block source could not be reached.
    SourceUnavailable,
}

/// `/ibc`, the namespace prefix of cross-chain protocol messages.
pub open spec fn ibc_prefix() -> Seq<u8> {
    seq![47u8, 105u8, 98u8, 99u8]
}

/// `/ibc.applications.transfer.v1.MsgTransfer`: plain asset transfers, which
/// relayers are not credited for.
pub open spec fn transfer_url() -> Seq<u8> {
    seq![47u8, 105u8, 98u8, 99u8, 46u8, 97u8, 112u8, 112u8, 108u8, 105u8, 99u8, 97u8, 116u8,
        105u8, 111u8, 110u8, 115u8, 46u8, 116u8, 114u8, 97u8, 110u8, 115u8, 102u8, 101u8, 114u8,
        46u8, 118u8, 49u8, 46u8, 77u8, 115u8, 103u8, 84u8, 114u8, 97u8, 110u8, 115u8, 102u8,
        101u8, 114u8]
}

/// `/ibc.core.client.v1.MsgUpdateClient`: the client-update message whose
/// `client_id` is captured.
pub open spec fn update_client_url() -> Seq<u8> {
    seq![47u8, 105u8, 98u8, 99u8, 46u8, 99u8, 111u8, 114u8, 101u8, 46u8, 99u8, 108u8, 105u8,
        101u8, 110u8, 116u8, 46u8, 118u8, 49u8, 46u8, 77u8, 115u8, 103u8, 85u8, 112u8, 100u8,
        97u8, 116u8, 101u8, 67u8, 108u8, 105u8, 101u8, 110u8, 116u8]
}

/// The sentinel client identifier, `-`.
pub open spec fn dash() -> Seq<u8> {
    seq![45u8]
}

pub open spec fn is_ibc_url(u: Seq<u8>) -> bool {
    u.len() >= 4 && u.take(4) == ibc_prefix()
}

/// A message that makes its transaction fee-attributable: cross-chain, but
/// not a plain asset transfer.
pub open spec fn is_counted_msg(u: Seq<u8>) -> bool {
    is_ibc_url(u) && u != transfer_url()
}

/// A transaction is fee-attributable when any of its messages is counted.
pub open spec fn attributable(msgs: Seq<MsgView>) -> bool {
    exists|i: int| 0 <= i < msgs.len() && is_counted_msg(msgs[i].type_url)
}

/// The captured client identifier after walking the messages in order: the
/// last client-update message wins, the sentinel stands when there is none,
/// and an undecodable client-update message is an error (`None`).
pub open spec fn scan_client(msgs: Seq<MsgView>) -> Option<Seq<u8>>
    decreases msgs.len(),
{
    if msgs.len() == 0 {
        Some(dash())
    } else {
        match scan_client(msgs.drop_last()) {
            None => None,
            Some(c) => {
                if msgs.last().type_url == update_client_url() {
                    codec::update_client_id_of(msgs.last().value)
                } else {
                    Some(c)
                }
            },
        }
    }
}

/// The memo with every comma replaced by a period, keeping the emitted
/// record delimiter-safe.
pub open spec fn sanitize_memo_spec(m: Seq<u8>) -> Seq<u8> {
    m.map_values(|b: u8| if b == 44 { 46u8 } else { b })
}

/// A wire amount that denotes a whole number of units fitting in 128 bits.
pub open spec fn amount_ok(s: Seq<u8>) -> bool {
    s.len() > 0 && all_digits(s) && dec_value(s) <= u128::MAX
}

pub open spec fn all_amounts_ok(cs: Seq<CoinStrView>) -> bool {
    forall|i: int| 0 <= i < cs.len() ==> amount_ok(cs[i].amount)
}

/// The parsed fee coins, in wire order.
pub open spec fn coins_of(cs: Seq<CoinStrView>) -> Seq<CoinView> {
    cs.map_values(|c: CoinStrView| CoinView { denom: c.denom, amount: dec_value(c.amount) as u128 })
}

/// One fee-attributed transaction: fee coins, the account credited, the
/// signer sequence, the captured client identifier, and the sanitized memo.
#[derive(Debug)]
pub struct IBCTx {
    pub coins: Vec<Coin>,
    pub account: Vec<u8>,
    pub sequence: u64,
    pub client: Vec<u8>,
    pub memo: Vec<u8>,
}

pub struct IBCTxView {
    pub coins: Seq<CoinView>,
    pub account: Seq<u8>,
    pub sequence: u64,
    pub client: Seq<u8>,
    pub memo: Seq<u8>,
}

impl View for IBCTx {
    type V = IBCTxView;

    open spec fn view(&self) -> IBCTxView {
        IBCTxView {
            coins: self.coins@.map_values(|c: Coin| c@),
            account: self.account@,
            sequence: self.sequence,
            client: self.client@,
            memo: self.memo@,
        }
    }
}

/// What classification yields for a decoded envelope: the attributed
/// transaction, `None` when the transaction earns no credit, or the error.
pub open spec fn classify_spec(env: EnvelopeView) -> Result<Option<IBCTxView>, TxError> {
    match env.body {
        None => Ok(None),
        Some(b) => match scan_client(b.messages) {
            None => Err(TxError::MalformedTransaction),
            Some(client) => {
                if !attributable(b.messages) {
                    Ok(None)
                } else {
                    match env.auth {
                        None => Ok(None),
                        Some(auth) => match auth.fee_coins {
                            None => Ok(None),
                            Some(coins) => {
                                if coins.len() == 0 || auth.signers.len() == 0 {
                                    Ok(None)
                                } else {
                                    match auth.signers[0].pubkey {
                                        None => Ok(None),
                                        Some(pk) => match codec::pubkey_key_of(pk) {
                                            None => Err(TxError::InvalidKey),
                                            Some(key) => match codec::account_of(key) {
                                                None => Err(TxError::InvalidKey),
                                                Some(acct) => {
                                                    if !all_amounts_ok(coins) {
                                                        Err(TxError::MalformedTransaction)
                                                    } else {
                                                        Ok(
                                                            Some(
                                                                IBCTxView {
                                                                    coins: coins_of(coins),
                                                                    account: acct,
                                                                    sequence:
                                                                        auth.signers[0].sequence,
                                                                    client,
                                                                    memo: sanitize_memo_spec(
                                                                        b.memo,
                                                                    ),
                                                                },
                                                            ),
                                                        )
                                                    }
                                                },
                                            },
                                        },
                                    }
                                }
                            },
                        },
                    }
                }
            },
        },
    }
}

/// What processing one encoded transaction blob yields.
pub open spec fn process_tx_spec(blob: Seq<char>) -> Result<Option<IBCTxView>, TxError> {
    match codec::base64_decode_of(blob) {
        None => Err(TxError::MalformedTransaction),
        Some(bytes) => match codec::envelope_of(bytes) {
            None => Err(TxError::MalformedTransaction),
            Some(env) => classify_spec(env),
        },
    }
}

/// The view of a classification result.
pub open spec fn result_view(r: Result<Option<IBCTx>, TxError>) -> Result<
    Option<IBCTxView>,
    TxError,
> {
    match r {
        Ok(Some(t)) => Ok(Some(t@)),
        Ok(None) => Ok(None),
        Err(e) => Err(e),
    }
}

/// Replaces every comma in a memo by a period.
pub fn sanitize_memo(m: &Vec<u8>) -> (r: Vec<u8>)
    ensures
        r@ == sanitize_memo_spec(m@),
{
    let mut out: Vec<u8> = Vec::new();
    let mut i: usize = 0;
    while i < m.len()
        invariant
            0 <= i <= m@.len(),
            out@ =~= sanitize_memo_spec(m@.take(i as int)),
        decreases m@.len() - i,
    {
        let b = m[i];
        if b == 44 {
            out.push(46);
        } else {
            out.push(b);
        }
        proof {
            assert(sanitize_memo_spec(m@.take(i + 1)) =~= sanitize_memo_spec(
                m@.take(i as int),
            ).push(if m@[i as int] == 44 {
                46u8
            } else {
                m@[i as int]
            }));
        }
        i = i + 1;
    }
    proof {
        assert(m@.take(m@.len() as int) =~= m@);
    }
    out
}

/// The sentinel client identifier as bytes.
pub fn dash_bytes() -> (r: Vec<u8>)
    ensures
        r@ == dash(),
{
    let mut v: Vec<u8> = Vec::new();
    v.push(45);
    proof {
        assert(v@ =~= dash());
    }
    v
}

fn transfer_url_bytes() -> (r: Vec<u8>)
    ensures
        r@ == transfer_url(),
{
    let v: Vec<u8> = vec![47u8, 105u8, 98u8, 99u8, 46u8, 97u8, 112u8, 112u8, 108u8, 105u8, 99u8,
        97u8, 116u8, 105u8, 111u8, 110u8, 115u8, 46u8, 116u8, 114u8, 97u8, 110u8, 115u8, 102u8,
        101u8, 114u8, 46u8, 118u8, 49u8, 46u8, 77u8, 115u8, 103u8, 84u8, 114u8, 97u8, 110u8,
        115u8, 102u8, 101u8, 114u8];
    proof {
        assert(v@ =~= transfer_url());
    }
    v
}

fn update_client_url_bytes() -> (r: Vec<u8>)
    ensures
        r@ == update_client_url(),
{
    let v: Vec<u8> = vec![47u8, 105u8, 98u8, 99u8, 46u8, 99u8, 111u8, 114u8, 101u8, 46u8, 99u8,
        108u8, 105u8, 101u8, 110u8, 116u8, 46u8, 118u8, 49u8, 46u8, 77u8, 115u8, 103u8, 85u8,
        112u8, 100u8, 97u8, 116u8, 101u8, 67u8, 108u8, 105u8, 101u8, 110u8, 116u8];
    proof {
        assert(v@ =~= update_client_url());
    }
    v
}

/// Classifies a decoded envelope, crediting the first signer only.
pub fn classify_envelope(env: &TxEnvelope) -> (r: Result<Option<IBCTx>, TxError>)
    ensures
        result_view(r) == classify_spec(env@),
{
    let body = match &env.body {
        None => {
            return Ok(None);
        },
        Some(b) => b,
    };
    let transfer = transfer_url_bytes();
    let update = update_client_url_bytes();
    let mut client: Vec<u8> = dash_bytes();
    let mut has_ibc: bool = false;
    let n = body.messages.len();
    let ghost msgs = env@.body.unwrap().messages;
    let mut i: usize = 0;
    while i < n
        invariant
            0 <= i <= n,
            n == msgs.len(),
            msgs == body.messages@.map_values(|m: RawMsg| m@),
            transfer@ == transfer_url(),
            update@ == update_client_url(),
            scan_client(msgs.take(i as int)) == Some(client@),
            has_ibc == attributable(msgs.take(i as int)),
        decreases n - i,
    {
        let m = &body.messages[i];
        proof {
            assert(msgs[i as int] == m@);
            assert(msgs.take(i + 1).drop_last() =~= msgs.take(i as int));
            assert(msgs.take(i + 1).last() == msgs[i as int]);
        }
        let url = &m.type_url;
        let is_ibc = url.len() >= 4 && url[0] == 47 && url[1] == 105 && url[2] == 98 && url[3]
            == 99;
        proof {
            if is_ibc {
                assert(m@.type_url.take(4) =~= ibc_prefix());
            } else {
                if m@.type_url.len() >= 4 && m@.type_url.take(4) == ibc_prefix() {
                    assert(m@.type_url[0] == 47 && m@.type_url[1] == 105 && m@.type_url[2] == 98
                        && m@.type_url[3] == 99);
                }
            }
            assert(is_ibc == is_ibc_url(m@.type_url));
        }
        if is_ibc {
            if bytes_eq(url, &update) {
                match codec::decode_update_client(&m.value) {
                    Some(id) => {
                        client = id;
                    },
                    None => {
                        proof {
                            assert(scan_client(msgs.take(i + 1)) is None);
                            lemma_scan_client_err(msgs, i + 1);
                        }
                        return Err(TxError::MalformedTransaction);
                    },
                }
            }
            if !bytes_eq(url, &transfer) {
                has_ibc = true;
                proof {
                    assert(is_counted_msg(msgs.take(i + 1).last().type_url));
                }
            }
        }
        proof {
            if has_ibc && !attributable(msgs.take(i + 1)) {
                assert(false);
            }
            if attributable(msgs.take(i + 1)) && !has_ibc {
                let w = choose|w: int|
                    0 <= w < msgs.take(i + 1).len() && is_counted_msg(
                        #[trigger] msgs.take(i + 1)[w].type_url,
                    );
                if w < i {
                    assert(is_counted_msg(msgs.take(i as int)[w].type_url));
                }
            }
        }
        i = i + 1;
    }
    proof {
        assert(msgs.take(n as int) =~= msgs);
    }
    if !has_ibc {
        return Ok(None);
    }
    let auth = match &env.auth {
        None => {
            return Ok(None);
        },
        Some(a) => a,
    };
    let coins = match &auth.fee_coins {
        None => {
            return Ok(None);
        },
        Some(cs) => cs,
    };
    if coins.len() == 0 || auth.signers.len() == 0 {
        return Ok(None);
    }
    let pk = match &auth.signers[0].pubkey {
        None => {
            proof {
                assert(env@.auth.unwrap().signers[0].pubkey is None);
            }
            return Ok(None);
        },
        Some(p) => p,
    };
    let key = match codec::decode_secp_pubkey(pk) {
        None => {
            return Err(TxError::InvalidKey);
        },
        Some(k) => k,
    };
    let acct = match codec::derive_account(&key) {
        None => {
            return Err(TxError::InvalidKey);
        },
        Some(a) => a,
    };
    let ghost cvs = env@.auth.unwrap().fee_coins.unwrap();
    let mut parsed: Vec<Coin> = Vec::new();
    let mut k: usize = 0;
    while k < coins.len()
        invariant
            0 <= k <= coins@.len(),
            cvs == coins@.map_values(|c: CoinStr| c@),
            parsed@.len() == k,
            forall|j: int| 0 <= j < k ==> #[trigger] amount_ok(cvs[j].amount),
            forall|j: int| 0 <= j < k ==> #[trigger] parsed@[j]@ == coins_of(cvs)[j],
        decreases coins@.len() - k,
    {
        let c = &coins[k];
        match parse_u128(&c.amount) {
            Some(v) => {
                parsed.push(Coin { denom: bytes_copy(&c.denom), amount: v });
                proof {
                    assert(coins@[k as int]@ == cvs[k as int]);
                    assert(amount_ok(cvs[k as int].amount));
                    assert(coins_of(cvs)[k as int] == CoinView {
                        denom: cvs[k as int].denom,
                        amount: dec_value(cvs[k as int].amount) as u128,
                    });
                    assert(parsed@[k as int]@ == coins_of(cvs)[k as int]);
                }
            },
            None => {
                proof {
                    assert(!amount_ok(cvs[k as int].amount));
                }
                return Err(TxError::MalformedTransaction);
            },
        }
        k = k + 1;
    }
    let seq0 = auth.signers[0].sequence;
    let memo = sanitize_memo(&body.memo);
    let t = IBCTx { coins: parsed, account: acct, sequence: seq0, client, memo };
    proof {
        let bv = env@.body.unwrap();
        let av = env@.auth.unwrap();
        assert(av.signers[0] == auth.signers@[0]@);
        assert(av.fee_coins == Some(cvs));
        assert(t@.coins =~= coins_of(cvs));
        assert(all_amounts_ok(cvs));
        assert(scan_client(bv.messages) == Some(t@.client));
        assert(classify_spec(env@) == Ok::<Option<IBCTxView>, TxError>(Some(t@)));
    }
    Ok(Some(t))
}

/// Once walking the messages has failed, the whole walk fails.
proof fn lemma_scan_client_err(msgs: Seq<MsgView>, i: int)
    requires
        0 <= i <= msgs.len(),
        scan_client(msgs.take(i)) is None,
    ensures
        scan_client(msgs) is None,
    decreases msgs.len() - i,
{
    if i < msgs.len() {
        assert(msgs.take(i + 1).drop_last() =~= msgs.take(i));
        lemma_scan_client_err(msgs, i + 1);
    } else {
        assert(msgs.take(i) =~= msgs);
    }
}

/// At-most-one-credit: a classified transaction is attributed to exactly one
/// account, the one derived from the first signer's public key, however many
/// signers the transaction carries.
pub proof fn lemma_first_signer_credit(env: EnvelopeView, t: IBCTxView)
    requires
        classify_spec(env) == Ok::<Option<IBCTxView>, TxError>(Some(t)),
    ensures
        env.auth matches Some(auth) && auth.signers.len() >= 1 && (auth.signers[0].pubkey matches Some(
            pk,
        ) && (codec::pubkey_key_of(pk) matches Some(key) && codec::account_of(key) == Some(
            t.account,
        ))),
{
}

proof fn lemma_scan_client_no_update(msgs: Seq<MsgView>)
    requires
        forall|i: int| 0 <= i < msgs.len() ==> (#[trigger] msgs[i]).type_url != update_client_url(),
    ensures
        scan_client(msgs) == Some(dash()),
    decreases msgs.len(),
{
    if msgs.len() > 0 {
        assert(forall|i: int|
            0 <= i < msgs.drop_last().len() ==> (#[trigger] msgs.drop_last()[i]).type_url
                != update_client_url());
        lemma_scan_client_no_update(msgs.drop_last());
    }
}

/// Transfer exclusion: a transaction whose only cross-chain messages are
/// plain asset transfers earns no credit.
pub proof fn lemma_transfer_only_excluded(env: EnvelopeView)
    requires
        env.body is Some,
        forall|i: int|
            0 <= i < env.body.unwrap().messages.len() ==> (is_ibc_url(
                (#[trigger] env.body.unwrap().messages[i]).type_url,
            ) ==> env.body.unwrap().messages[i].type_url == transfer_url()),
    ensures
        classify_spec(env) == Ok::<Option<IBCTxView>, TxError>(None),
{
    let msgs = env.body.unwrap().messages;
    assert(update_client_url().len() != transfer_url().len());
    assert forall|i: int| 0 <= i < msgs.len() implies (#[trigger] msgs[i]).type_url
        != update_client_url() by {
        if msgs[i].type_url == update_client_url() {
            assert(update_client_url().take(4) =~= ibc_prefix());
            assert(is_ibc_url(msgs[i].type_url));
        }
    }
    lemma_scan_client_no_update(msgs);
    if attributable(msgs) {
        let w = choose|w: int| 0 <= w < msgs.len() && is_counted_msg(#[trigger] msgs[w].type_url);
        assert(msgs[w].type_url == transfer_url());
        assert(false);
    }
}

/// Processes one base64-encoded transaction blob into its classification.
pub fn process_tx(blob: &str) -> (r: Result<Option<IBCTx>, TxError>)
    ensures
        result_view(r) == process_tx_spec(blob@),
{
    let bytes = match codec::base64_decode(blob) {
        None => {
            return Err(TxError::MalformedTransaction);
        },
        Some(b) => b,
    };
    let env = match codec::decode_envelope(bytes.as_slice()) {
        None => {
            return Err(TxError::MalformedTransaction);
        },
        Some(e) => e,
    };
    classify_envelope(&env)
}

} // verus!
