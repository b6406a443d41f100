use vstd::prelude::*;

use crate::envelope::{AuthData, CoinStr, EnvelopeView, RawMsg, SignerData, TxBodyData, TxEnvelope};
use prost::Message;
use terra_proto::generated::cosmos::tx::v1beta1::Tx as WireTx;

verus! {

/// What `base64::decode` yields for a given text, `None` on invalid input.
pub uninterp spec fn base64_decode_of(s: Seq<char>) -> Option<Seq<u8>>;

/// Relies on `base64::decode` (standard alphabet): the decoded bytes are a
/// pure function of the input text.
#[verifier::external_body]
pub(crate) fn base64_decode(s: &str) -> (r: Option<Vec<u8>>)
    ensures
        match r {
            Some(b) => base64_decode_of(s@) == Some(b@),
            None => base64_decode_of(s@) is None,
        },
{
    base64::decode(s).ok()
}

/// What protobuf decoding of `cosmos.tx.v1beta1.Tx` yields for given bytes,
/// restricted to the fields this library reads; `None` on undecodable bytes.
pub uninterp spec fn envelope_of(b: Seq<u8>) -> Option<EnvelopeView>;

/// Relies on prost decoding of `cosmos.tx.v1beta1.Tx` (`terra_proto`): the
/// decoded envelope is a pure function of the bytes.
#[verifier::external_body]
pub(crate) fn decode_envelope(bytes: &[u8]) -> (r: Option<TxEnvelope>)
    ensures
        match r {
            Some(env) => envelope_of(bytes@) == Some(env@),
            None => envelope_of(bytes@) is None,
        },
{
    let tx = WireTx::decode(bytes).ok()?;
    Some(TxEnvelope {
        body: tx.body.map(|b| TxBodyData {
            messages: b.messages.into_iter().map(|m| RawMsg { type_url: m.type_url.into_bytes(), value: m.value }).collect(),
            memo: b.memo.into_bytes(),
        }),
        auth: tx.auth_info.map(|a| AuthData {
            fee_coins: a.fee.map(|f| f.amount.into_iter().map(|c| CoinStr { denom: c.denom.into_bytes(), amount: c.amount.into_bytes() }).collect()),
            signers: a.signer_infos.into_iter().map(|s| SignerData { pubkey: s.public_key.map(|p| p.value), sequence: s.sequence }).collect(),
        }),
    })
}

/// The `client_id` that protobuf decoding of
/// `ibc.core.client.v1.MsgUpdateClient` yields; `None` on undecodable bytes.
pub uninterp spec fn update_client_id_of(b: Seq<u8>) -> Option<Seq<u8>>;

/// Relies on prost decoding of `ibc.core.client.v1.MsgUpdateClient`
/// (`terra_proto`): the `client_id` field is a pure function of the bytes.
#[verifier::external_body]
pub(crate) fn decode_update_client(value: &Vec<u8>) -> (r: Option<Vec<u8>>)
    ensures
        match r {
            Some(id) => update_client_id_of(value@) == Some(id@),
            None => update_client_id_of(value@) is None,
        },
{
    terra_proto::generated::ibc::core::client::v1::MsgUpdateClient::decode(value.as_slice())
        .ok()
        .map(|m| m.client_id.into_bytes())
}

/// The `key` field that protobuf decoding of `cosmos.crypto.secp256k1.PubKey`
/// yields; `None` on undecodable bytes.
pub uninterp spec fn pubkey_key_of(b: Seq<u8>) -> Option<Seq<u8>>;

/// Relies on prost decoding of `cosmos.crypto.secp256k1.PubKey`
/// (`terra_proto`): the key bytes are a pure function of the payload.
#[verifier::external_body]
pub(crate) fn decode_secp_pubkey(value: &Vec<u8>) -> (r: Option<Vec<u8>>)
    ensures
        match r {
            Some(k) => pubkey_key_of(value@) == Some(k@),
            None => pubkey_key_of(value@) is None,
        },
{
    terra_proto::generated::cosmos::crypto::secp256k1::PubKey::decode(value.as_slice())
        .ok()
        .map(|p| p.key)
}

/// The account text derived from compressed public key bytes; `None` when
/// rendering fails.
pub uninterp spec fn account_of(key: Seq<u8>) -> Option<Seq<u8>>;

/// Relies on `terra_rust_api::PublicKey::from_public_key` and
/// `PublicKey::account`: hashing and bech32 rendering of the account depend
/// on the key bytes alone.
#[verifier::external_body]
pub(crate) fn derive_account(key: &Vec<u8>) -> (r: Option<Vec<u8>>)
    ensures
        match r {
            Some(a) => account_of(key@) == Some(a@),
            None => account_of(key@) is None,
        },
{
    terra_rust_api::PublicKey::from_public_key(key.as_slice())
        .account()
        .ok()
        .map(|a| a.into_bytes())
}

} // verus!
