use ibc_fee_scan::bytestr::{bytes_eq, join_exec, split_exec};
use ibc_fee_scan::classify::{classify_envelope, sanitize_memo, IBCTx, TxError};
use ibc_fee_scan::coin::{parse_coin, render_coin, Coin};
use ibc_fee_scan::digits::{parse_u128, parse_u64, render_u128, render_u64};
use ibc_fee_scan::envelope::{AuthData, CoinStr, RawMsg, SignerData, TxBodyData, TxEnvelope};
use ibc_fee_scan::scan::{ScanAction, ScanCursor, ORIGIN_HEIGHT};
use ibc_fee_scan::tally::AccountTally;
use prost::Message;

fn b(s: &str) -> Vec<u8> {
    s.as_bytes().to_vec()
}

#[test]
fn digits_render() {
    assert_eq!(render_u128(0), b("0"));
    assert_eq!(render_u128(350), b("350"));
    assert_eq!(render_u64(8397604), b("8397604"));
    assert_eq!(
        render_u128(340282366920938463463374607431768211455),
        b("340282366920938463463374607431768211455")
    );
}

#[test]
fn digits_parse() {
    assert_eq!(parse_u64(&b("100")), Some(100));
    assert_eq!(parse_u64(&b("")), None);
    assert_eq!(parse_u64(&b("1x2")), None);
    assert_eq!(parse_u64(&b("18446744073709551615")), Some(u64::MAX));
    assert_eq!(parse_u64(&b("18446744073709551616")), None);
    assert_eq!(parse_u128(&b("340282366920938463463374607431768211455")), Some(u128::MAX));
    assert_eq!(parse_u128(&b("340282366920938463463374607431768211456")), None);
}

#[test]
fn split_and_join() {
    let parts = split_exec(&b("100,terra1abc,500uluna,07-tendermint-1,hello"), 44);
    assert_eq!(parts.len(), 5);
    assert_eq!(parts[0], b("100"));
    assert_eq!(parts[1], b("terra1abc"));
    assert_eq!(parts[2], b("500uluna"));
    assert_eq!(parts[4], b("hello"));
    let parts2 = split_exec(&b("a,,b"), 44);
    assert_eq!(parts2.len(), 3);
    assert_eq!(parts2[1], b(""));
    assert_eq!(join_exec(&vec![b("300uluna"), b("1uusd")], 124), b("300uluna|1uusd"));
    assert_eq!(join_exec(&Vec::new(), 124), b(""));
    assert!(bytes_eq(&b("abc"), &b("abc")));
    assert!(!bytes_eq(&b("abc"), &b("abd")));
}

#[test]
fn coin_tokens() {
    let c = parse_coin(&b("500uluna")).unwrap();
    assert_eq!(c.denom, b("uluna"));
    assert_eq!(c.amount, 500);
    assert_eq!(render_coin(&c), b("500uluna"));
    let ibc = parse_coin(&b("7ibc/27394FB092D2ECCD56123C74F36E4C1F")).unwrap();
    assert_eq!(ibc.amount, 7);
    assert!(parse_coin(&b("07-tendermint-1")).is_none());
    assert!(parse_coin(&b("hello")).is_none());
    assert!(parse_coin(&b("")).is_none());
    assert!(parse_coin(&b("123")).is_none());
    assert!(parse_coin(&b("1.5uluna")).is_none());
}

#[test]
fn tally_additivity() {
    let mut t = AccountTally::new();
    assert!(t.add(&b("A"), &b("uluna"), 100));
    assert!(t.add(&b("A"), &b("uluna"), 250));
    assert!(t.add(&b("A"), &b("uusd"), 1));
    assert!(t.add(&b("B"), &b("uluna"), 5));
    assert_eq!(t.entries.len(), 2);
    assert_eq!(t.entries[0].account, b("A"));
    assert_eq!(t.entries[0].fees.amount_of(&b("uluna")), 350);
    assert_eq!(t.entries[0].fees.amount_of(&b("uusd")), 1);
    assert_eq!(t.entries[1].fees.amount_of(&b("uluna")), 5);
    assert_eq!(t.entries[1].fees.amount_of(&b("uusd")), 0);
}

#[test]
fn tally_overflow_is_reported() {
    let mut t = AccountTally::new();
    assert!(t.add(&b("A"), &b("uluna"), u128::MAX));
    assert!(!t.add(&b("A"), &b("uluna"), 1));
    assert_eq!(t.entries[0].fees.amount_of(&b("uluna")), u128::MAX);
}

#[test]
fn memo_sanitization() {
    assert_eq!(sanitize_memo(&b("hello,world,x")), b("hello.world.x"));
    assert_eq!(sanitize_memo(&b("no commas")), b("no commas"));
    assert_eq!(sanitize_memo(&b("")), b(""));
}

#[test]
fn cursor_basics() {
    assert_eq!(ORIGIN_HEIGHT, 8397604);
    let c = ScanCursor::at_origin();
    assert_eq!(c.height, ORIGIN_HEIGHT);
    let c2 = ScanCursor::restore(Some(9000));
    assert_eq!(c2.height, 9000);
    let c3 = ScanCursor::restore(None);
    assert_eq!(c3.height, ORIGIN_HEIGHT);
}

#[test]
fn cursor_progress_is_gapless() {
    let mut c = ScanCursor::restore(Some(9000));
    assert_eq!(c.next_action(9001), ScanAction::Fetch(9000));
    let p1 = c.complete_block(9000);
    assert_eq!(p1, 9000);
    assert_eq!(c.height, 9001);
    assert_eq!(c.next_action(9001), ScanAction::Fetch(9001));
    let p2 = c.complete_block(9001);
    assert_eq!(p2, 9001);
    assert!(p2 >= p1);
    assert_eq!(c.height, 9002);
    assert_eq!(c.next_action(9001), ScanAction::RefreshHead);
    let resumed = ScanCursor::restore(Some(p2));
    assert!(resumed.height <= c.height);
    assert_eq!(c.height - resumed.height, 1);
}

fn pubkey_any_value(key: &[u8]) -> Vec<u8> {
    let pk = terra_proto::generated::cosmos::crypto::secp256k1::PubKey { key: key.to_vec() };
    pk.encode_to_vec()
}

fn expected_account(key: &[u8]) -> Vec<u8> {
    terra_rust_api::PublicKey::from_public_key(key)
        .account()
        .unwrap()
        .into_bytes()
}

fn counted_msg() -> RawMsg {
    RawMsg {
        type_url: b("/ibc.core.connection.v1.MsgConnectionOpenConfirm"),
        value: Vec::new(),
    }
}

fn simple_envelope(msgs: Vec<RawMsg>, signers: Vec<SignerData>) -> TxEnvelope {
    TxEnvelope {
        body: Some(TxBodyData { messages: msgs, memo: b("hi") }),
        auth: Some(AuthData {
            fee_coins: Some(vec![CoinStr { denom: b("uluna"), amount: b("500") }]),
            signers,
        }),
    }
}

#[test]
fn first_signer_gets_sole_credit() {
    let key1 = [2u8; 33];
    let key2 = [3u8; 33];
    let env = simple_envelope(
        vec![counted_msg()],
        vec![
            SignerData { pubkey: Some(pubkey_any_value(&key1)), sequence: 7 },
            SignerData { pubkey: Some(pubkey_any_value(&key2)), sequence: 9 },
        ],
    );
    let t: IBCTx = classify_envelope(&env).unwrap().unwrap();
    assert_eq!(t.account, expected_account(&key1));
    assert_ne!(t.account, expected_account(&key2));
    assert_eq!(t.sequence, 7);
    assert_eq!(t.coins.len(), 1);
    assert_eq!(t.coins[0].denom, b("uluna"));
    assert_eq!(t.coins[0].amount, 500);
    assert_eq!(t.client, b("-"));
}

#[test]
fn transfer_only_is_excluded() {
    let env = simple_envelope(
        vec![RawMsg {
            type_url: b("/ibc.applications.transfer.v1.MsgTransfer"),
            value: Vec::new(),
        }],
        vec![SignerData { pubkey: Some(pubkey_any_value(&[2u8; 33])), sequence: 1 }],
    );
    assert!(classify_envelope(&env).unwrap().is_none());
}

#[test]
fn unrelated_messages_are_excluded() {
    let env = simple_envelope(
        vec![RawMsg { type_url: b("/cosmos.bank.v1beta1.MsgSend"), value: Vec::new() }],
        vec![SignerData { pubkey: Some(pubkey_any_value(&[2u8; 33])), sequence: 1 }],
    );
    assert!(classify_envelope(&env).unwrap().is_none());
}

#[test]
fn update_client_id_is_captured() {
    let upd = terra_proto::generated::ibc::core::client::v1::MsgUpdateClient {
        client_id: "07-tendermint-1".to_string(),
        header: None,
        signer: String::new(),
    };
    let env = simple_envelope(
        vec![RawMsg {
            type_url: b("/ibc.core.client.v1.MsgUpdateClient"),
            value: upd.encode_to_vec(),
        }],
        vec![SignerData { pubkey: Some(pubkey_any_value(&[2u8; 33])), sequence: 1 }],
    );
    let t = classify_envelope(&env).unwrap().unwrap();
    assert_eq!(t.client, b("07-tendermint-1"));
}

#[test]
fn missing_fee_or_signer_is_skipped() {
    let mut env = simple_envelope(vec![counted_msg()], Vec::new());
    assert!(classify_envelope(&env).unwrap().is_none());
    env = simple_envelope(
        vec![counted_msg()],
        vec![SignerData { pubkey: None, sequence: 1 }],
    );
    assert!(classify_envelope(&env).unwrap().is_none());
    env = TxEnvelope {
        body: Some(TxBodyData { messages: vec![counted_msg()], memo: Vec::new() }),
        auth: Some(AuthData { fee_coins: None, signers: Vec::new() }),
    };
    assert!(classify_envelope(&env).unwrap().is_none());
    env = TxEnvelope {
        body: Some(TxBodyData { messages: vec![counted_msg()], memo: Vec::new() }),
        auth: Some(AuthData {
            fee_coins: Some(Vec::new()),
            signers: vec![SignerData { pubkey: Some(pubkey_any_value(&[2u8; 33])), sequence: 1 }],
        }),
    };
    assert!(classify_envelope(&env).unwrap().is_none());
}

#[test]
fn bad_pubkey_is_invalid_key() {
    let env = simple_envelope(
        vec![counted_msg()],
        vec![SignerData { pubkey: Some(vec![255, 255, 255]), sequence: 1 }],
    );
    assert_eq!(classify_envelope(&env).unwrap_err(), TxError::InvalidKey);
}

#[test]
fn bad_amount_is_malformed() {
    let env = TxEnvelope {
        body: Some(TxBodyData { messages: vec![counted_msg()], memo: Vec::new() }),
        auth: Some(AuthData {
            fee_coins: Some(vec![CoinStr { denom: b("uluna"), amount: b("12x") }]),
            signers: vec![SignerData { pubkey: Some(pubkey_any_value(&[2u8; 33])), sequence: 1 }],
        }),
    };
    assert_eq!(classify_envelope(&env).unwrap_err(), TxError::MalformedTransaction);
}

#[test]
fn coin_copy_is_faithful() {
    let c = Coin { denom: b("uusd"), amount: 42 };
    let c2 = ibc_fee_scan::coin::coin_copy(&c);
    assert_eq!(c2.denom, b("uusd"));
    assert_eq!(c2.amount, 42);
}
