use ibc_fee_scan::block::{header_line, process_block};
use ibc_fee_scan::classify::{process_tx, TxError};
use ibc_fee_scan::summary::{
    account_row, accounts_header, counts_header, total_row, totals_columns, totals_header,
    FeeSummary, Summarizer, SummaryError,
};
use ibc_fee_scan::coin::Coin;
use prost::Message;

fn b(s: &str) -> Vec<u8> {
    s.as_bytes().to_vec()
}

fn encoded_tx(memo: &str, key: &[u8], coins: &[(&str, &str)], urls: &[&str]) -> String {
    let pk = terra_proto::generated::cosmos::crypto::secp256k1::PubKey { key: key.to_vec() };
    let tx = terra_proto::generated::cosmos::tx::v1beta1::Tx {
        body: Some(terra_proto::generated::cosmos::tx::v1beta1::TxBody {
            messages: urls
                .iter()
                .map(|u| prost_types::Any { type_url: u.to_string(), value: Vec::new() })
                .collect(),
            memo: memo.to_string(),
            timeout_height: 0,
            extension_options: Vec::new(),
            non_critical_extension_options: Vec::new(),
        }),
        auth_info: Some(terra_proto::generated::cosmos::tx::v1beta1::AuthInfo {
            signer_infos: vec![terra_proto::generated::cosmos::tx::v1beta1::SignerInfo {
                public_key: Some(prost_types::Any {
                    type_url: "/cosmos.crypto.secp256k1.PubKey".to_string(),
                    value: pk.encode_to_vec(),
                }),
                mode_info: None,
                sequence: 11,
            }],
            fee: Some(terra_proto::generated::cosmos::tx::v1beta1::Fee {
                amount: coins
                    .iter()
                    .map(|(a, d)| terra_proto::generated::cosmos::base::v1beta1::Coin {
                        denom: d.to_string(),
                        amount: a.to_string(),
                    })
                    .collect(),
                gas_limit: 200000,
                payer: String::new(),
                granter: String::new(),
            }),
        }),
        signatures: Vec::new(),
    };
    base64::encode(tx.encode_to_vec())
}

fn expected_account(key: &[u8]) -> Vec<u8> {
    terra_rust_api::PublicKey::from_public_key(key)
        .account()
        .unwrap()
        .into_bytes()
}

#[test]
fn process_tx_end_to_end() {
    let key = [2u8; 33];
    let blob = encoded_tx(
        "note,with commas",
        &key,
        &[("500", "uluna")],
        &["/ibc.core.connection.v1.MsgConnectionOpenConfirm"],
    );
    let t = process_tx(&blob).unwrap().unwrap();
    assert_eq!(t.account, expected_account(&key));
    assert_eq!(t.memo, b("note.with commas"));
    assert_eq!(t.sequence, 11);
    assert_eq!(t.coins.len(), 1);
    assert_eq!(t.coins[0].amount, 500);
    assert_eq!(t.coins[0].denom, b("uluna"));
}

#[test]
fn process_tx_rejects_garbage() {
    assert_eq!(process_tx("!!!not base64!!!").unwrap_err(), TxError::MalformedTransaction);
}

#[test]
fn process_tx_skips_non_ibc() {
    let blob = encoded_tx("m", &[2u8; 33], &[("5", "uluna")], &["/cosmos.bank.v1beta1.MsgSend"]);
    assert!(process_tx(&blob).unwrap().is_none());
}

#[test]
fn header_line_shape() {
    assert_eq!(header_line(), b("block,account,fees,src_port,src_channel"));
}

#[test]
fn process_block_emits_records_in_order() {
    let key = [2u8; 33];
    let acct = String::from_utf8(expected_account(&key)).unwrap();
    let txs = vec![
        encoded_tx(
            "hello,world",
            &key,
            &[("500", "uluna"), ("1", "uusd")],
            &["/ibc.core.connection.v1.MsgConnectionOpenConfirm"],
        ),
        encoded_tx("m", &key, &[("5", "uluna")], &["/cosmos.bank.v1beta1.MsgSend"]),
        encoded_tx(
            "w",
            &key,
            &[("300", "uluna")],
            &["/ibc.core.channel.v1.MsgRecvPacket"],
        ),
    ];
    let out = process_block(8500, &txs).unwrap();
    assert_eq!(out.lines.len(), 2);
    let line0 = String::from_utf8(out.lines[0].clone()).unwrap();
    let line1 = String::from_utf8(out.lines[1].clone()).unwrap();
    assert_eq!(line0, format!("8500,{},500uluna|1uusd,-,hello.world", acct));
    assert_eq!(line1, format!("8500,{},300uluna,-,w", acct));
    assert_eq!(out.tally.entries.len(), 1);
    assert_eq!(out.tally.entries[0].fees.amount_of(&b("uluna")), 800);
    assert_eq!(out.tally.entries[0].fees.amount_of(&b("uusd")), 1);
}

#[test]
fn process_block_empty_is_ok() {
    let out = process_block(1, &Vec::new()).unwrap();
    assert!(out.lines.is_empty());
    assert!(out.tally.entries.is_empty());
}

#[test]
fn round_trip_scenario() {
    let mut s = Summarizer::new();
    assert!(s.process_line(&b("100")).is_ok());
    assert!(s.process_line(&b("100,terra1abc,500uluna,07-tendermint-1,hello")).is_ok());
    assert!(s.process_line(&b("101,terra1abc,300uluna|1uusd,07-tendermint-1,world")).is_ok());
    assert_eq!(s.start, Some(100));
    assert_eq!(s.last, Some(101));
    assert_eq!(s.account_count(), 1);
    assert_eq!(s.records_for(&b("terra1abc")), 2);
    assert_eq!(s.fees_for(&b("terra1abc"), &b("uluna")), 800);
    assert_eq!(s.fees_for(&b("terra1abc"), &b("uusd")), 1);
    let totals = s.global_totals().unwrap();
    assert_eq!(totals.amount_of(&b("uluna")), 800);
    assert_eq!(totals.amount_of(&b("uusd")), 1);
}

#[test]
fn report_rendering() {
    let mut s = Summarizer::new();
    assert!(s.process_line(&b("100")).is_ok());
    assert!(s.process_line(&b("100,terra1abc,500uluna,07-tendermint-1,hello")).is_ok());
    assert!(s.process_line(&b("101,terra1abc,300uluna|1uusd,07-tendermint-1,world")).is_ok());
    assert_eq!(counts_header(), b("# Start,End,#Accounts"));
    assert_eq!(s.counts_line(), b("# 100,101,1"));
    assert_eq!(totals_header(), b("# Totals"));
    assert_eq!(totals_columns(), b("denom,amount"));
    assert_eq!(total_row(&b("uluna"), 800), b("uluna,800"));
    assert_eq!(accounts_header(), b("Account,#Transactions,Fees"));
    assert_eq!(
        account_row(&s.entries[0]),
        b("terra1abc,2,\"800uluna,1uusd\"")
    );
}

#[test]
fn duplicate_record_doubles() {
    let mut s = Summarizer::new();
    assert!(s.process_line(&b("100")).is_ok());
    assert!(s.process_line(&b("100,terra1abc,500uluna,c,m")).is_ok());
    assert_eq!(s.records_for(&b("terra1abc")), 1);
    assert_eq!(s.fees_for(&b("terra1abc"), &b("uluna")), 500);
    assert!(s.process_line(&b("100,terra1abc,500uluna,c,m")).is_ok());
    assert_eq!(s.records_for(&b("terra1abc")), 2);
    assert_eq!(s.fees_for(&b("terra1abc"), &b("uluna")), 1000);
}

#[test]
fn summarizer_ignores_short_and_header_lines() {
    let mut s = Summarizer::new();
    assert!(s.process_line(&b("block,account,fees,src_port,src_channel")).is_ok());
    assert_eq!(s.start, None);
    assert!(s.process_line(&b("100")).is_ok());
    assert_eq!(s.start, Some(100));
    assert!(s.process_line(&b("ignored")).is_ok());
    assert!(s.process_line(&b("also,ignored")).is_ok());
    assert_eq!(s.account_count(), 0);
    assert_eq!(s.last, None);
}

#[test]
fn summarizer_bad_height_is_fatal() {
    let mut s = Summarizer::new();
    assert!(s.process_line(&b("100")).is_ok());
    assert_eq!(
        s.process_line(&b("abc,terra1abc,500uluna")).unwrap_err(),
        SummaryError::BadHeight
    );
}

#[test]
fn summarizer_skips_malformed_coin_tokens() {
    let mut s = Summarizer::new();
    assert!(s.process_line(&b("100")).is_ok());
    assert!(s.process_line(&b("101,terra1abc,bogus|300uluna|1.5uusd")).is_ok());
    assert_eq!(s.records_for(&b("terra1abc")), 1);
    assert_eq!(s.fees_for(&b("terra1abc"), &b("uluna")), 300);
    assert_eq!(s.fees_for(&b("terra1abc"), &b("uusd")), 0);
}

#[test]
fn fee_summary_operations() {
    let uluna = Coin { denom: b("uluna"), amount: 100 };
    let uusd = Coin { denom: b("uusd"), amount: 7 };
    let mut f = FeeSummary::create(&uluna);
    assert_eq!(f.count, 1);
    assert_eq!(f.fees.amount_of(&b("uluna")), 100);
    assert!(f.add_fee(&uluna));
    assert_eq!(f.count, 2);
    assert_eq!(f.fees.amount_of(&b("uluna")), 200);
    assert!(f.add_coin(&uusd));
    assert_eq!(f.count, 2);
    assert_eq!(f.fees.amount_of(&b("uusd")), 7);
}
