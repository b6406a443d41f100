use vstd::prelude::*;

verus! {

/// One message of a transaction body: a type identifier and opaque payload.
pub struct RawMsg {
    pub type_url: Vec<u8>,
    pub value: Vec<u8>,
}

pub struct MsgView {
    pub type_url: Seq<u8>,
    pub value: Seq<u8>,
}

impl View for RawMsg {
    type V = MsgView;

    open spec fn view(&self) -> MsgView {
        MsgView { type_url: self.type_url@, value: self.value@ }
    }
}

/// One fee coin as carried on the wire: denomination and decimal amount text.
pub struct CoinStr {
    pub denom: Vec<u8>,
    pub amount: Vec<u8>,
}

pub struct CoinStrView {
    pub denom: Seq<u8>,
    pub amount: Seq<u8>,
}

impl View for CoinStr {
    type V = CoinStrView;

    open spec fn view(&self) -> CoinStrView {
        CoinStrView { denom: self.denom@, amount: self.amount@ }
    }
}

/// One signer entry: its public key payload, if present, and its sequence.
pub struct SignerData {
    pub pubkey: Option<Vec<u8>>,
    pub sequence: u64,
}

pub struct SignerView {
    pub pubkey: Option<Seq<u8>>,
    pub sequence: u64,
}

impl View for SignerData {
    type V = SignerView;

    open spec fn view(&self) -> SignerView {
        SignerView {
            pubkey: match self.pubkey {
                Some(p) => Some(p@),
                None => None,
            },
            sequence: self.sequence,
        }
    }
}

/// The processable content of a transaction.
pub struct TxBodyData {
    pub messages: Vec<RawMsg>,
    pub memo: Vec<u8>,
}

pub struct BodyView {
    pub messages: Seq<MsgView>,
    pub memo: Seq<u8>,
}

impl View for TxBodyData {
    type V = BodyView;

    open spec fn view(&self) -> BodyView {
        BodyView { messages: self.messages@.map_values(|m: RawMsg| m@), memo: self.memo@ }
    }
}

/// The authorization content: the fee's coin list, if a fee is present, and
/// the signer list.
pub struct AuthData {
    pub fee_coins: Option<Vec<CoinStr>>,
    pub signers: Vec<SignerData>,
}

pub struct AuthView {
    pub fee_coins: Option<Seq<CoinStrView>>,
    pub signers: Seq<SignerView>,
}

impl View for AuthData {
    type V = AuthView;

    open spec fn view(&self) -> AuthView {
        AuthView {
            fee_coins: match self.fee_coins {
                Some(ref cs) => Some(cs@.map_values(|c: CoinStr| c@)),
                None => None,
            },
            signers: self.signers@.map_values(|s: SignerData| s@),
        }
    }
}

/// A decoded transaction envelope, holding exactly what classification reads.
pub struct TxEnvelope {
    pub body: Option<TxBodyData>,
    pub auth: Option<AuthData>,
}

pub struct EnvelopeView {
    pub body: Option<BodyView>,
    pub auth: Option<AuthView>,
}

impl View for TxEnvelope {
    type V = EnvelopeView;

    open spec fn view(&self) -> EnvelopeView {
        EnvelopeView {
            body: match self.body {
                Some(ref b) => Some(b@),
                None => None,
            },
            auth: match self.auth {
                Some(ref a) => Some(a@),
                None => None,
            },
        }
    }
}

} // verus!
