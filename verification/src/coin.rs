use vstd::prelude::*;

use crate::bytestr::bytes_copy;
use crate::digits::{all_digits, dec_repr, dec_value, is_digit, parse_u128, render_u128};

verus! {

/// A fee amount in one denomination, exact to the unit.
#[derive(Debug)]
pub struct Coin {
    pub denom: Vec<u8>,
    pub amount: u128,
}

/// The value of a coin, for specifications.
pub struct CoinView {
    pub denom: Seq<u8>,
    pub amount: u128,
}

impl View for Coin {
    type V = CoinView;

    open spec fn view(&self) -> CoinView {
        CoinView { denom: self.denom@, amount: self.amount }
    }
}

pub open spec fn is_letter(b: u8) -> bool {
    (65 <= b <= 90) || (97 <= b <= 122)
}

pub open spec fn is_hex_digit(b: u8) -> bool {
    is_digit(b) || (65 <= b <= 70) || (97 <= b <= 102)
}

/// A denomination written with letters only, such as a token symbol.
pub open spec fn is_plain_denom(s: Seq<u8>) -> bool {
    s.len() > 0 && forall|i: int| 0 <= i < s.len() ==> is_letter(s[i])
}

/// A denomination of the form `ibc/` followed by hexadecimal digits.
pub open spec fn is_ibc_denom(s: Seq<u8>) -> bool {
    &&& s.len() > 4
    &&& s[0] == 105
    &&& s[1] == 98
    &&& s[2] == 99
    &&& s[3] == 47
    &&& forall|i: int| 4 <= i < s.len() ==> is_hex_digit(s[i])
}

pub open spec fn is_denom(s: Seq<u8>) -> bool {
    is_plain_denom(s) || is_ibc_denom(s)
}

/// Length of the leading run of decimal digits.
pub open spec fn digit_prefix_len(s: Seq<u8>) -> int
    decreases s.len(),
{
    if s.len() == 0 || !is_digit(s[0]) {
        0
    } else {
        1 + digit_prefix_len(s.drop_first())
    }
}

pub proof fn lemma_digit_prefix_len(s: Seq<u8>, p: int)
    requires
        0 <= p <= s.len(),
        forall|j: int| 0 <= j < p ==> is_digit(s[j]),
        p < s.len() ==> !is_digit(s[p]),
    ensures
        digit_prefix_len(s) == p,
    decreases s.len(),
{
    if p == 0 {
    } else {
        assert(is_digit(s[0]));
        assert(forall|j: int| 0 <= j < p - 1 ==> is_digit(s.drop_first()[j]));
        lemma_digit_prefix_len(s.drop_first(), p - 1);
    }
}

/// The digit prefix is within bounds and made of digits.
pub proof fn lemma_digit_prefix_is_digits(s: Seq<u8>)
    ensures
        0 <= digit_prefix_len(s) <= s.len(),
        forall|j: int| 0 <= j < digit_prefix_len(s) ==> is_digit(s[j]),
    decreases s.len(),
{
    if s.len() > 0 && is_digit(s[0]) {
        lemma_digit_prefix_is_digits(s.drop_first());
        assert forall|j: int| 0 <= j < digit_prefix_len(s) implies is_digit(s[j]) by {
            if j > 0 {
                assert(s.drop_first()[j - 1] == s[j]);
            }
        }
    }
}

/// A whole-unit coin token: digits immediately followed by a denomination.
pub open spec fn coin_token_ok(s: Seq<u8>) -> bool {
    let p = digit_prefix_len(s);
    &&& p >= 1
    &&& dec_value(s.take(p)) <= u128::MAX
    &&& is_denom(s.skip(p))
}

pub open spec fn token_amount(s: Seq<u8>) -> int {
    dec_value(s.take(digit_prefix_len(s)))
}

pub open spec fn token_denom(s: Seq<u8>) -> Seq<u8> {
    s.skip(digit_prefix_len(s))
}

/// The canonical token for a coin: its amount in decimal, then its denomination.
pub open spec fn coin_token_of(c: CoinView) -> Seq<u8> {
    dec_repr(c.amount as int) + c.denom
}

/// Checks that `s` is a well-formed denomination.
pub fn check_denom(s: &Vec<u8>) -> (r: bool)
    ensures
        r == is_denom(s@),
{
    let n = s.len();
    let mut plain: bool = n > 0;
    let mut k: usize = 0;
    while k < n
        invariant
            0 <= k <= n,
            n == s@.len(),
            plain == (n > 0 && forall|j: int| 0 <= j < k ==> is_letter(s@[j])),
        decreases n - k,
    {
        let b = s[k];
        if !((65 <= b && b <= 90) || (97 <= b && b <= 122)) {
            plain = false;
        }
        k = k + 1;
    }
    if plain {
        return true;
    }
    if n <= 4 {
        return false;
    }
    if !(s[0] == 105 && s[1] == 98 && s[2] == 99 && s[3] == 47) {
        return false;
    }
    let mut k2: usize = 4;
    while k2 < n
        invariant
            4 <= k2 <= n,
            n == s@.len(),
            forall|j: int| 4 <= j < k2 ==> is_hex_digit(s@[j]),
        decreases n - k2,
    {
        let b = s[k2];
        if !((48 <= b && b <= 57) || (65 <= b && b <= 70) || (97 <= b && b <= 102)) {
            return false;
        }
        k2 = k2 + 1;
    }
    true
}

/// Parses one `<amount><denom>` token; `None` when the token is not a
/// well-formed whole-unit coin.
pub fn parse_coin(token: &Vec<u8>) -> (r: Option<Coin>)
    ensures
        match r {
            Some(c) => coin_token_ok(token@) && c.amount == token_amount(token@) && c.denom@
                == token_denom(token@),
            None => !coin_token_ok(token@),
        },
{
    let n = token.len();
    let mut p: usize = 0;
    while p < n && 48 <= token[p] && token[p] <= 57
        invariant
            0 <= p <= n,
            n == token@.len(),
            forall|j: int| 0 <= j < p ==> is_digit(token@[j]),
        decreases n - p,
    {
        p = p + 1;
    }
    proof {
        lemma_digit_prefix_len(token@, p as int);
    }
    if p == 0 {
        return None;
    }
    let mut amount_bytes: Vec<u8> = Vec::new();
    let mut k: usize = 0;
    while k < p
        invariant
            0 <= k <= p <= n,
            n == token@.len(),
            amount_bytes@ =~= token@.take(p as int).take(k as int),
        decreases p - k,
    {
        amount_bytes.push(token[k]);
        proof {
            assert(token@.take(p as int).take(k + 1) =~= token@.take(p as int).take(k as int).push(
                token@[k as int],
            ));
        }
        k = k + 1;
    }
    proof {
        assert(amount_bytes@ =~= token@.take(p as int));
    }
    let mut denom_bytes: Vec<u8> = Vec::new();
    let mut k2: usize = p;
    while k2 < n
        invariant
            p <= k2 <= n,
            n == token@.len(),
            denom_bytes@ =~= token@.skip(p as int).take(k2 - p),
        decreases n - k2,
    {
        denom_bytes.push(token[k2]);
        proof {
            assert(token@.skip(p as int).take(k2 + 1 - p) =~= token@.skip(p as int).take(
                k2 - p,
            ).push(token@[k2 as int]));
        }
        k2 = k2 + 1;
    }
    proof {
        assert(denom_bytes@ =~= token@.skip(p as int));
    }
    if !check_denom(&denom_bytes) {
        return None;
    }
    match parse_u128(&amount_bytes) {
        Some(v) => Some(Coin { denom: denom_bytes, amount: v }),
        None => None,
    }
}

/// Renders a coin as its canonical `<amount><denom>` token.
pub fn render_coin(c: &Coin) -> (r: Vec<u8>)
    ensures
        r@ == coin_token_of(c@),
{
    let mut out = render_u128(c.amount);
    crate::bytestr::push_all(&mut out, &c.denom);
    out
}

/// A fresh copy of a coin.
pub fn coin_copy(c: &Coin) -> (r: Coin)
    ensures
        r@ == c@,
{
    Coin { denom: bytes_copy(&c.denom), amount: c.amount }
}

} // verus!
