//! The codec of `asset`: one token `<AMOUNT>::<FAUCET_ID>`, eight elements.
//!
//! Only fungible assets have such a token.

use vstd::prelude::*;

use crate::codecs::{
    invalid_scalar, is_malformed, malformed_result, refuses, TypedError, MIDEN_CORE_TYPES,
};
use crate::felt::{values, Felt, MODULUS};
use crate::hex::lower_digits;
use crate::number::{append_decimal, decimal, lemma_decimal_reads_back, number, parse_u64};
use crate::protocol::{
    account_id_from_hex, account_id_in, account_id_refusal, account_id_text, account_id_to_hex,
    amount_refusal, asset_from_elements, asset_in, fungible_asset_elements, fungible_elements,
    lemma_account_id_reads_back, lemma_account_id_writes_back, lemma_fungible_reads_back,
    valid_account_id, word_values, AssetParts, MAX_AMOUNT,
};
use crate::text::chars_of;

verus! {

/// The name of the type, regardless of the package and version in its full name.
const ASSET_WIT_NAME: &'static str = "asset";

/// Encodes and renders the type `asset`.
#[derive(Clone, Copy, Debug)]
pub struct AssetCodec;

/// Where two colons stand first in `token`.
pub open spec fn first_colons(token: Seq<char>) -> Option<int>
    decreases token.len(),
{
    if token.len() < 2 {
        None
    } else if token[0] == ':' && token[1] == ':' {
        Some(0)
    } else {
        match first_colons(token.drop_first()) {
            Some(at) => Some(at + 1),
            None => None,
        }
    }
}

/// The elements that `token` is encoded as, or why it is refused.
pub open spec fn asset_encoded(token: Seq<char>) -> Result<Seq<nat>, Seq<char>> {
    match first_colons(token) {
        None => Err("expected `<AMOUNT>::<FAUCET_ID>`"@),
        Some(at) => match number(token.take(at)) {
            Err(error) => Err("invalid amount: "@ + error.words()),
            Ok(amount) => {
                let faucet = token.skip(at + 2);
                match account_id_in(faucet) {
                    None => Err(account_id_refusal(faucet)),
                    Some((prefix, suffix)) => if amount <= MAX_AMOUNT {
                        Ok(fungible_elements(prefix, suffix, amount))
                    } else {
                        Err(amount_refusal(prefix as u64, suffix as u64, amount as u64))
                    },
                }
            },
        },
    }
}

/// How an asset is rendered.
pub open spec fn asset_rendered(asset: AssetParts) -> Seq<char> {
    match asset {
        AssetParts::Fungible { amount, prefix, suffix } => "asset("@ + asset_token(
            amount as nat,
            prefix as nat,
            suffix as nat,
        ) + ")"@,
        AssetParts::NonFungible => "asset(non-fungible)"@,
    }
}

/// The token of a fungible asset.
pub open spec fn asset_token(amount: nat, prefix: nat, suffix: nat) -> Seq<char> {
    decimal(amount) + seq![':', ':'] + account_id_text(prefix, suffix)
}

/// What `elements` are rendered as, or why they are not an asset.
pub open spec fn asset_decoded(elements: Seq<u64>) -> Result<Seq<char>, Seq<char>> {
    if elements.len() != 8 {
        Err("an asset occupies exactly eight felts"@)
    } else {
        match asset_in(elements) {
            Some(asset) => Ok(asset_rendered(asset)),
            None => Err("the felts are not a valid asset"@),
        }
    }
}

/// What stands before place `at` decides nothing where no colons stand there.
proof fn lemma_first_colons(token: Seq<char>, at: int)
    requires
        0 <= at <= token.len(),
        forall|j: int|
            0 <= j < at && j + 1 < token.len() ==> !(#[trigger] token[j] == ':' && token[j + 1]
                == ':'),
    ensures
        at + 1 < token.len() && token[at] == ':' && token[at + 1] == ':' ==> first_colons(token)
            == Some(at),
        at + 1 >= token.len() ==> first_colons(token) is None,
    decreases token.len(),
{
    if token.len() >= 2 && at > 0 {
        assert(!(token[0] == ':' && token[1] == ':'));
        let rest = token.drop_first();
        assert forall|j: int| 0 <= j < at - 1 && j + 1 < rest.len() implies !(#[trigger] rest[j]
            == ':' && rest[j + 1] == ':') by {
            assert(rest[j] == token[j + 1]);
            assert(rest[j + 1] == token[j + 2]);
        }
        lemma_first_colons(rest, at - 1);
    }
}

/// Finds the first two colons.
fn find_colons(chars: &[char]) -> (r: Option<usize>)
    ensures
        match r {
            Some(at) => at + 1 < chars@.len() && first_colons(chars@) == Some(at as int),
            None => first_colons(chars@) is None,
        },
{
    if chars.len() < 2 {
        return None;
    }
    let last: usize = chars.len() - 1;
    let mut at: usize = 0;
    while at < last
        invariant
            at <= last,
            last + 1 == chars.len(),
            chars.len() == chars@.len(),
            forall|j: int|
                0 <= j < at && j + 1 < chars@.len() ==> !(#[trigger] chars@[j] == ':' && chars@[j
                    + 1] == ':'),
        decreases last - at,
    {
        if chars[at] == ':' && chars[at + 1] == ':' {
            proof {
                lemma_first_colons(chars@, at as int);
            }
            return Some(at);
        }
        at = at + 1;
    }
    proof {
        lemma_first_colons(chars@, at as int);
    }
    None
}

/// The error for elements that are not an asset that can be rendered.
fn malformed_asset(reason: &'static str) -> (r: TypedError)
    ensures
        is_malformed(r, "asset"@, reason@),
{
    malformed_result(ASSET_WIT_NAME, reason)
}

/// The elements `e` as field elements.
fn felts_of(e: &Vec<u64>) -> (r: Vec<Felt>)
    requires
        forall|i: int| 0 <= i < e@.len() ==> #[trigger] e@[i] < MODULUS,
    ensures
        values(r@) == word_values(e@),
{
    let mut felts: Vec<Felt> = Vec::new();
    let mut i: usize = 0;
    while i < e.len()
        invariant
            i <= e@.len(),
            felts@.len() == i,
            forall|k: int| 0 <= k < e@.len() ==> #[trigger] e@[k] < MODULUS,
            forall|k: int| 0 <= k < i ==> (#[trigger] felts@[k])@ == e@[k],
        decreases e@.len() - i,
    {
        if let Some(felt) = Felt::new(e[i]) {
            felts.push(felt);
        }
        i = i + 1;
    }
    assert(values(felts@) =~= word_values(e@));
    felts
}

/// The numbers that `felts` are.
pub open spec fn element_values(felts: Seq<Felt>) -> Seq<u64> {
    felts.map_values(|felt: Felt| felt@ as u64)
}

impl AssetCodec {
    /// The name of the type.
    pub fn wit_name(&self) -> (r: &'static str)
        ensures
            r@ == "asset"@,
    {
        ASSET_WIT_NAME
    }

    /// The interface that defines the type.
    pub fn wit_interface(&self) -> (r: Option<&'static str>)
        ensures
            r matches Some(name) && name@ == "miden:base/core-types"@,
    {
        Some(MIDEN_CORE_TYPES)
    }

    /// The elements of the fungible asset that `token` writes: its key, then its value.
    pub fn encode(&self, token: &str) -> (r: Result<Vec<Felt>, TypedError>)
        ensures
            match asset_encoded(token@) {
                Ok(elements) => r matches Ok(felts) && values(felts@) == elements,
                Err(reason) => r matches Err(error) && refuses(error, "asset"@, token@, reason),
            },
    {
        let chars = chars_of(token);
        let at: usize = match find_colons(&chars) {
            Some(at) => at,
            None => {
                return Err(
                    invalid_scalar(ASSET_WIT_NAME, token, "expected `<AMOUNT>::<FAUCET_ID>`"),
                );
            },
        };
        let amount_text = token.substring_char(0, at);
        let faucet = token.substring_char(at + 2, chars.len());
        proof {
            assert(amount_text@ =~= token@.take(at as int));
            assert(faucet@ =~= token@.skip(at + 2));
        }
        let amount: u64 = match parse_u64(amount_text) {
            Ok(amount) => amount,
            Err(error) => {
                let mut reason = String::from_str("invalid amount: ");
                reason.append(error.message());
                return Err(invalid_scalar(ASSET_WIT_NAME, token, reason.as_str()));
            },
        };
        let id = match account_id_from_hex(faucet) {
            Ok(id) => id,
            Err(reason) => {
                return Err(invalid_scalar(ASSET_WIT_NAME, token, reason.as_str()));
            },
        };
        match fungible_asset_elements(id.0, id.1, amount) {
            Ok(elements) => {
                proof {
                    let named = fungible_elements(id.0 as nat, id.1 as nat, amount as nat);
                    assert(word_values(elements@) =~= named);
                    assert forall|i: int| 0 <= i < elements@.len() implies #[trigger] elements@[i]
                        < MODULUS by {
                        assert(named[i] == elements@[i]);
                    }
                }
                Ok(felts_of(&elements))
            },
            Err(reason) => Err(invalid_scalar(ASSET_WIT_NAME, token, reason.as_str())),
        }
    }

    /// The asset that `felts` are, rendered.
    pub fn decode(&self, felts: &[Felt]) -> (r: Result<String, TypedError>)
        ensures
            match asset_decoded(element_values(felts@)) {
                Ok(text) => r matches Ok(rendered) && rendered@ == text,
                Err(reason) => r matches Err(error) && is_malformed(error, "asset"@, reason),
            },
    {
        if felts.len() != 8 {
            return Err(malformed_asset("an asset occupies exactly eight felts"));
        }
        let e: [u64; 8] = [
            felts[0].as_canonical_u64(),
            felts[1].as_canonical_u64(),
            felts[2].as_canonical_u64(),
            felts[3].as_canonical_u64(),
            felts[4].as_canonical_u64(),
            felts[5].as_canonical_u64(),
            felts[6].as_canonical_u64(),
            felts[7].as_canonical_u64(),
        ];
        assert(e@ =~= element_values(felts@));
        match asset_from_elements(e) {
            None => Err(malformed_asset("the felts are not a valid asset")),
            Some(AssetParts::NonFungible) => Ok(String::from_str("asset(non-fungible)")),
            Some(AssetParts::Fungible { amount, prefix, suffix }) => {
                let mut rendered = String::from_str("asset(");
                append_decimal(&mut rendered, amount);
                rendered.append("::");
                match account_id_to_hex(prefix, suffix) {
                    Some(text) => {
                        rendered.append(text.as_str());
                    },
                    None => {},
                }
                rendered.append(")");
                proof {
                    reveal_strlit("::");
                    assert("::"@ =~= seq![':', ':']);
                    assert(rendered@ =~= "asset("@ + asset_token(
                        amount as nat,
                        prefix as nat,
                        suffix as nat,
                    ) + ")"@);
                }
                Ok(rendered)
            },
        }
    }
}

/// The amount of a token holds no colon.
proof fn lemma_decimal_has_no_colon(n: nat, i: int)
    requires
        0 <= i < decimal(n).len(),
    ensures
        decimal(n)[i] != ':',
    decreases n,
{
    if n >= 10 && i < decimal(n).len() - 1 {
        lemma_decimal_has_no_colon(n / 10, i);
        assert(decimal(n)[i] == decimal(n / 10)[i]);
    }
}

/// The token of a fungible asset is encoded as that asset, and its elements are rendered as that
/// token.
pub proof fn lemma_asset_token_roundtrips(
    amount: u64,
    prefix: u64,
    suffix: u64,
    elements: Seq<u64>,
)
    requires
        valid_account_id(prefix as nat, suffix as nat),
        amount <= MAX_AMOUNT,
        word_values(elements) == fungible_elements(prefix as nat, suffix as nat, amount as nat),
    ensures
        asset_encoded(asset_token(amount as nat, prefix as nat, suffix as nat)) == Ok::<
            Seq<nat>,
            Seq<char>,
        >(word_values(elements)),
        asset_decoded(elements) == Ok::<Seq<char>, Seq<char>>(
            "asset("@ + asset_token(amount as nat, prefix as nat, suffix as nat) + ")"@,
        ),
{
    let front = decimal(amount as nat);
    let faucet = account_id_text(prefix as nat, suffix as nat);
    let token = asset_token(amount as nat, prefix as nat, suffix as nat);
    let at = front.len() as int;
    lemma_decimal_reads_back(amount as nat);
    assert forall|j: int| 0 <= j < at && j + 1 < token.len() implies !(#[trigger] token[j] == ':'
        && token[j + 1] == ':') by {
        lemma_decimal_has_no_colon(amount as nat, j);
        assert(token[j] == front[j]);
    }
    lemma_first_colons(token, at);
    assert(token[at] == ':' && token[at + 1] == ':');
    assert(token.take(at) =~= front);
    assert(token.skip(at + 2) =~= faucet);
    lemma_account_id_reads_back(prefix as nat, suffix as nat);
    lemma_fungible_reads_back(elements, prefix, suffix, amount);
    assert(elements.len() == word_values(elements).len());
}

/// Whatever is encoded is rendered with the amount in plain digits and the faucet as it was
/// written, but for the case of its digits.
pub proof fn lemma_encoded_asset_is_rendered(token: Seq<char>, elements: Seq<u64>)
    requires
        asset_encoded(token) == Ok::<Seq<nat>, Seq<char>>(word_values(elements)),
    ensures
        ({
            let at = first_colons(token)->Some_0;
            let faucet = token.skip(at + 2);
            asset_decoded(elements) == Ok::<Seq<char>, Seq<char>>(
                "asset("@ + (decimal(number(token.take(at))->Ok_0) + seq![':', ':'] + (
                faucet.take(2) + lower_digits(faucet.skip(2)))) + ")"@,
            )
        }),
{
    let at = first_colons(token)->Some_0;
    let faucet = token.skip(at + 2);
    let amount = number(token.take(at))->Ok_0;
    let (prefix, suffix) = account_id_in(faucet)->Some_0;
    lemma_account_id_writes_back(faucet);
    lemma_fungible_reads_back(elements, prefix as u64, suffix as u64, amount as u64);
    assert(elements.len() == word_values(elements).len());
}

/// A token is split at its first two colons, wherever they stand. It is encoded exactly where a
/// number of at most `2^63 - 2^31` stands before them and an account id behind them; the number is
/// looked at first, then the id, then the size of the amount.
pub proof fn lemma_tokens_are_amounts_and_faucets(
    token: Seq<char>,
    amount: Seq<char>,
    faucet: Seq<char>,
)
    requires
        token == amount + seq![':', ':'] + faucet,
        forall|j: int|
            0 <= j < amount.len() ==> !(#[trigger] token[j] == ':' && token[j + 1] == ':'),
    ensures
        ({
            &&& asset_encoded(token) is Ok <==> number(amount) is Ok && number(amount)->Ok_0
                <= 0x7fff_ffff_8000_0000 && account_id_in(faucet) is Some
            &&& asset_encoded(token) matches Ok(elements) ==> elements == seq![
                0nat,
                0,
                account_id_in(faucet)->Some_0.1 + 1,
                account_id_in(faucet)->Some_0.0,
                number(amount)->Ok_0,
                0,
                0,
                0,
            ]
            &&& number(amount) matches Err(error) ==> asset_encoded(token) == Err::<
                Seq<nat>,
                Seq<char>,
            >("invalid amount: "@ + error.words())
            &&& number(amount) is Ok && account_id_in(faucet) is None ==> asset_encoded(token)
                == Err::<Seq<nat>, Seq<char>>(account_id_refusal(faucet))
        }),
{
    let at = amount.len() as int;
    lemma_first_colons(token, at);
    assert(token[at] == ':' && token[at + 1] == ':');
    assert(token.take(at) =~= amount);
    assert(token.skip(at + 2) =~= faucet);
}

/// A token without two colons side by side is refused with the form that is expected.
pub proof fn lemma_tokens_have_two_colons(token: Seq<char>)
    requires
        forall|j: int|
            0 <= j && j + 1 < token.len() ==> !(#[trigger] token[j] == ':' && token[j + 1] == ':'),
    ensures
        asset_encoded(token) == Err::<Seq<nat>, Seq<char>>("expected `<AMOUNT>::<FAUCET_ID>`"@),
{
    lemma_first_colons(token, token.len() as int);
}

/// Eight elements are rendered exactly where they are an asset: a fungible one as its token, any
/// other by its kind alone.
pub proof fn lemma_eight_elements_are_an_asset(
    e: Seq<u64>,
    amount: u64,
    prefix: u64,
    suffix: u64,
)
    ensures
        e.len() != 8 ==> asset_decoded(e) == Err::<Seq<char>, Seq<char>>(
            "an asset occupies exactly eight felts"@,
        ),
        e.len() == 8 ==> (asset_decoded(e) is Ok <==> asset_in(e) is Some),
        e.len() == 8 && asset_in(e) is None ==> asset_decoded(e) == Err::<Seq<char>, Seq<char>>(
            "the felts are not a valid asset"@,
        ),
        e.len() == 8 && asset_in(e) == Some(AssetParts::NonFungible) ==> asset_decoded(e) == Ok::<
            Seq<char>,
            Seq<char>,
        >("asset(non-fungible)"@),
        e.len() == 8 && asset_in(e) == Some(AssetParts::Fungible { amount, prefix, suffix })
            ==> asset_decoded(e) == Ok::<Seq<char>, Seq<char>>(
            "asset("@ + (decimal(amount as nat) + seq![':', ':'] + account_id_text(
                prefix as nat,
                suffix as nat,
            )) + ")"@,
        ),
{
}

/// The numbers of elements keep their places.
pub proof fn lemma_element_values(felts: Seq<Felt>, i: int)
    requires
        0 <= i < felts.len(),
        felts[i]@ <= u64::MAX,
    ensures
        element_values(felts).len() == felts.len(),
        element_values(felts)[i] == felts[i]@,
{
}

} // verus!
