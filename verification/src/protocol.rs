//! Account ids, assets and words, as the Miden protocol defines them.
//!
//! What is valid and how it is written is decided by `miden_protocol`; the functions here hand
//! plain numbers over and take plain numbers back.

use vstd::prelude::*;

use crate::felt::MODULUS;
use crate::hex::{
    hex_digits, hex_value, lemma_hex_reads_back, lemma_hex_writes_back, lower_digits, pow16,
};

verus! {

/// The largest amount of a fungible asset: `2^63 - 2^31`.
pub const MAX_AMOUNT: u64 = 9_223_372_034_707_292_160;

/// Whether two field elements are an account id: the prefix names version one in its last four
/// bits, and the suffix has neither its first bit nor any of its last eight bits set.
pub open spec fn valid_account_id(prefix: nat, suffix: nat) -> bool {
    &&& prefix < MODULUS
    &&& prefix % 16 == 1
    &&& suffix < 0x8000_0000_0000_0000
    &&& suffix % 256 == 0
}

/// An account id as text: the prefix and the suffix without its last byte, which is zero.
pub open spec fn account_id_text(prefix: nat, suffix: nat) -> Seq<char> {
    seq!['0', 'x'] + hex_digits(prefix, 16) + hex_digits(suffix / 256, 14)
}

/// The account id that a text writes: `0x` and thirty digits.
pub open spec fn account_id_in(text: Seq<char>) -> Option<(nat, nat)> {
    if text.len() == 32 && text.take(2) == seq!['0', 'x'] {
        match (hex_value(text.subrange(2, 18)), hex_value(text.subrange(18, 32))) {
            (Some(prefix), Some(suffix)) => if valid_account_id(prefix, suffix * 256) {
                Some((prefix, suffix * 256))
            } else {
                None
            },
            _ => None,
        }
    } else {
        None
    }
}

/// Why `miden_protocol` refuses a text as an account id, in its words.
pub uninterp spec fn account_id_refusal(text: Seq<char>) -> Seq<char>;

/// `AccountId::from_hex`: the prefix and the suffix of the id that `text` writes, or the words in
/// which the text is refused.
#[verifier::external_body]
pub(crate) fn account_id_from_hex(text: &str) -> (r: Result<(u64, u64), String>)
    ensures
        r is Ok <==> account_id_in(text@) is Some,
        r matches Ok(id) ==> account_id_in(text@) == Some((id.0 as nat, id.1 as nat)),
        r matches Err(reason) ==> reason@ == account_id_refusal(text@),
{
    match miden_protocol::account::AccountId::from_hex(text) {
        Ok(id) => Ok((id.prefix().as_u64(), id.suffix().as_canonical_u64())),
        Err(error) => Err(error.to_string()),
    }
}

/// `AccountId::try_from_elements` and, where that gives an id, `AccountId::to_hex`.
#[verifier::external_body]
pub(crate) fn account_id_to_hex(prefix: u64, suffix: u64) -> (r: Option<String>)
    requires
        prefix < MODULUS,
        suffix < MODULUS,
    ensures
        r is Some <==> valid_account_id(prefix as nat, suffix as nat),
        r matches Some(text) ==> text@ == account_id_text(prefix as nat, suffix as nat),
{
    let prefix = miden_protocol::Felt::new(prefix).ok()?;
    let suffix = miden_protocol::Felt::new(suffix).ok()?;
    let id = miden_protocol::account::AccountId::try_from_elements(suffix, prefix).ok()?;
    Some(id.to_hex())
}

/// The eight elements of a fungible asset: its key, in which the last byte of the suffix says that
/// it is fungible, and its value.
pub open spec fn fungible_elements(prefix: nat, suffix: nat, amount: nat) -> Seq<nat> {
    seq![0nat, 0, suffix + 1, prefix, amount, 0, 0, 0]
}

/// Why `miden_protocol` refuses an amount of a fungible asset, in its words.
pub uninterp spec fn amount_refusal(prefix: u64, suffix: u64, amount: u64) -> Seq<char>;

/// `FungibleAsset::new`, for the faucet with the given id, and `Asset::as_elements` of what it
/// gives; or the words in which the amount is refused.
#[verifier::external_body]
pub(crate) fn fungible_asset_elements(prefix: u64, suffix: u64, amount: u64) -> (r: Result<
    Vec<u64>,
    String,
>)
    requires
        valid_account_id(prefix as nat, suffix as nat),
    ensures
        r is Ok <==> amount <= MAX_AMOUNT,
        r matches Ok(elements) ==> elements@.map_values(|e: u64| e as nat) == fungible_elements(
            prefix as nat,
            suffix as nat,
            amount as nat,
        ),
        r matches Err(reason) ==> reason@ == amount_refusal(prefix, suffix, amount),
{
    let prefix = miden_protocol::Felt::new(prefix).unwrap();
    let suffix = miden_protocol::Felt::new(suffix).unwrap();
    let id = miden_protocol::account::AccountId::try_from_elements(suffix, prefix).unwrap();
    match miden_protocol::asset::FungibleAsset::new(id, amount) {
        Ok(asset) => {
            let elements = miden_protocol::asset::Asset::from(asset).as_elements();
            Ok(elements.map(|e| e.as_canonical_u64()).to_vec())
        },
        Err(error) => Err(error.to_string()),
    }
}

/// An asset.
#[derive(Clone, Copy, Debug, PartialEq, Eq, Structural)]
pub enum AssetParts {
    /// An amount of what a faucet issues.
    Fungible { amount: u64, prefix: u64, suffix: u64 },
    /// An asset of which there is one.
    NonFungible,
}

/// The asset that eight elements are, the key first. The last byte of the third element says what
/// kind of asset it is, and the rest of it and the fourth element are the id of the faucet. A
/// fungible asset has nothing else in its key and an amount in its value; the key of any other
/// repeats the first two elements of its value.
pub open spec fn asset_in(e: Seq<u64>) -> Option<AssetParts> {
    let kind = e[2] % 256;
    let suffix = (e[2] - kind) as u64;
    if kind >= 8 || !valid_account_id(e[3] as nat, suffix as nat) {
        None
    } else if kind % 4 == 1 {
        if e[0] == 0 && e[1] == 0 && e[5] == 0 && e[6] == 0 && e[7] == 0 && e[4] <= MAX_AMOUNT {
            Some(AssetParts::Fungible { amount: e[4], prefix: e[3], suffix })
        } else {
            None
        }
    } else if kind % 4 == 0 {
        if e[0] == e[4] && e[1] == e[5] {
            Some(AssetParts::NonFungible)
        } else {
            None
        }
    } else {
        None
    }
}

/// `Asset::from_key_value_words` on the words that the elements make.
#[verifier::external_body]
pub(crate) fn asset_from_elements(e: [u64; 8]) -> (r: Option<AssetParts>)
    requires
        forall|i: int| 0 <= i < 8 ==> #[trigger] e@[i] < MODULUS,
    ensures
        r == asset_in(e@),
{
    let key = miden_protocol::Word::try_from([e[0], e[1], e[2], e[3]]).ok()?;
    let value = miden_protocol::Word::try_from([e[4], e[5], e[6], e[7]]).ok()?;
    match miden_protocol::asset::Asset::from_key_value_words(key, value).ok()? {
        miden_protocol::asset::Asset::Fungible(asset) => Some(
            AssetParts::Fungible {
                amount: asset.amount().as_u64(),
                prefix: asset.faucet_id().prefix().as_u64(),
                suffix: asset.faucet_id().suffix().as_canonical_u64(),
            },
        ),
        miden_protocol::asset::Asset::NonFungible(_) => Some(AssetParts::NonFungible),
    }
}

/// The last `bytes` bytes of `n` as text, the least significant one first.
pub open spec fn little_endian_text(n: nat, bytes: nat) -> Seq<char>
    decreases bytes,
{
    if bytes == 0 {
        Seq::empty()
    } else {
        hex_digits(n % 256, 2) + little_endian_text(n / 256, (bytes - 1) as nat)
    }
}

/// A word of four elements as text.
pub open spec fn word_text(e: Seq<nat>) -> Seq<char> {
    seq!['0', 'x'] + little_endian_text(e[0], 8) + little_endian_text(e[1], 8)
        + little_endian_text(e[2], 8) + little_endian_text(e[3], 8)
}

/// The number whose bytes a text writes, the least significant one first.
pub open spec fn little_endian_value(text: Seq<char>) -> Option<nat>
    decreases text.len(),
{
    if text.len() < 2 {
        Some(0)
    } else {
        match (hex_value(text.take(2)), little_endian_value(text.skip(2))) {
            (Some(byte), Some(rest)) => Some(byte + 256 * rest),
            _ => None,
        }
    }
}

/// The element at place `i` of the word that a text writes.
pub open spec fn element_in(text: Seq<char>, i: int) -> Option<nat> {
    match little_endian_value(text.subrange(2 + 16 * i, 18 + 16 * i)) {
        Some(value) => if value < MODULUS {
            Some(value)
        } else {
            None
        },
        None => None,
    }
}

/// The word that a text writes: `0x` and sixteen digits for each of four elements.
pub open spec fn word_in(text: Seq<char>) -> Option<Seq<nat>> {
    if text.len() == 66 && text.take(2) == seq!['0', 'x'] {
        match (element_in(text, 0), element_in(text, 1), element_in(text, 2), element_in(text, 3)) {
            (Some(a), Some(b), Some(c), Some(d)) => Some(seq![a, b, c, d]),
            _ => None,
        }
    } else {
        None
    }
}

/// The elements of a word as mathematical numbers.
pub open spec fn word_values(e: Seq<u64>) -> Seq<nat> {
    e.map_values(|n: u64| n as nat)
}

/// `Word::try_from` on a text.
#[verifier::external_body]
pub(crate) fn word_from_hex(text: &str) -> (r: Option<[u64; 4]>)
    ensures
        r is Some <==> word_in(text@) is Some,
        r matches Some(word) ==> word_in(text@) == Some(word_values(word@)),
{
    let word = miden_protocol::Word::try_from(text).ok()?;
    let e = word.as_elements();
    Some(
        [
            e[0].as_canonical_u64(),
            e[1].as_canonical_u64(),
            e[2].as_canonical_u64(),
            e[3].as_canonical_u64(),
        ],
    )
}

/// `Word::to_hex`.
#[verifier::external_body]
pub(crate) fn word_to_hex(e: [u64; 4]) -> (r: String)
    requires
        forall|i: int| 0 <= i < 4 ==> #[trigger] e@[i] < MODULUS,
    ensures
        r@ == word_text(word_values(e@)),
{
    miden_protocol::Word::try_from(e).unwrap().to_hex()
}

/// The text of an account id is the text of that id and of no other.
pub proof fn lemma_account_id_reads_back(prefix: nat, suffix: nat)
    requires
        valid_account_id(prefix, suffix),
    ensures
        account_id_in(account_id_text(prefix, suffix)) == Some((prefix, suffix)),
{
    let text = account_id_text(prefix, suffix);
    assert(pow16(14) == 0x100_0000_0000_0000 && pow16(16) == 0x1_0000_0000_0000_0000) by {
        reveal_with_fuel(pow16, 17);
    }
    lemma_hex_reads_back(prefix, 16);
    lemma_hex_reads_back(suffix / 256, 14);
    assert(text.take(2) =~= seq!['0', 'x']);
    assert(text.subrange(2, 18) =~= hex_digits(prefix, 16));
    assert(text.subrange(18, 32) =~= hex_digits(suffix / 256, 14));
}

/// A text that writes an account id is the text of that id, but for the case of its digits.
pub proof fn lemma_account_id_writes_back(text: Seq<char>)
    requires
        account_id_in(text) is Some,
    ensures
        account_id_text(account_id_in(text)->Some_0.0, account_id_in(text)->Some_0.1)
            == text.take(2) + lower_digits(text.skip(2)),
{
    let a = text.subrange(2, 18);
    let b = text.subrange(18, 32);
    lemma_hex_writes_back(a);
    lemma_hex_writes_back(b);
    assert(text.skip(2) =~= a + b);
    assert(lower_digits(text.skip(2)) =~= lower_digits(a) + lower_digits(b));
    let suffix = hex_value(b)->Some_0;
    assert(suffix * 256 / 256 == suffix);
    assert(account_id_text(hex_value(a)->Some_0, suffix * 256) =~= text.take(2) + lower_digits(
        text.skip(2),
    ));
}

/// The elements of a fungible asset are that asset and no other.
pub proof fn lemma_fungible_reads_back(e: Seq<u64>, prefix: u64, suffix: u64, amount: u64)
    requires
        valid_account_id(prefix as nat, suffix as nat),
        amount <= MAX_AMOUNT,
        word_values(e) == fungible_elements(prefix as nat, suffix as nat, amount as nat),
    ensures
        asset_in(e) == Some(AssetParts::Fungible { amount, prefix, suffix }),
{
    let v = word_values(e);
    assert(e.len() == v.len());
    assert(v[0] == e[0] && v[1] == e[1] && v[2] == e[2] && v[3] == e[3]);
    assert(v[4] == e[4] && v[5] == e[5] && v[6] == e[6] && v[7] == e[7]);
    assert(e[2] == suffix + 1);
    assert(e[2] % 256 == 1);
}

proof fn lemma_little_endian(n: nat, bytes: nat)
    requires
        n < pow16(2 * bytes),
    ensures
        little_endian_text(n, bytes).len() == 2 * bytes,
        little_endian_value(little_endian_text(n, bytes)) == Some(n),
    decreases bytes,
{
    if bytes > 0 {
        let rest = (bytes - 1) as nat;
        assert(pow16(2 * bytes) == 256 * pow16(2 * rest)) by {
            reveal_with_fuel(pow16, 3);
        }
        assert(pow16(2) == 256) by {
            reveal_with_fuel(pow16, 3);
        }
        lemma_hex_reads_back(n % 256, 2);
        lemma_little_endian(n / 256, rest);
        let text = little_endian_text(n, bytes);
        assert(text.take(2) =~= hex_digits(n % 256, 2));
        assert(text.skip(2) =~= little_endian_text(n / 256, rest));
    }
}

/// The text of a word is the text of that word and of no other.
pub proof fn lemma_word_reads_back(e: Seq<nat>)
    requires
        e.len() == 4,
        forall|i: int| 0 <= i < 4 ==> #[trigger] e[i] < MODULUS,
    ensures
        word_in(word_text(e)) == Some(e),
{
    let text = word_text(e);
    assert(pow16(16) == 0x1_0000_0000_0000_0000) by {
        reveal_with_fuel(pow16, 17);
    }
    lemma_little_endian(e[0], 8);
    lemma_little_endian(e[1], 8);
    lemma_little_endian(e[2], 8);
    lemma_little_endian(e[3], 8);
    assert(text.take(2) =~= seq!['0', 'x']);
    assert(text.subrange(2, 18) =~= little_endian_text(e[0], 8));
    assert(text.subrange(18, 34) =~= little_endian_text(e[1], 8));
    assert(text.subrange(34, 50) =~= little_endian_text(e[2], 8));
    assert(text.subrange(50, 66) =~= little_endian_text(e[3], 8));
    assert(seq![e[0], e[1], e[2], e[3]] =~= e);
}

/// An account id is any prefix of version one that is a field element, with any suffix of seven
/// bytes whose first bit is not set, and a byte of zeros behind it.
pub proof fn lemma_account_ids(version: nat, rest: nat, last: nat, suffix: nat)
    requires
        version < 16,
        last < 256,
    ensures
        valid_account_id(rest * 16 + version, suffix * 256 + last) <==> version == 1 && last == 0
            && rest * 16 + 1 < 0xffff_ffff_0000_0001 && suffix < 0x80_0000_0000_0000,
{
}

/// The largest amount of a fungible asset is `2^63 - 2^31`.
pub proof fn lemma_max_amount()
    ensures
        MAX_AMOUNT == 0x8000_0000int * 0x1_0000_0000int - 0x8000_0000int,
{
}

/// The elements of a word keep their places and their numbers.
pub proof fn lemma_word_values(e: Seq<u64>, i: int)
    requires
        0 <= i < e.len(),
    ensures
        word_values(e).len() == e.len(),
        word_values(e)[i] == e[i],
{
}

/// What eight elements are is decided by the last byte of the third one: one or five for an amount
/// of what a faucet issues, with nothing else beside it, and zero or four for an asset of which
/// there is one, whose key begins as its value does.
pub proof fn lemma_assets_by_kind(e: Seq<u64>, suffix: u64, kind: u64)
    requires
        e.len() == 8,
        suffix % 256 == 0,
        kind < 256,
        e[2] == suffix + kind,
    ensures
        asset_in(e) is Some <==> valid_account_id(e[3] as nat, suffix as nat) && (((kind == 1 || kind
            == 5) && e[0] == 0 && e[1] == 0 && e[4] <= 0x7fff_ffff_8000_0000 && e[5] == 0 && e[6]
            == 0 && e[7] == 0) || ((kind == 0 || kind == 4) && e[0] == e[4] && e[1] == e[5])),
        asset_in(e) is Some && (kind == 1 || kind == 5) ==> asset_in(e) == Some(
            AssetParts::Fungible { amount: e[4], prefix: e[3], suffix },
        ),
        asset_in(e) is Some && (kind == 0 || kind == 4) ==> asset_in(e) == Some(
            AssetParts::NonFungible,
        ),
{
    assert(e[2] % 256 == kind);
}

} // verus!
