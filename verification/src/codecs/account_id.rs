//! The codec of `account-id`: one token of hex digits, two elements.

use vstd::prelude::*;

use crate::codecs::{
    invalid_scalar, is_malformed, malformed_result, refuses, TypedError, MIDEN_CORE_TYPES,
};
use crate::felt::{values, Felt};
use crate::protocol::{
    account_id_from_hex, account_id_in, account_id_refusal, account_id_text, account_id_to_hex,
    lemma_account_id_reads_back, lemma_account_id_writes_back, valid_account_id,
};
use crate::hex::lower_digits;

verus! {

/// The name of the type, regardless of the package and version in its full name.
const ACCOUNT_ID_WIT_NAME: &'static str = "account-id";

/// Encodes and renders the type `account-id`.
#[derive(Clone, Copy, Debug)]
pub struct AccountIdCodec;

/// How an account id is rendered.
pub open spec fn account_id_rendered(prefix: nat, suffix: nat) -> Seq<char> {
    "account-id("@ + account_id_text(prefix, suffix) + ")"@
}

/// What `elements` are rendered as, or why they are not an account id.
pub open spec fn account_id_decoded(elements: Seq<nat>) -> Result<Seq<char>, Seq<char>> {
    if elements.len() != 2 {
        Err("an account id occupies exactly two felts"@)
    } else if !valid_account_id(elements[0], elements[1]) {
        Err("the felts are not a valid account id"@)
    } else {
        Ok(account_id_rendered(elements[0], elements[1]))
    }
}

impl AccountIdCodec {
    /// The name of the type.
    pub fn wit_name(&self) -> (r: &'static str)
        ensures
            r@ == "account-id"@,
    {
        ACCOUNT_ID_WIT_NAME
    }

    /// The interface that defines the type.
    pub fn wit_interface(&self) -> (r: Option<&'static str>)
        ensures
            r matches Some(name) && name@ == "miden:base/core-types"@,
    {
        Some(MIDEN_CORE_TYPES)
    }

    /// The elements of the account id that `token` writes: its prefix, then its suffix.
    pub fn encode(&self, token: &str) -> (r: Result<Vec<Felt>, TypedError>)
        ensures
            match account_id_in(token@) {
                Some((prefix, suffix)) => r matches Ok(felts) && values(felts@) == seq![
                    prefix,
                    suffix,
                ],
                None => r matches Err(error) && refuses(
                    error,
                    "account-id"@,
                    token@,
                    account_id_refusal(token@),
                ),
            },
    {
        match account_id_from_hex(token) {
            Ok(id) => {
                let mut felts: Vec<Felt> = Vec::new();
                match (Felt::new(id.0), Felt::new(id.1)) {
                    (Some(prefix), Some(suffix)) => {
                        felts.push(prefix);
                        felts.push(suffix);
                    },
                    _ => {},
                }
                assert(values(felts@) =~= seq![id.0 as nat, id.1 as nat]);
                Ok(felts)
            },
            Err(reason) => Err(invalid_scalar(ACCOUNT_ID_WIT_NAME, token, reason.as_str())),
        }
    }

    /// The account id that `felts` are, rendered.
    pub fn decode(&self, felts: &[Felt]) -> (r: Result<String, TypedError>)
        ensures
            match account_id_decoded(values(felts@)) {
                Ok(text) => r matches Ok(rendered) && rendered@ == text,
                Err(reason) => r matches Err(error) && is_malformed(error, "account-id"@, reason),
            },
    {
        if felts.len() != 2 {
            return Err(
                malformed_result(ACCOUNT_ID_WIT_NAME, "an account id occupies exactly two felts"),
            );
        }
        proof {
            assert(values(felts@)[0] == felts@[0]@);
            assert(values(felts@)[1] == felts@[1]@);
        }
        match account_id_to_hex(felts[0].as_canonical_u64(), felts[1].as_canonical_u64()) {
            Some(text) => {
                let mut rendered = String::from_str("account-id(");
                rendered.append(text.as_str());
                rendered.append(")");
                Ok(rendered)
            },
            None => Err(
                malformed_result(ACCOUNT_ID_WIT_NAME, "the felts are not a valid account id"),
            ),
        }
    }
}

/// Whatever is encoded is rendered as the token it came from, but for the case of its digits.
pub proof fn lemma_account_id_token_roundtrips(token: Seq<char>, elements: Seq<nat>)
    requires
        account_id_in(token) is Some,
        elements == seq![account_id_in(token)->Some_0.0, account_id_in(token)->Some_0.1],
    ensures
        account_id_decoded(elements) == Ok::<Seq<char>, Seq<char>>(
            "account-id("@ + (token.take(2) + lower_digits(token.skip(2))) + ")"@,
        ),
{
    lemma_account_id_writes_back(token);
}

/// Whatever is rendered, the text of the id in it encodes to the elements it came from.
pub proof fn lemma_account_id_elements_roundtrip(prefix: nat, suffix: nat)
    requires
        valid_account_id(prefix, suffix),
    ensures
        account_id_in(account_id_text(prefix, suffix)) == Some((prefix, suffix)),
{
    lemma_account_id_reads_back(prefix, suffix);
}

/// Elements are rendered exactly where there are two of them and they are an account id; the text
/// of the id stands in it whole.
pub proof fn lemma_two_elements_are_an_account_id(elements: Seq<nat>)
    ensures
        account_id_decoded(elements) is Ok <==> elements.len() == 2 && valid_account_id(
            elements[0],
            elements[1],
        ),
        account_id_decoded(elements) matches Ok(text) ==> text == "account-id("@ + account_id_text(
            elements[0],
            elements[1],
        ) + ")"@,
        elements.len() != 2 ==> account_id_decoded(elements) == Err::<Seq<char>, Seq<char>>(
            "an account id occupies exactly two felts"@,
        ),
        elements.len() == 2 && account_id_decoded(elements) is Err ==> account_id_decoded(elements)
            == Err::<Seq<char>, Seq<char>>("the felts are not a valid account id"@),
{
}

} // verus!
