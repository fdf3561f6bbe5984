//! Codecs for the scalar types of typed procedure calls.
//!
//! A codec encodes one token of the command line into the field elements that a procedure takes,
//! and renders the elements that it returns.

use vstd::prelude::*;

pub mod account_id;
pub mod asset;

pub use account_id::AccountIdCodec;
pub use asset::AssetCodec;

verus! {

/// The interface that defines the types of this module's codecs.
pub const MIDEN_CORE_TYPES: &'static str = "miden:base/core-types";

/// Why a value could not be encoded or rendered.
#[allow(inconsistent_fields)]
#[derive(Debug)]
pub enum TypedError {
    /// A token is not a value of its type.
    InvalidScalar { wit_name: String, token: String, reason: String },
    /// Elements are not a value of their type.
    MalformedResult { ty: String, reason: &'static str },
}

/// Whether `error` is the refusal of `token` as a value of the type `wit_name`, for `reason`.
pub open spec fn refuses(
    error: TypedError,
    wit_name: Seq<char>,
    token: Seq<char>,
    reason: Seq<char>,
) -> bool {
    match error {
        TypedError::InvalidScalar { wit_name: name, token: text, reason: why } => name@ == wit_name
            && text@ == token && why@ == reason,
        TypedError::MalformedResult { .. } => false,
    }
}

/// Whether `error` says that elements are not a value of the type `ty`, for `reason`.
pub open spec fn is_malformed(error: TypedError, ty: Seq<char>, reason: Seq<char>) -> bool {
    match error {
        TypedError::InvalidScalar { .. } => false,
        TypedError::MalformedResult { ty: name, reason: why } => name@ == ty && why@ == reason,
    }
}

/// The refusal of `token` as a value of the type `wit_name`.
pub fn invalid_scalar(wit_name: &str, token: &str, reason: &str) -> (r: TypedError)
    ensures
        refuses(r, wit_name@, token@, reason@),
{
    TypedError::InvalidScalar {
        wit_name: String::from_str(wit_name),
        token: String::from_str(token),
        reason: String::from_str(reason),
    }
}

/// The error for elements that are not a value of the type `ty`.
pub fn malformed_result(ty: &str, reason: &'static str) -> (r: TypedError)
    ensures
        is_malformed(r, ty@, reason@),
{
    TypedError::MalformedResult { ty: String::from_str(ty), reason }
}

/// A refusal names the type, quotes the token whole and gives the reason; an error on elements names
/// the type and gives the reason.
pub proof fn lemma_errors_say_what_is_wrong(
    error: TypedError,
    ty: Seq<char>,
    token: Seq<char>,
    reason: Seq<char>,
)
    ensures
        refuses(error, ty, token, reason) <==> match error {
            TypedError::InvalidScalar { wit_name, token: text, reason: why } => wit_name@ == ty
                && text@ == token && why@ == reason,
            TypedError::MalformedResult { .. } => false,
        },
        is_malformed(error, ty, reason) <==> match error {
            TypedError::InvalidScalar { .. } => false,
            TypedError::MalformedResult { ty: name, reason: why } => name@ == ty && why@ == reason,
        },
{
}

} // verus!
