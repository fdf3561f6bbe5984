//! Tools for working on and with Miden: reflow of source comments, codecs for typed procedure
//! calls, the decisions behind a procedure call, and the funding of test accounts.

pub mod account;
pub mod call;
pub mod codecs;
pub mod comment_reflow;
pub mod fee_funding;
pub mod felt;
pub mod fmt_comments;
pub mod hex;
pub mod number;
pub mod protocol;
pub mod source_files;
pub mod text;
pub mod width;
