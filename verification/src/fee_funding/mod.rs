//! The funding of test accounts with the native fee asset.
//!
//! A run is given a pool of wallets. Every test runs in a process of its own, which claims one of
//! them before its first payment and holds it until it exits. Here stands what is decided on the
//! way; the calls to the node and to the file system lie outside.

pub mod claim;
pub mod files;
pub mod lock;
pub mod payment;

pub use claim::{Claim, ClaimStep};
pub use files::{
    check_funder, funder_files, load_funders, read_funder, FunderFile, FunderRead, FunderSource,
    FUNDER_ACCOUNTS_ENV,
};
pub use lock::{lock_file_name, lock_outcome, LockAttempt};
pub use payment::{
    fund_step, funding_notes, is_safe_to_retry, FundStep, FunderState, FundingNote, NoteType,
    Payment, PaymentStep, SubmissionFailure, FUNDING_AMOUNT,
};
