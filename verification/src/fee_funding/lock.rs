//! The lock that a claim rests on.

use vstd::prelude::*;

use crate::account::AccountId;
use crate::protocol::lemma_account_id_reads_back;

verus! {

/// The name of the file that the lock of an account is taken on.
pub open spec fn lock_file(id: AccountId) -> Seq<char> {
    "miden-account-"@ + id.text() + ".lock"@
}

/// The name of the file that the lock of an account is taken on.
pub fn lock_file_name(id: AccountId) -> (r: String)
    requires
        id.is_valid(),
    ensures
        r@ == lock_file(id),
{
    let mut name = String::from_str("miden-account-");
    name.append(id.to_hex().as_str());
    name.append(".lock");
    name
}

/// Different accounts are locked by different files.
pub proof fn lemma_lock_files_differ(a: AccountId, b: AccountId)
    requires
        a.is_valid(),
        b.is_valid(),
        lock_file(a) == lock_file(b),
    ensures
        a == b,
{
    let head = "miden-account-"@;
    let x = a.text();
    let y = b.text();
    assert(lock_file(a).len() == lock_file(b).len());
    assert(x =~= lock_file(a).subrange(head.len() as int, (head.len() + x.len()) as int));
    assert(y =~= lock_file(b).subrange(head.len() as int, (head.len() + y.len()) as int));
    lemma_account_id_reads_back(a.prefix as nat, a.suffix as nat);
    lemma_account_id_reads_back(b.prefix as nat, b.suffix as nat);
}

/// How an attempt to take a lock ended.
#[derive(Clone, Copy, Debug, PartialEq, Eq, Structural)]
pub enum LockAttempt {
    /// The lock is taken.
    Taken,
    /// Another process holds it.
    WouldBlock,
    /// The attempt failed otherwise.
    Failed,
}

/// Whether `r` says how the attempt ended: with the lock, without it, or with an error.
pub open spec fn is_lock_outcome(
    id: AccountId,
    attempt: LockAttempt,
    r: Result<bool, String>,
) -> bool {
    match attempt {
        LockAttempt::Taken => r == Ok::<bool, String>(true),
        LockAttempt::WouldBlock => r == Ok::<bool, String>(false),
        LockAttempt::Failed => r matches Err(text) && text@ == "failed to lock account "@
            + id.text(),
    }
}

/// Whether the lock of an account was taken, or what is added to the error where that is not
/// known.
pub fn lock_outcome(id: AccountId, attempt: LockAttempt) -> (r: Result<bool, String>)
    requires
        id.is_valid(),
    ensures
        is_lock_outcome(id, attempt, r),
{
    match attempt {
        LockAttempt::Taken => Ok(true),
        LockAttempt::WouldBlock => Ok(false),
        LockAttempt::Failed => {
            let mut text = String::from_str("failed to lock account ");
            text.append(id.to_hex().as_str());
            Err(text)
        },
    }
}

/// An account is locked by a file of its own name, whatever the account.
pub proof fn lemma_lock_file_is_named_after_its_account(id: AccountId)
    ensures
        "miden-account-"@.is_prefix_of(lock_file(id)),
        ".lock"@.is_suffix_of(lock_file(id)),
        lock_file(id).subrange(14, lock_file(id).len() - 5) == id.text(),
{
    reveal_strlit("miden-account-");
    reveal_strlit(".lock");
    assert(lock_file(id).subrange(14, lock_file(id).len() - 5) =~= id.text());
    assert(lock_file(id).subrange(0, 14) =~= "miden-account-"@);
    assert(lock_file(id).subrange(lock_file(id).len() - 5, lock_file(id).len() as int)
        =~= ".lock"@);
}

/// A lock that another process holds is no failure, and only an attempt that fails is one.
pub proof fn lemma_busy_lock_is_no_failure(
    id: AccountId,
    attempt: LockAttempt,
    r: Result<bool, String>,
)
    requires
        is_lock_outcome(id, attempt, r),
    ensures
        r is Err <==> attempt is Failed,
        attempt is Taken <==> r == Ok::<bool, String>(true),
        attempt is WouldBlock <==> r == Ok::<bool, String>(false),
        r matches Err(text) ==> text@ == "failed to lock account "@ + id.text(),
{
}

} // verus!
