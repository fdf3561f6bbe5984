//! The account that a call runs on, and the one that it runs from.

use vstd::prelude::*;

use crate::account::AccountId;
use crate::call::error::{around, fails_with, CliError};
use crate::number::{append_decimal, decimal};

verus! {

/// Whether the local state of an account can be worked on.
#[derive(Clone, Copy, Debug, PartialEq, Eq, Structural)]
pub enum AccountStatus {
    /// The state is that of the network.
    Usable,
    /// The state does not match that of the network.
    Locked,
}

/// Where a call runs.
#[derive(Clone, Copy, Debug, PartialEq, Eq, Structural)]
pub enum CallTarget {
    /// The account is tracked locally, so it runs the call itself and may be changed by it.
    Local(AccountId),
    /// The account is read from the network, and the call runs from a local account.
    Remote { target_id: AccountId, executor_id: AccountId },
}

/// What is said of a locked account.
pub open spec fn locked_account(id: AccountId) -> Seq<char> {
    "Account "@ + id.text()
        + " is locked: its local state doesn't match the network's, so the call can't run on it."@
}

/// Why an account cannot be read from the network.
#[derive(Debug)]
pub enum ForeignRefusal {
    /// Its state is not public.
    NotPublic,
    /// For another reason.
    Other(String),
}

/// What is said of an account that cannot be read from the network.
pub open spec fn unreadable_account(id: AccountId, refusal: ForeignRefusal) -> Seq<char> {
    match refusal {
        ForeignRefusal::NotPublic => "Account "@ + id.text()
            + " isn't tracked locally and its state isn't public, so it can't be read from the network."@,
        ForeignRefusal::Other(reason) => "Account "@ + id.text()
            + " can't be read from the network: "@ + reason@,
    }
}

/// The error for an account that cannot be read from the network.
pub fn foreign_account_error(target_id: AccountId, refusal: ForeignRefusal) -> (r: CliError)
    requires
        target_id.is_valid(),
    ensures
        r.detail() == unreadable_account(target_id, refusal),
{
    let id = target_id.to_hex();
    match refusal {
        ForeignRefusal::NotPublic => CliError::InvalidArgument(
            around(
                "Account ",
                id.as_str(),
                " isn't tracked locally and its state isn't public, so it can't be read from the network.",
            ),
        ),
        ForeignRefusal::Other(reason) => {
            let mut text = around("Account ", id.as_str(), " can't be read from the network: ");
            text.append(reason.as_str());
            CliError::InvalidArgument(text)
        },
    }
}

/// Whether the account at place `i` is the first of `accounts` that is usable.
pub open spec fn is_first_usable(
    accounts: Seq<(AccountId, AccountStatus)>,
    i: int,
) -> bool {
    &&& 0 <= i < accounts.len()
    &&& accounts[i].1 == AccountStatus::Usable
    &&& forall|j: int| 0 <= j < i ==> (#[trigger] accounts[j]).1 == AccountStatus::Locked
}

/// What is said where no account can run a call.
pub open spec fn no_executor() -> Seq<char> {
    "Calling an account that isn't tracked locally needs one of your own accounts to run the call from, and none is usable. Create one with `miden-client new-wallet` and re-run."@
}

/// The local account that a call on a foreign account runs from where the default account cannot:
/// the first of `accounts` that is usable. Any account will do, since the script calls the
/// procedure of the foreign account.
pub fn pick_local_executor(accounts: &[(AccountId, AccountStatus)]) -> (r: Result<
    AccountId,
    CliError,
>)
    ensures
        match r {
            Ok(id) => exists|i: int| #[trigger]
                is_first_usable(accounts@, i) && accounts@[i].0 == id,
            Err(_) => {
                &&& forall|i: int|
                    0 <= i < accounts@.len() ==> (#[trigger] accounts@[i]).1
                        == AccountStatus::Locked
                &&& fails_with(r, no_executor())
            },
        },
{
    let mut i: usize = 0;
    while i < accounts.len()
        invariant
            i <= accounts@.len(),
            forall|j: int| 0 <= j < i ==> (#[trigger] accounts@[j]).1 == AccountStatus::Locked,
        decreases accounts@.len() - i,
    {
        let account: (AccountId, AccountStatus) = accounts[i];
        if let AccountStatus::Usable = account.1 {
            assert(is_first_usable(accounts@, i as int));
            return Ok(account.0);
        }
        i = i + 1;
    }
    Err(
        CliError::InvalidArgument(
            String::from_str(
                "Calling an account that isn't tracked locally needs one of your own accounts to run the call from, and none is usable. Create one with `miden-client new-wallet` and re-run.",
            ),
        ),
    )
}

/// What is shown before a call on an account that is read from the network.
pub open spec fn remote_notice(target: AccountId, executor: AccountId) -> Seq<char> {
    "Account "@ + target.text()
        + " isn't tracked locally; reading its state from the network and running the call from your account "@
        + executor.text() + ".\n"@
}

/// The target of a call on an account that is read from the network, and what is shown before it.
pub fn remote_target(target_id: AccountId, executor_id: AccountId) -> (r: (String, CallTarget))
    requires
        target_id.is_valid(),
        executor_id.is_valid(),
    ensures
        r.0@ == remote_notice(target_id, executor_id),
        r.1 == (CallTarget::Remote { target_id, executor_id }),
{
    let mut notice = around(
        "Account ",
        target_id.to_hex().as_str(),
        " isn't tracked locally; reading its state from the network and running the call from your account ",
    );
    notice.append(executor_id.to_hex().as_str());
    notice.append(".\n");
    (notice, CallTarget::Remote { target_id, executor_id })
}

/// What is said of a call on a foreign account with too many elements.
pub open spec fn too_many_foreign_inputs(max: nat, actual: nat) -> Seq<char> {
    "A call on an account read from the network takes at most "@ + decimal(max)
        + " input felts; got "@ + decimal(actual)
}

/// The error for a call on a foreign account with too many elements.
pub fn foreign_inputs_error(max: usize, actual: usize) -> (r: CliError)
    ensures
        r.detail() == too_many_foreign_inputs(max as nat, actual as nat),
{
    let mut text = String::from_str("A call on an account read from the network takes at most ");
    append_decimal(&mut text, max as u64);
    text.append(" input felts; got ");
    append_decimal(&mut text, actual as u64);
    CliError::InvalidArgument(text)
}

/// Where the search for the target of a call stands. Each state holds the account that the call is
/// meant for.
#[derive(Clone, Copy, Debug, PartialEq, Eq, Structural)]
pub enum TargetSearch {
    /// Its status is being read, which tells whether it is tracked locally.
    Account(AccountId),
    /// It is being prepared to be read from the network.
    Foreign(AccountId),
    /// The default account is being looked up.
    Default(AccountId),
    /// The status of the default account, which comes second, is being read.
    DefaultStatus(AccountId, AccountId),
    /// All local accounts are being listed.
    AnyLocal(AccountId),
    /// The target is found.
    Found(CallTarget),
}

/// What the search for the target of a call learns.
#[derive(Debug)]
pub enum TargetFact {
    /// The status of the account that was asked for, if it is tracked locally.
    Status(Option<AccountStatus>),
    /// The account can be read from the network, or why it cannot.
    Foreign(Option<ForeignRefusal>),
    /// The default account, if there is one.
    Default(Option<AccountId>),
    /// The local accounts.
    Accounts(Vec<(AccountId, AccountStatus)>),
}

/// Whether `r` is a call on `target` from `executor`, announced.
pub open spec fn found_remote(
    r: Result<(TargetSearch, String), CliError>,
    target: AccountId,
    executor: AccountId,
) -> bool {
    &&& r is Ok
    &&& r->Ok_0.0 == TargetSearch::Found(
        CallTarget::Remote { target_id: target, executor_id: executor },
    )
    &&& r->Ok_0.1@ == remote_notice(target, executor)
}

/// Whether `r` goes on with `next` and shows nothing.
pub open spec fn goes_on(r: Result<(TargetSearch, String), CliError>, next: TargetSearch) -> bool {
    r is Ok && r->Ok_0.0 == next && r->Ok_0.1@.len() == 0
}

/// What follows `fact` in the search for a target: the next state and what is shown, or an error.
///
/// A tracked account runs the call itself unless it is locked. A locked account is always private,
/// so it cannot be read from the network either. Any other account is read from the network, and
/// the call runs from the default account where that is usable, else from the first usable one.
pub open spec fn search_follows(
    state: TargetSearch,
    fact: TargetFact,
    r: Result<(TargetSearch, String), CliError>,
) -> bool {
    match (state, fact) {
        (TargetSearch::Account(target), TargetFact::Status(status)) => match status {
            Some(AccountStatus::Locked) => fails_with(r, locked_account(target)),
            Some(AccountStatus::Usable) => goes_on(
                r,
                TargetSearch::Found(CallTarget::Local(target)),
            ),
            None => goes_on(r, TargetSearch::Foreign(target)),
        },
        (TargetSearch::Foreign(target), TargetFact::Foreign(refusal)) => match refusal {
            Some(refusal) => fails_with(r, unreadable_account(target, refusal)),
            None => goes_on(r, TargetSearch::Default(target)),
        },
        (TargetSearch::Default(target), TargetFact::Default(default)) => match default {
            Some(id) => goes_on(r, TargetSearch::DefaultStatus(target, id)),
            None => goes_on(r, TargetSearch::AnyLocal(target)),
        },
        (TargetSearch::DefaultStatus(target, id), TargetFact::Status(status)) => if status == Some(
            AccountStatus::Usable,
        ) {
            found_remote(r, target, id)
        } else {
            goes_on(r, TargetSearch::AnyLocal(target))
        },
        (TargetSearch::AnyLocal(target), TargetFact::Accounts(accounts)) => {
            ||| exists|i: int| #[trigger]
                is_first_usable(accounts@, i) && found_remote(r, target, accounts@[i].0)
            ||| fails_with(r, no_executor()) && forall|i: int|
                0 <= i < accounts@.len() ==> (#[trigger] accounts@[i]).1 == AccountStatus::Locked
        },
        _ => goes_on(r, state),
    }
}

/// Whether the accounts of a fact are accounts.
pub open spec fn fact_is_valid(fact: TargetFact) -> bool {
    match fact {
        TargetFact::Default(Some(id)) => id.is_valid(),
        TargetFact::Accounts(accounts) => forall|i: int|
            0 <= i < accounts@.len() ==> (#[trigger] accounts@[i]).0.is_valid(),
        _ => true,
    }
}

impl TargetSearch {
    /// Whether the accounts of the state are accounts.
    pub open spec fn is_valid(self) -> bool {
        match self {
            TargetSearch::Account(target) => target.is_valid(),
            TargetSearch::Foreign(target) => target.is_valid(),
            TargetSearch::Default(target) => target.is_valid(),
            TargetSearch::DefaultStatus(target, id) => target.is_valid() && id.is_valid(),
            TargetSearch::AnyLocal(target) => target.is_valid(),
            TargetSearch::Found(CallTarget::Local(target)) => target.is_valid(),
            TargetSearch::Found(
                CallTarget::Remote { target_id, executor_id },
            ) => target_id.is_valid() && executor_id.is_valid(),
        }
    }

    /// What follows `fact`: the next state and what is shown, or an error.
    pub fn learn(self, fact: TargetFact) -> (r: Result<(TargetSearch, String), CliError>)
        requires
            self.is_valid(),
            fact_is_valid(fact),
        ensures
            search_follows(self, fact, r),
            r matches Ok(next) ==> next.0.is_valid(),
    {
        let quiet = String::new();
        match (self, fact) {
            (TargetSearch::Account(target), TargetFact::Status(status)) => match status {
                Some(AccountStatus::Locked) => Err(
                    CliError::InvalidArgument(
                        around(
                            "Account ",
                            target.to_hex().as_str(),
                            " is locked: its local state doesn't match the network's, so the call can't run on it.",
                        ),
                    ),
                ),
                Some(AccountStatus::Usable) => Ok(
                    (TargetSearch::Found(CallTarget::Local(target)), quiet),
                ),
                None => Ok((TargetSearch::Foreign(target), quiet)),
            },
            (TargetSearch::Foreign(target), TargetFact::Foreign(refusal)) => match refusal {
                Some(refusal) => Err(foreign_account_error(target, refusal)),
                None => Ok((TargetSearch::Default(target), quiet)),
            },
            (TargetSearch::Default(target), TargetFact::Default(default)) => match default {
                Some(id) => Ok((TargetSearch::DefaultStatus(target, id), quiet)),
                None => Ok((TargetSearch::AnyLocal(target), quiet)),
            },
            (TargetSearch::DefaultStatus(target, id), TargetFact::Status(status)) => match status {
                Some(AccountStatus::Usable) => {
                    let (notice, found) = remote_target(target, id);
                    Ok((TargetSearch::Found(found), notice))
                },
                _ => Ok((TargetSearch::AnyLocal(target), quiet)),
            },
            (TargetSearch::AnyLocal(target), TargetFact::Accounts(accounts)) => {
                match pick_local_executor(&accounts) {
                    Ok(executor) => {
                        let ghost i = choose|i: int| #[trigger]
                            is_first_usable(accounts@, i) && accounts@[i].0 == executor;
                        assert(accounts@[i].0.is_valid());
                        let (notice, found) = remote_target(target, executor);
                        Ok((TargetSearch::Found(found), notice))
                    },
                    Err(error) => Err(error),
                }
            },
            (state, _) => Ok((state, quiet)),
        }
    }
}

/// A call runs only on or from an account whose local state is that of the network: whatever ends
/// the search has just said so of that account.
pub proof fn lemma_only_usable_accounts_run(
    state: TargetSearch,
    fact: TargetFact,
    r: Result<(TargetSearch, String), CliError>,
)
    requires
        search_follows(state, fact, r),
        r is Ok,
        r->Ok_0.0 is Found,
        !(state is Found),
    ensures
        match (r->Ok_0.0->Found_0, fact) {
            (CallTarget::Local(id), TargetFact::Status(status)) => state == TargetSearch::Account(
                id,
            ) && status == Some(AccountStatus::Usable),
            (CallTarget::Remote { executor_id, target_id }, TargetFact::Status(status)) => state
                == TargetSearch::DefaultStatus(target_id, executor_id) && status == Some(
                AccountStatus::Usable,
            ),
            (CallTarget::Remote { executor_id, .. }, TargetFact::Accounts(accounts)) => exists|i: int|
                #[trigger]
                is_first_usable(accounts@, i) && accounts@[i].0 == executor_id,
            _ => false,
        },
{
}

/// An account that is tracked locally runs the call itself, silently, unless it is locked. A target
/// that is found stays found, whatever is learnt.
pub proof fn lemma_tracked_account_runs_the_call(
    target: AccountId,
    status: AccountStatus,
    r: Result<(TargetSearch, String), CliError>,
    found: CallTarget,
    fact: TargetFact,
    later: Result<(TargetSearch, String), CliError>,
)
    requires
        search_follows(
            TargetSearch::Account(target),
            TargetFact::Status(Some(status)),
            r,
        ),
        search_follows(TargetSearch::Found(found), fact, later),
    ensures
        status == AccountStatus::Usable <==> r is Ok,
        r matches Ok(next) ==> next.0 == TargetSearch::Found(CallTarget::Local(target))
            && next.1@.len() == 0,
        later matches Ok(next) && next.0 == TargetSearch::Found(found),
{
}

/// A call on an account that is not tracked and can be read from the network finds its target
/// whenever some account can run it: the default account where that is usable, else the first
/// usable one of the list, which may stand anywhere in it. It fails only where there is none.
pub proof fn lemma_untracked_account_is_called_from_a_usable_one(
    target: AccountId,
    default: Option<AccountId>,
    default_status: Option<AccountStatus>,
    accounts: Vec<(AccountId, AccountStatus)>,
    steps: Seq<Result<(TargetSearch, String), CliError>>,
)
    requires
        steps.len() == 5,
        search_follows(TargetSearch::Account(target), TargetFact::Status(None), steps[0]),
        steps[0] matches Ok(step) ==> search_follows(step.0, TargetFact::Foreign(None), steps[1]),
        steps[1] matches Ok(step) ==> search_follows(
            step.0,
            TargetFact::Default(default),
            steps[2],
        ),
        steps[2] matches Ok(step) ==> search_follows(
            step.0,
            TargetFact::Status(default_status),
            steps[3],
        ),
        steps[3] matches Ok(step) ==> search_follows(
            step.0,
            TargetFact::Accounts(accounts),
            steps[4],
        ),
    ensures
        steps[0] is Ok && steps[1] is Ok && steps[2] is Ok && steps[3] is Ok,
        if default is Some && default_status == Some(AccountStatus::Usable) {
            steps[3]->Ok_0.1@ == remote_notice(target, default->Some_0) && steps[4] is Ok
                && steps[4]->Ok_0.0 == TargetSearch::Found(
                (CallTarget::Remote { target_id: target, executor_id: default->Some_0 }),
            )
        } else if exists|k: int|
            0 <= k < accounts@.len() && (#[trigger] accounts@[k]).1 == AccountStatus::Usable {
            exists|k: int|
                {
                    &&& 0 <= k < accounts@.len()
                    &&& (#[trigger] accounts@[k]).1 == AccountStatus::Usable
                    &&& forall|j: int| 0 <= j < k ==> accounts@[j].1 != AccountStatus::Usable
                    &&& steps[4] is Ok
                    &&& steps[4]->Ok_0.0 == TargetSearch::Found(
                        (CallTarget::Remote { target_id: target, executor_id: accounts@[k].0 }),
                    )
                    &&& steps[4]->Ok_0.1@ == remote_notice(target, accounts@[k].0)
                }
        } else {
            fails_with(steps[4], no_executor())
        },
{
    if !(default is Some && default_status == Some(AccountStatus::Usable)) {
        assert(steps[3]->Ok_0.0 == TargetSearch::AnyLocal(target));
        if exists|i: int| #[trigger]
            is_first_usable(accounts@, i) && found_remote(steps[4], target, accounts@[i].0) {
            let k = choose|i: int| #[trigger]
                is_first_usable(accounts@, i) && found_remote(steps[4], target, accounts@[i].0);
            assert(accounts@[k].1 == AccountStatus::Usable);
        }
    }
}

/// What is said and shown of accounts names each of them by its whole id, and gives the reason why
/// one cannot be read as it was given.
pub proof fn lemma_accounts_are_named(
    target: AccountId,
    executor: AccountId,
    refusal: ForeignRefusal,
    max: nat,
    actual: nat,
)
    ensures
        locked_account(target) == "Account "@ + target.text()
            + " is locked: its local state doesn't match the network's, so the call can't run on it."@,
        unreadable_account(target, refusal) == match refusal {
            ForeignRefusal::NotPublic => "Account "@ + target.text()
                + " isn't tracked locally and its state isn't public, so it can't be read from the network."@,
            ForeignRefusal::Other(reason) => "Account "@ + target.text()
                + " can't be read from the network: "@ + reason@,
        },
        remote_notice(target, executor) == "Account "@ + target.text()
            + " isn't tracked locally; reading its state from the network and running the call from your account "@
            + executor.text() + ".\n"@,
        too_many_foreign_inputs(max, actual)
            == "A call on an account read from the network takes at most "@ + decimal(max)
            + " input felts; got "@ + decimal(actual),
{
}

} // verus!
