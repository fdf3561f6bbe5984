//! The course of a call once its target is found.

use vstd::prelude::*;

use crate::account::AccountId;
use crate::call::output::{
    call_result, failed_delta_report, failure_report, is_empty_transaction, remote_call_footer,
    remote_footer, assertion_code, empty_report, ResultOutput,
};
use crate::call::target::CallTarget;
use crate::felt::Felt;
use crate::text::strings;

verus! {

/// Where a call stands.
#[derive(Clone, Copy, Debug, PartialEq, Eq, Structural)]
pub enum CallRun {
    /// The script is being executed for its results, without any effect.
    Reading(CallTarget),
    /// The transaction of a local call is being built.
    Building(AccountId),
    /// The transaction of a local call is being executed.
    Executing(AccountId),
    /// The call has ended.
    Ended,
}

/// How a transaction failed.
#[derive(Debug)]
pub struct TransactionFailure {
    /// The code of the assertion that failed, if one did.
    pub failed_assertion: Option<Felt>,
    /// The error in words.
    pub error: String,
    /// Its causes in words, the nearest one first.
    pub causes: Vec<String>,
}

/// What happened to a call.
#[derive(Debug)]
pub enum CallEvent {
    /// The script was executed; where the types of the procedure are known, with what they make of
    /// the stack.
    Read(Option<Option<String>>),
    /// The transaction is built.
    Built,
    /// The transaction was executed, or how it failed.
    Executed(Option<TransactionFailure>),
}

/// What is to be done for a call.
#[derive(Debug)]
pub enum CallAction {
    /// Nothing: the event does not belong to the state.
    Nothing,
    /// Execute the script from the first account for its results, with the second account, if
    /// any, read from the network.
    ExecuteProgram(AccountId, Option<AccountId>),
    /// Show the results, and build the transaction.
    ShowAndBuild(ResultOutput),
    /// Show the results and this text, and end.
    ShowAndEnd(ResultOutput, &'static str),
    /// Execute the transaction with this account.
    ExecuteTransaction(AccountId),
    /// Show what the transaction changes, and end.
    ShowTransaction,
    /// Show this report, and end.
    Report(String),
}

/// Whether `shown` is what is shown of the results.
pub open spec fn shows_result(shown: ResultOutput, rendered: Option<Option<String>>) -> bool {
    match rendered {
        Some(Some(text)) => shown matches ResultOutput::Line(line) && line@ == "Result: "@ + text@
            + "\n"@,
        Some(None) => shown == ResultOutput::Nothing,
        None => shown == ResultOutput::Stack,
    }
}

/// Whether a transaction failed because it changes nothing.
pub open spec fn is_empty_failure(failure: TransactionFailure) -> bool {
    failure.failed_assertion matches Some(code) && code@ == assertion_code(
        "executed transaction neither changed the account state, nor consumed any notes"@,
    )
}

/// What follows `event`. A local call is executed twice: for its results, and as a transaction for
/// its changes; a transaction that fails does not make the call fail. A remote call cannot change
/// anything, so it is executed for its results alone.
pub open spec fn call_follows(state: CallRun, event: CallEvent, next: (CallRun, CallAction)) -> bool {
    match (state, event) {
        (CallRun::Reading(CallTarget::Local(id)), CallEvent::Read(rendered)) => {
            &&& next.0 == CallRun::Building(id)
            &&& next.1 matches CallAction::ShowAndBuild(shown) && shows_result(shown, rendered)
        },
        (CallRun::Reading(CallTarget::Remote { .. }), CallEvent::Read(rendered)) => {
            &&& next.0 == CallRun::Ended
            &&& next.1 matches CallAction::ShowAndEnd(shown, text) && shows_result(shown, rendered)
                && text@ == remote_footer()
        },
        (CallRun::Building(id), CallEvent::Built) => next == (
            CallRun::Executing(id),
            CallAction::ExecuteTransaction(id),
        ),
        (CallRun::Executing(_), CallEvent::Executed(None)) => next == (
            CallRun::Ended,
            CallAction::ShowTransaction,
        ),
        (CallRun::Executing(_), CallEvent::Executed(Some(failure))) => {
            &&& next.0 == CallRun::Ended
            &&& next.1 matches CallAction::Report(text) && text@ == if is_empty_failure(failure) {
                empty_report()
            } else {
                failure_report(failure.error@, strings(failure.causes@))
            }
        },
        _ => next == (state, CallAction::Nothing),
    }
}

impl CallRun {
    /// How a call begins: with the execution of its script, from the account itself or, for one
    /// that is read from the network, from a local account.
    pub fn start(target: CallTarget) -> (r: (CallRun, CallAction))
        ensures
            r.0 == CallRun::Reading(target),
            r.1 == match target {
                CallTarget::Local(id) => CallAction::ExecuteProgram(id, None),
                CallTarget::Remote { target_id, executor_id } => CallAction::ExecuteProgram(
                    executor_id,
                    Some(target_id),
                ),
            },
    {
        let action = match target {
            CallTarget::Local(id) => CallAction::ExecuteProgram(id, None),
            CallTarget::Remote { target_id, executor_id } => CallAction::ExecuteProgram(
                executor_id,
                Some(target_id),
            ),
        };
        (CallRun::Reading(target), action)
    }

    /// What follows `event`.
    pub fn next(self, event: CallEvent) -> (r: (CallRun, CallAction))
        ensures
            call_follows(self, event, r),
    {
        match (self, event) {
            (CallRun::Reading(target), CallEvent::Read(rendered)) => {
                let shown = call_result(rendered);
                match target {
                    CallTarget::Local(id) => (
                        CallRun::Building(id),
                        CallAction::ShowAndBuild(shown),
                    ),
                    CallTarget::Remote { .. } => (
                        CallRun::Ended,
                        CallAction::ShowAndEnd(shown, remote_call_footer()),
                    ),
                }
            },
            (CallRun::Building(id), CallEvent::Built) => (
                CallRun::Executing(id),
                CallAction::ExecuteTransaction(id),
            ),
            (CallRun::Executing(_), CallEvent::Executed(failure)) => match failure {
                None => (CallRun::Ended, CallAction::ShowTransaction),
                Some(failure) => {
                    let empty = is_empty_transaction(failure.failed_assertion);
                    let report = failed_delta_report(empty, failure.error.as_str(), &failure.causes);
                    (CallRun::Ended, CallAction::Report(report))
                },
            },
            (state, _) => (state, CallAction::Nothing),
        }
    }
}

/// Whether a call can still come to a transaction, and with which account.
pub open spec fn transacts(state: CallRun) -> Option<AccountId> {
    match state {
        CallRun::Reading(CallTarget::Local(id)) => Some(id),
        CallRun::Reading(CallTarget::Remote { .. }) => None,
        CallRun::Building(id) => Some(id),
        CallRun::Executing(id) => Some(id),
        CallRun::Ended => None,
    }
}

/// A call on an account that is read from the network never comes to a transaction, and a local
/// one only to a transaction of its own account, after its results were shown.
pub proof fn lemma_remote_calls_only_read(
    state: CallRun,
    event: CallEvent,
    next: (CallRun, CallAction),
)
    requires
        call_follows(state, event, next),
    ensures
        transacts(next.0) is Some ==> transacts(next.0) == transacts(state),
        next.1 matches CallAction::ExecuteTransaction(id) ==> transacts(state) == Some(id)
            && !(state is Reading),
{
}

/// A local call comes to its transaction and to its end, whatever its results are and whether or not
/// its transaction fails: the results are shown first, the transaction is that of the account, and
/// what is shown last is the change that it makes, or how it failed.
pub proof fn lemma_local_call_comes_to_its_end(
    id: AccountId,
    rendered: Option<Option<String>>,
    failure: Option<TransactionFailure>,
    read: (CallRun, CallAction),
    built: (CallRun, CallAction),
    executed: (CallRun, CallAction),
)
    requires
        call_follows(
            CallRun::Reading(CallTarget::Local(id)),
            CallEvent::Read(rendered),
            read,
        ),
        call_follows(read.0, CallEvent::Built, built),
        call_follows(built.0, CallEvent::Executed(failure), executed),
    ensures
        read.1 matches CallAction::ShowAndBuild(shown) && match rendered {
            Some(Some(text)) => shown matches ResultOutput::Line(line) && line@ == "Result: "@
                + text@ + "\n"@,
            Some(None) => shown is Nothing,
            None => shown is Stack,
        },
        built.1 == CallAction::ExecuteTransaction(id),
        executed.0 is Ended,
        match failure {
            None => executed.1 is ShowTransaction,
            Some(failure) => executed.1 matches CallAction::Report(text) && text@
                == if failure.failed_assertion is Some && failure.failed_assertion->0@
                == assertion_code(
                "executed transaction neither changed the account state, nor consumed any notes"@,
            ) {
                empty_report()
            } else {
                failure_report(failure.error@, strings(failure.causes@))
            },
        },
{
}

/// A call on an account that is read from the network ends with its results, which are shown, and
/// with the word that nothing was changed.
pub proof fn lemma_remote_call_ends_with_its_results(
    target_id: AccountId,
    executor_id: AccountId,
    rendered: Option<Option<String>>,
    read: (CallRun, CallAction),
)
    requires
        call_follows(
            CallRun::Reading(CallTarget::Remote { target_id, executor_id }),
            CallEvent::Read(rendered),
            read,
        ),
    ensures
        read.0 is Ended,
        read.1 matches CallAction::ShowAndEnd(shown, footer) && footer@ == remote_footer()
            && match rendered {
            Some(Some(text)) => shown matches ResultOutput::Line(line) && line@ == "Result: "@
                + text@ + "\n"@,
            Some(None) => shown is Nothing,
            None => shown is Stack,
        },
{
}

/// An event that nothing waits for changes nothing, and a call that has ended stays so.
pub proof fn lemma_unawaited_events_change_nothing(
    state: CallRun,
    event: CallEvent,
    next: (CallRun, CallAction),
)
    requires
        call_follows(state, event, next),
        match state {
            CallRun::Reading(_) => !(event is Read),
            CallRun::Building(_) => !(event is Built),
            CallRun::Executing(_) => !(event is Executed),
            CallRun::Ended => true,
        },
    ensures
        next.0 == state,
        next.1 is Nothing,
{
}

} // verus!
