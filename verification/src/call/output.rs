//! What a call shows.

use vstd::prelude::*;

use crate::call::error::around;
use crate::felt::Felt;
use crate::text::strings;

verus! {

/// What is shown of the results of a call.
#[derive(Debug)]
pub enum ResultOutput {
    /// Nothing: the procedure gives nothing.
    Nothing,
    /// The results, rendered by their types.
    Line(String),
    /// The stack, up to its last element that is not zero, since nothing says where the results
    /// end.
    Stack,
}

/// What is shown of the results of a call. Where the types of the procedure are known, `rendered`
/// holds what they make of the stack, if the procedure gives anything.
pub fn call_result(rendered: Option<Option<String>>) -> (r: ResultOutput)
    ensures
        match rendered {
            Some(Some(text)) => r matches ResultOutput::Line(line) && line@ == "Result: "@ + text@
                + "\n"@,
            Some(None) => r == ResultOutput::Nothing,
            None => r == ResultOutput::Stack,
        },
{
    match rendered {
        Some(Some(text)) => ResultOutput::Line(around("Result: ", text.as_str(), "\n")),
        Some(None) => ResultOutput::Nothing,
        None => ResultOutput::Stack,
    }
}

/// What is shown behind a call on an account that is read from the network.
pub open spec fn remote_footer() -> Seq<char> {
    "\nA call on an account read from the network can only read it; no state delta.\n"@
}

/// What is shown behind a call on an account that is read from the network.
pub fn remote_call_footer() -> (r: &'static str)
    ensures
        r@ == remote_footer(),
{
    "\nA call on an account read from the network can only read it; no state delta.\n"
}

/// The words in which the kernel refuses a transaction that changes nothing. They only decide which
/// report is shown.
pub const EMPTY_TRANSACTION_ASSERTION: &'static str =
    "executed transaction neither changed the account state, nor consumed any notes";

/// The code that a failed assertion with this message carries.
pub uninterp spec fn assertion_code(message: Seq<char>) -> u64;

/// `miden_protocol::assembly::mast::error_code_from_msg`, which hashes the message. The claim is
/// that the code is a function of the message.
#[verifier::external_body]
fn error_code(message: &str) -> (r: u64)
    ensures
        r == assertion_code(message@),
{
    miden_protocol::assembly::mast::error_code_from_msg(message).as_canonical_u64()
}

/// Whether a transaction failed because it changes nothing, given the code of the assertion that
/// failed, if one did.
pub fn is_empty_transaction(failed_assertion: Option<Felt>) -> (r: bool)
    ensures
        r == match failed_assertion {
            Some(code) => code@ == assertion_code(
                "executed transaction neither changed the account state, nor consumed any notes"@,
            ),
            None => false,
        },
{
    match failed_assertion {
        Some(code) => code.as_canonical_u64() == error_code(EMPTY_TRANSACTION_ASSERTION),
        None => false,
    }
}

/// The report of a transaction that changes nothing. It is what a call that only reads comes to.
pub open spec fn empty_report() -> Seq<char> {
    "\nThe transaction was rejected because it had no effects:\n\nNo notes were consumed.\n\nAccount Storage was not changed.\nAccount Vault was not changed.\nAccount nonce was not changed.\n"@
}

/// The causes of an error, a line each.
pub open spec fn cause_lines(causes: Seq<Seq<char>>) -> Seq<char>
    decreases causes.len(),
{
    if causes.len() == 0 {
        Seq::empty()
    } else {
        cause_lines(causes.drop_last()) + ("  caused by: "@ + causes.last() + "\n"@)
    }
}

/// The report of a transaction that failed otherwise.
pub open spec fn failure_report(error: Seq<char>, causes: Seq<Seq<char>>) -> Seq<char> {
    "\n(Could not compute state delta: "@ + error + ")\n"@ + cause_lines(causes)
}

/// The report of a transaction that did not execute, in place of the changes that it would have
/// made: the call itself has succeeded by then. `causes` are the causes of the error, the nearest
/// one first.
pub fn failed_delta_report(empty_transaction: bool, error: &str, causes: &[String]) -> (r: String)
    ensures
        r@ == if empty_transaction {
            empty_report()
        } else {
            failure_report(error@, strings(causes@))
        },
{
    if empty_transaction {
        return String::from_str(
            "\nThe transaction was rejected because it had no effects:\n\nNo notes were consumed.\n\nAccount Storage was not changed.\nAccount Vault was not changed.\nAccount nonce was not changed.\n",
        );
    }
    let ghost all = strings(causes@);
    let mut report = around("\n(Could not compute state delta: ", error, ")\n");
    let ghost head = report@;
    let mut i: usize = 0;
    assert(all.take(0) =~= Seq::<Seq<char>>::empty());
    assert(head + cause_lines(all.take(0)) =~= head);
    while i < causes.len()
        invariant
            i <= causes@.len(),
            all == strings(causes@),
            report@ == head + cause_lines(all.take(i as int)),
        decreases causes@.len() - i,
    {
        let ghost before = report@;
        let ghost done = all.take(i as int + 1);
        assert(done.drop_last() =~= all.take(i as int));
        let line = around("  caused by: ", causes[i].as_str(), "\n");
        report.append(line.as_str());
        i = i + 1;
        assert(report@ =~= head + cause_lines(done));
    }
    assert(all.take(i as int) =~= all);
    report
}

/// Every cause of a failure has a line of its own, in the order of the causes, behind the failure
/// itself.
pub proof fn lemma_every_cause_is_reported(
    error: Seq<char>,
    causes: Seq<Seq<char>>,
    cause: Seq<char>,
)
    ensures
        failure_report(error, Seq::empty()) == "\n(Could not compute state delta: "@ + error
            + ")\n"@,
        failure_report(error, causes.push(cause)) == failure_report(error, causes)
            + "  caused by: "@ + cause + "\n"@,
{
    let all = causes.push(cause);
    assert(all.drop_last() =~= causes);
    assert(failure_report(error, Seq::empty()) =~= "\n(Could not compute state delta: "@ + error
        + ")\n"@);
    assert(failure_report(error, all) =~= failure_report(error, causes) + "  caused by: "@ + cause
        + "\n"@);
}

} // verus!
