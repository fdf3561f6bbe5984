//! Payments out of a claimed wallet.

use vstd::prelude::*;

use crate::account::AccountId;
use crate::number::{append_decimal, decimal};
use crate::protocol::MAX_AMOUNT;
use crate::text::strings;

verus! {

/// How much of the native fee asset, in base units, each funded account receives.
pub const FUNDING_AMOUNT: u64 = 10_000_000;

/// How many seconds pass before a refused payment is submitted again.
pub const STALE_WALLET_RETRY_SECONDS: u64 = 5;

/// The id of a transaction, as its four field elements.
pub type TransactionId = [u64; 4];

/// How the submission of a payment failed.
#[derive(Clone, Copy, Debug, PartialEq, Eq, Structural)]
pub enum SubmissionFailure {
    /// The node accepted the payment, and what followed failed.
    ApplyAfterSubmit,
    /// It is not known whether the node accepted the payment.
    OutcomeUnknown,
    /// The node did not accept the payment.
    Refused,
}

/// Whether a failed submission has certainly left the state of the node as it was, so that the
/// payment can be sent again. One that was accepted, or may have been, has moved the nonce of the
/// wallet: a second copy would be refused, and would hide the first.
pub fn is_safe_to_retry(failure: SubmissionFailure) -> (r: bool)
    ensures
        r == (failure == SubmissionFailure::Refused),
{
    match failure {
        SubmissionFailure::ApplyAfterSubmit => false,
        SubmissionFailure::OutcomeUnknown => false,
        SubmissionFailure::Refused => true,
    }
}

/// A payment that is being submitted.
#[derive(Debug)]
pub enum Payment {
    /// For the first time.
    First,
    /// Again, after the first attempt was refused in these words.
    Again(String),
}

/// What follows a submission.
#[derive(Debug)]
pub enum PaymentStep {
    /// The payment was accepted, as this transaction.
    Accepted(TransactionId),
    /// The payment was refused in these words, and is to be submitted again after a pause and a
    /// sync.
    Retry(String),
    /// The payment failed; the text, if any, is added to the error.
    Failed(Option<String>),
}

/// What is added to the error of a second attempt.
pub open spec fn retry_context(first: Seq<char>) -> Seq<char> {
    "the retry was rejected too, after the first attempt failed with: "@ + first
}

impl Payment {
    /// What follows a submission, given the transaction that was accepted, or how the submission
    /// failed and in which words.
    pub fn submitted(
        self,
        outcome: Result<TransactionId, (SubmissionFailure, String)>,
    ) -> (r: PaymentStep)
        ensures
            match (outcome, self) {
                (Ok(id), _) => r == PaymentStep::Accepted(id),
                (Err((failure, words)), Payment::First) => if failure
                    == SubmissionFailure::Refused {
                    r == PaymentStep::Retry(words)
                } else {
                    r == PaymentStep::Failed(None)
                },
                (Err(_), Payment::Again(first)) => r matches PaymentStep::Failed(Some(text))
                    && text@ == retry_context(first@),
            },
    {
        match outcome {
            Ok(id) => PaymentStep::Accepted(id),
            Err((failure, words)) => match self {
                Payment::First => if is_safe_to_retry(failure) {
                    PaymentStep::Retry(words)
                } else {
                    PaymentStep::Failed(None)
                },
                Payment::Again(first) => {
                    let mut text = String::from_str(
                        "the retry was rejected too, after the first attempt failed with: ",
                    );
                    text.append(first.as_str());
                    PaymentStep::Failed(Some(text))
                },
            },
        }
    }
}

/// Who sees what a note holds.
#[derive(Clone, Copy, Debug, PartialEq, Eq, Structural)]
pub enum NoteType {
    /// The chain holds the commitment of the note alone.
    Private,
    /// The chain holds the note.
    Public,
}

/// A note that pays one account.
#[derive(Clone, Copy, Debug, PartialEq, Eq, Structural)]
pub struct FundingNote {
    pub sender: AccountId,
    pub target: AccountId,
    /// The faucet of the asset.
    pub faucet: AccountId,
    pub amount: u64,
    pub note_type: NoteType,
}

/// The note that pays `target` out of the wallet `sender`: a private one.
pub open spec fn funding_note(
    sender: AccountId,
    faucet: AccountId,
    target: AccountId,
) -> FundingNote {
    FundingNote { sender, target, faucet, amount: FUNDING_AMOUNT, note_type: NoteType::Private }
}

/// The notes that pay `targets` out of the wallet `sender`, one for each target and in their order.
/// They go into one transaction, since each transaction costs a fee and a proof.
pub fn funding_notes(sender: AccountId, faucet: AccountId, targets: &[AccountId]) -> (r: Vec<
    FundingNote,
>)
    ensures
        r@ == targets@.map_values(|target: AccountId| funding_note(sender, faucet, target)),
{
    let mut notes: Vec<FundingNote> = Vec::new();
    let mut i: usize = 0;
    while i < targets.len()
        invariant
            i <= targets@.len(),
            notes@.len() == i,
            forall|k: int|
                0 <= k < i ==> notes@[k] == funding_note(sender, faucet, #[trigger] targets@[k]),
        decreases targets@.len() - i,
    {
        notes.push(
            FundingNote {
                sender,
                target: targets[i],
                faucet,
                amount: FUNDING_AMOUNT,
                note_type: NoteType::Private,
            },
        );
        i = i + 1;
    }
    assert(notes@ =~= targets@.map_values(
        |target: AccountId| funding_note(sender, faucet, target),
    ));
    notes
}

/// The amount of a funding note is one that an asset can have.
pub proof fn lemma_funding_amount_is_valid(sender: AccountId, faucet: AccountId, target: AccountId)
    ensures
        funding_note(sender, faucet, target).amount <= MAX_AMOUNT,
{
}

/// What is added to the error of a payment.
pub open spec fn payment_failure(wallet: AccountId, targets: nat) -> Seq<char> {
    "funder "@ + wallet.text() + " failed to pay "@ + decimal(targets) + " accounts"@
}

/// What is added to the error of a payment.
pub fn payment_context(wallet: AccountId, targets: usize) -> (r: String)
    requires
        wallet.is_valid(),
    ensures
        r@ == payment_failure(wallet, targets as nat),
{
    let mut text = String::from_str("funder ");
    text.append(wallet.to_hex().as_str());
    text.append(" failed to pay ");
    append_decimal(&mut text, targets as u64);
    text.append(" accounts");
    text
}

/// What is added to the error of an import.
pub open spec fn import_failure(wallet: AccountId) -> Seq<char> {
    "failed to import funder "@ + wallet.text()
}

/// What is added to the error of an import.
pub fn import_context(wallet: AccountId) -> (r: String)
    requires
        wallet.is_valid(),
    ensures
        r@ == import_failure(wallet),
{
    let mut text = String::from_str("failed to import funder ");
    text.append(wallet.to_hex().as_str());
    text
}

/// Where the payment of some accounts out of a wallet stands.
#[derive(Debug)]
pub enum PayState {
    /// The nonce of the wallet is being read, which tells whether the client holds the wallet.
    Looking,
    /// The wallet is being imported.
    Importing,
    /// The fee parameters of the chain are being read.
    ReadingFees,
    /// The notes and the request are being built.
    Building,
    /// The request is being submitted.
    Submitting(Payment),
    /// The request was refused in these words and waits for its second attempt.
    Pausing(String),
    /// The client is being synced before the second attempt.
    Syncing(String),
    /// The node accepted the payment.
    Paid,
    /// The payment failed.
    Failed,
}

/// What happened to a payment.
#[derive(Debug)]
pub enum PayEvent {
    /// Whether the nonce of the wallet could be read.
    Nonce(bool),
    /// The faucet of the fee asset is known.
    FeeFaucet(AccountId),
    /// What was asked for is done.
    Done,
    /// What was asked for failed.
    Error,
    /// The request was submitted: the transaction that was accepted, or how the submission failed
    /// and in which words.
    Submitted(Result<TransactionId, (SubmissionFailure, String)>),
}

/// What is to be done for a payment.
#[derive(Debug)]
pub enum PayAction {
    /// Nothing: the event does not belong to the state.
    Nothing,
    /// Import the wallet. A wallet that the client has paid from is not imported again: its local
    /// nonce is ahead of the chain until that payment is in a block.
    Import,
    /// Read the fee parameters of the chain.
    ReadFees,
    /// Build these notes, and the request that carries them.
    Build(Vec<FundingNote>),
    /// Submit the request.
    Submit,
    /// Let this many seconds pass.
    Pause(u64),
    /// Sync the client.
    Sync,
    /// Hand out the notes, which this transaction carries.
    Finish(TransactionId),
    /// Fail, with these texts added to the error, the innermost first.
    Fail(Vec<String>),
}

/// Whether the payment fails with exactly these texts added to its error.
pub open spec fn fails(next: (PayState, PayAction), texts: Seq<Seq<char>>) -> bool {
    &&& next.0 == PayState::Failed
    &&& next.1 matches PayAction::Fail(added) && strings(added@) == texts
}

/// What follows `event` in the payment of `targets` out of `wallet`.
pub open spec fn pay_follows(
    wallet: AccountId,
    targets: Seq<AccountId>,
    state: PayState,
    event: PayEvent,
    next: (PayState, PayAction),
) -> bool {
    let context = payment_failure(wallet, targets.len());
    match (state, event) {
        (PayState::Looking, PayEvent::Nonce(true)) => next == (
            PayState::ReadingFees,
            PayAction::ReadFees,
        ),
        (PayState::Looking, PayEvent::Nonce(false)) => next == (
            PayState::Importing,
            PayAction::Import,
        ),
        (PayState::Importing, PayEvent::Done) => next == (
            PayState::ReadingFees,
            PayAction::ReadFees,
        ),
        (PayState::Importing, PayEvent::Error) => fails(next, seq![import_failure(wallet)]),
        (PayState::ReadingFees, PayEvent::FeeFaucet(faucet)) => {
            &&& next.0 == PayState::Building
            &&& next.1 matches PayAction::Build(notes) && notes@ == targets.map_values(
                |target: AccountId| funding_note(wallet, faucet, target),
            )
        },
        (PayState::ReadingFees, PayEvent::Error) => fails(next, Seq::empty()),
        (PayState::Building, PayEvent::Done) => next == (
            PayState::Submitting(Payment::First),
            PayAction::Submit,
        ),
        (PayState::Building, PayEvent::Error) => fails(next, Seq::empty()),
        (PayState::Submitting(_), PayEvent::Submitted(Ok(id))) => next == (
            PayState::Paid,
            PayAction::Finish(id),
        ),
        (
            PayState::Submitting(Payment::First),
            PayEvent::Submitted(Err((failure, words))),
        ) => if failure == SubmissionFailure::Refused {
            next == (PayState::Pausing(words), PayAction::Pause(STALE_WALLET_RETRY_SECONDS))
        } else {
            fails(next, seq![context])
        },
        (
            PayState::Submitting(Payment::Again(first)),
            PayEvent::Submitted(Err(_)),
        ) => fails(next, seq![retry_context(first@), context]),
        (PayState::Pausing(words), PayEvent::Done) => next == (
            PayState::Syncing(words),
            PayAction::Sync,
        ),
        (PayState::Syncing(words), PayEvent::Done) => next == (
            PayState::Submitting(Payment::Again(words)),
            PayAction::Submit,
        ),
        (PayState::Syncing(_), PayEvent::Error) => fails(
            next,
            seq!["failed to sync the funder client before a retry"@, context],
        ),
        _ => next == (state, PayAction::Nothing),
    }
}

/// One text in a list.
fn one_text(text: String) -> (r: Vec<String>)
    ensures
        strings(r@) == seq![text@],
{
    let mut list: Vec<String> = Vec::new();
    list.push(text);
    assert(strings(list@) =~= seq![text@]);
    list
}

/// Two texts in a list.
fn two_texts(first: String, second: String) -> (r: Vec<String>)
    ensures
        strings(r@) == seq![first@, second@],
{
    let mut list: Vec<String> = Vec::new();
    list.push(first);
    list.push(second);
    assert(strings(list@) =~= seq![first@, second@]);
    list
}

/// What follows `event` in the payment of `targets` out of `wallet`.
pub fn pay_next(
    wallet: AccountId,
    targets: &[AccountId],
    state: PayState,
    event: PayEvent,
) -> (next: (PayState, PayAction))
    requires
        wallet.is_valid(),
    ensures
        pay_follows(wallet, targets@, state, event, next),
{
    match (state, event) {
        (PayState::Looking, PayEvent::Nonce(known)) => if known {
            (PayState::ReadingFees, PayAction::ReadFees)
        } else {
            (PayState::Importing, PayAction::Import)
        },
        (PayState::Importing, PayEvent::Done) => (PayState::ReadingFees, PayAction::ReadFees),
        (PayState::Importing, PayEvent::Error) => (
            PayState::Failed,
            PayAction::Fail(one_text(import_context(wallet))),
        ),
        (PayState::ReadingFees, PayEvent::FeeFaucet(faucet)) => (
            PayState::Building,
            PayAction::Build(funding_notes(wallet, faucet, targets)),
        ),
        (PayState::ReadingFees, PayEvent::Error) => {
            let none: Vec<String> = Vec::new();
            assert(strings(none@) =~= Seq::<Seq<char>>::empty());
            (PayState::Failed, PayAction::Fail(none))
        },
        (PayState::Building, PayEvent::Done) => (
            PayState::Submitting(Payment::First),
            PayAction::Submit,
        ),
        (PayState::Building, PayEvent::Error) => {
            let none: Vec<String> = Vec::new();
            assert(strings(none@) =~= Seq::<Seq<char>>::empty());
            (PayState::Failed, PayAction::Fail(none))
        },
        (PayState::Submitting(payment), PayEvent::Submitted(outcome)) => {
            match payment.submitted(outcome) {
                PaymentStep::Accepted(id) => (PayState::Paid, PayAction::Finish(id)),
                PaymentStep::Retry(words) => (
                    PayState::Pausing(words),
                    PayAction::Pause(STALE_WALLET_RETRY_SECONDS),
                ),
                PaymentStep::Failed(None) => (
                    PayState::Failed,
                    PayAction::Fail(one_text(payment_context(wallet, targets.len()))),
                ),
                PaymentStep::Failed(Some(text)) => (
                    PayState::Failed,
                    PayAction::Fail(two_texts(text, payment_context(wallet, targets.len()))),
                ),
            }
        },
        (PayState::Pausing(words), PayEvent::Done) => (PayState::Syncing(words), PayAction::Sync),
        (PayState::Syncing(words), PayEvent::Done) => (
            PayState::Submitting(Payment::Again(words)),
            PayAction::Submit,
        ),
        (PayState::Syncing(_), PayEvent::Error) => (
            PayState::Failed,
            PayAction::Fail(
                two_texts(
                    String::from_str("failed to sync the funder client before a retry"),
                    payment_context(wallet, targets.len()),
                ),
            ),
        ),
        (state, _) => (state, PayAction::Nothing),
    }
}

/// How often the request may still be submitted.
pub open spec fn attempts_left(state: PayState) -> nat {
    match state {
        PayState::Looking | PayState::Importing | PayState::ReadingFees | PayState::Building => 2,
        PayState::Submitting(Payment::First) | PayState::Pausing(_) | PayState::Syncing(_) => 1,
        PayState::Submitting(Payment::Again(_)) | PayState::Paid | PayState::Failed => 0,
    }
}

/// A request is submitted at most twice: every submission uses up one of two attempts, and nothing
/// gives one back.
pub proof fn lemma_at_most_two_submissions(
    wallet: AccountId,
    targets: Seq<AccountId>,
    state: PayState,
    event: PayEvent,
    next: (PayState, PayAction),
)
    requires
        pay_follows(wallet, targets, state, event, next),
    ensures
        attempts_left(next.0) <= attempts_left(state),
        next.1 == PayAction::Submit ==> attempts_left(next.0) + 1 == attempts_left(state),
{
}

/// A request that the node accepted, or may have accepted, is not submitted again: what follows is
/// the end of the payment.
pub proof fn lemma_accepted_payment_is_final(
    wallet: AccountId,
    targets: Seq<AccountId>,
    state: PayState,
    outcome: Result<TransactionId, (SubmissionFailure, String)>,
    next: (PayState, PayAction),
)
    requires
        state is Submitting,
        pay_follows(wallet, targets, state, PayEvent::Submitted(outcome), next),
        outcome matches Err((how, _)) ==> how != SubmissionFailure::Refused,
    ensures
        next.0 == PayState::Paid || next.0 == PayState::Failed,
{
}

/// A payment that has ended stays as it is, whatever happens.
pub proof fn lemma_ended_payment_stays(
    wallet: AccountId,
    targets: Seq<AccountId>,
    state: PayState,
    event: PayEvent,
    next: (PayState, PayAction),
)
    requires
        state == PayState::Paid || state == PayState::Failed,
        pay_follows(wallet, targets, state, event, next),
    ensures
        next == (state, PayAction::Nothing),
{
}

/// The notes that are to be built, where that is what comes next.
pub open spec fn notes_in(action: PayAction) -> Option<Seq<FundingNote>> {
    match action {
        PayAction::Build(notes) => Some(notes@),
        _ => None,
    }
}

/// Every target is paid by exactly one private note of the funding amount, in the order of the
/// targets.
pub proof fn lemma_every_target_is_paid(
    wallet: AccountId,
    targets: Seq<AccountId>,
    state: PayState,
    event: PayEvent,
    next: (PayState, PayAction),
    i: int,
)
    requires
        pay_follows(wallet, targets, state, event, next),
        notes_in(next.1) is Some,
        0 <= i < targets.len(),
    ensures
        notes_in(next.1)->Some_0.len() == targets.len(),
        notes_in(next.1)->Some_0[i].sender == wallet,
        notes_in(next.1)->Some_0[i].target == targets[i],
        notes_in(next.1)->Some_0[i].amount == FUNDING_AMOUNT,
        notes_in(next.1)->Some_0[i].note_type == NoteType::Private,
        event matches PayEvent::FeeFaucet(faucet) && notes_in(next.1)->Some_0[i].faucet == faucet,
{
}

/// A payment goes on whenever what was asked for is done: for every number of targets it comes from
/// looking for the wallet to the fees, with an import in between where the client does not hold the
/// wallet, from the fees to one note for each target, from the notes to the submission, and from an
/// accepted submission to its end.
pub proof fn lemma_payment_goes_on(
    wallet: AccountId,
    targets: Seq<AccountId>,
    state: PayState,
    event: PayEvent,
    next: (PayState, PayAction),
)
    requires
        pay_follows(wallet, targets, state, event, next),
    ensures
        state is Looking && event == PayEvent::Nonce(true) ==> next.0 is ReadingFees
            && next.1 is ReadFees,
        state is Looking && event == PayEvent::Nonce(false) ==> next.0 is Importing
            && next.1 is Import,
        state is Importing && event is Done ==> next.0 is ReadingFees && next.1 is ReadFees,
        state is ReadingFees && event is FeeFaucet ==> next.0 is Building && next.1 is Build
            && next.1->Build_0@.len() == targets.len() && forall|i: int|
            0 <= i < targets.len() ==> (#[trigger] next.1->Build_0@[i]).sender == wallet
                && next.1->Build_0@[i].target == targets[i] && next.1->Build_0@[i].faucet
                == event->FeeFaucet_0 && next.1->Build_0@[i].amount == 10_000_000
                && next.1->Build_0@[i].note_type is Private,
        state is Building && event is Done ==> next.0 is Submitting && next.0->Submitting_0 is First
            && next.1 is Submit,
        state is Submitting && event is Submitted && event->Submitted_0 is Ok ==> next.0 is Paid
            && next.1 is Finish && next.1->Finish_0 == event->Submitted_0->Ok_0,
{
}

/// A payment fails on nothing but an error, or a submission that failed for good: one that the node
/// refused for the first time is made once more, after a pause of five seconds and a sync, and
/// remembers the words of the refusal.
pub proof fn lemma_payment_fails_on_errors_alone(
    wallet: AccountId,
    targets: Seq<AccountId>,
    state: PayState,
    event: PayEvent,
    next: (PayState, PayAction),
)
    requires
        pay_follows(wallet, targets, state, event, next),
    ensures
        next.0 is Failed && !(state is Failed) ==> event is Error || (event is Submitted
            && event->Submitted_0 is Err),
        state is Submitting && state->Submitting_0 is First && event is Submitted
            && event->Submitted_0 is Err ==> if event->Submitted_0->Err_0.0 is Refused {
            &&& next.0 is Pausing
            &&& next.0->Pausing_0 == event->Submitted_0->Err_0.1
            &&& next.1 == PayAction::Pause(5)
        } else {
            next.0 is Failed && next.1 is Fail
        },
        state is Pausing && event is Done ==> next.0 is Syncing && next.0->Syncing_0
            == state->Pausing_0 && next.1 is Sync,
        state is Syncing && event is Done ==> next.0 is Submitting
            && next.0->Submitting_0 is Again && next.0->Submitting_0->Again_0 == state->Syncing_0
            && next.1 is Submit,
        state is Submitting && state->Submitting_0 is Again && event is Submitted
            && event->Submitted_0 is Err ==> next.0 is Failed && next.1 is Fail,
        (state is Importing || state is ReadingFees || state is Building || state is Syncing)
            && event is Error ==> next.0 is Failed && next.1 is Fail,
        next.0 is Paid && !(state is Paid) ==> state is Submitting && event is Submitted
            && event->Submitted_0 is Ok,
{
}

/// A payment whose submission fails says which wallet failed to pay how many accounts, and where it
/// was a second attempt, in which words the first was refused.
pub proof fn lemma_failed_submission_is_explained(
    wallet: AccountId,
    targets: Seq<AccountId>,
    payment: Payment,
    failure: (SubmissionFailure, String),
    next: (PayState, PayAction),
)
    requires
        pay_follows(
            wallet,
            targets,
            PayState::Submitting(payment),
            PayEvent::Submitted(Err(failure)),
            next,
        ),
        payment is Again || !(failure.0 is Refused),
    ensures
        next.1 is Fail,
        next.1->Fail_0@.len() == if payment is Again {
            2int
        } else {
            1int
        },
        next.1->Fail_0@.last()@ == "funder "@ + wallet.text() + " failed to pay "@ + decimal(
            targets.len(),
        ) + " accounts"@,
        payment is Again ==> next.1->Fail_0@[0]@
            == "the retry was rejected too, after the first attempt failed with: "@
            + payment->Again_0@,
{
    let texts = next.1->Fail_0@;
    assert(strings(texts).len() == texts.len());
    assert(strings(texts)[texts.len() - 1] == texts.last()@);
    if payment is Again {
        assert(strings(texts)[0] == texts[0]@);
    }
}

/// A payment in which nothing goes wrong is made in one submission: from the wallet that the client
/// holds, through the fees, the notes and the request, to the transaction that the node accepted.
pub proof fn lemma_smooth_payment_is_paid(
    wallet: AccountId,
    targets: Seq<AccountId>,
    faucet: AccountId,
    id: TransactionId,
    fees: (PayState, PayAction),
    notes: (PayState, PayAction),
    request: (PayState, PayAction),
    end: (PayState, PayAction),
)
    requires
        pay_follows(wallet, targets, PayState::Looking, PayEvent::Nonce(true), fees),
        pay_follows(wallet, targets, fees.0, PayEvent::FeeFaucet(faucet), notes),
        pay_follows(wallet, targets, notes.0, PayEvent::Done, request),
        pay_follows(wallet, targets, request.0, PayEvent::Submitted(Ok(id)), end),
    ensures
        notes.1 is Build,
        notes.1->Build_0@.len() == targets.len(),
        request.1 is Submit,
        end.0 is Paid,
        end.1 == PayAction::Finish(id),
{
}

/// What is to be waited for: a payment that the node accepted is in flight, and no other event
/// changes what is.
pub open spec fn in_flight_after(before: Option<TransactionId>, action: PayAction) -> Option<
    TransactionId,
> {
    match action {
        PayAction::Finish(id) => Some(id),
        _ => before,
    }
}

/// A payment is in flight from the event on that says that the node accepted it, and whatever else
/// happens leaves what was in flight before.
pub proof fn lemma_accepted_payment_is_in_flight(
    wallet: AccountId,
    targets: Seq<AccountId>,
    state: PayState,
    event: PayEvent,
    next: (PayState, PayAction),
    before: Option<TransactionId>,
)
    requires
        pay_follows(wallet, targets, state, event, next),
    ensures
        state is Submitting && event is Submitted && event->Submitted_0 is Ok ==> in_flight_after(
            before,
            next.1,
        ) == Some(event->Submitted_0->Ok_0),
        !(state is Submitting && event is Submitted && event->Submitted_0 is Ok)
            ==> in_flight_after(before, next.1) == before,
{
}

/// The wallet that a process pays from, once it has one.
#[derive(Debug)]
pub struct FunderState {
    /// The claimed wallet.
    pub wallet: AccountId,
    /// The last payment that the node accepted, until a block carries it.
    pub in_flight: Option<TransactionId>,
}

impl FunderState {
    /// A process that has just claimed `wallet`.
    pub fn new(wallet: AccountId) -> (r: FunderState)
        ensures
            r.wallet == wallet,
            r.in_flight is None,
    {
        FunderState { wallet, in_flight: None }
    }

    /// What follows `event` in the payment of `targets` out of the wallet. A payment that the node
    /// accepts is in flight from then on; until one is, nothing changes.
    pub fn pay_step(&mut self, targets: &[AccountId], state: PayState, event: PayEvent) -> (next: (
        PayState,
        PayAction,
    ))
        requires
            old(self).wallet.is_valid(),
        ensures
            final(self).wallet == old(self).wallet,
            pay_follows(old(self).wallet, targets@, state, event, next),
            final(self).in_flight == in_flight_after(old(self).in_flight, next.1),
    {
        let next = pay_next(self.wallet, targets, state, event);
        if let PayAction::Finish(id) = &next.1 {
            self.in_flight = Some(*id);
        }
        next
    }

    /// The payment to wait for before the wallet is given up, if any. It is waited for once.
    pub fn flush(&mut self) -> (r: Option<TransactionId>)
        ensures
            r == old(self).in_flight,
            final(self).wallet == old(self).wallet,
            final(self).in_flight is None,
    {
        let transaction = self.in_flight;
        self.in_flight = None;
        transaction
    }
}

/// What a request for funds asks for.
#[derive(Clone, Copy, Debug, PartialEq, Eq, Structural)]
pub enum FundStep {
    /// Nothing: there is no account to pay.
    Nothing,
    /// A wallet is to be claimed first.
    Claim,
    /// The accounts are to be paid from the wallet that was claimed.
    Pay,
}

/// What a request to fund `accounts` accounts asks for.
pub open spec fn fund_asks(accounts: nat, claimed: bool) -> FundStep {
    if accounts == 0 {
        FundStep::Nothing
    } else if claimed {
        FundStep::Pay
    } else {
        FundStep::Claim
    }
}

/// Every request for at least one account comes to a payment, once a wallet is claimed and not
/// before; a request for none claims nothing and pays nothing.
pub proof fn lemma_accounts_are_paid_from_a_claimed_wallet(accounts: nat, claimed: bool)
    ensures
        fund_asks(accounts, claimed) is Pay <==> accounts > 0 && claimed,
        fund_asks(accounts, claimed) is Claim <==> accounts > 0 && !claimed,
        fund_asks(accounts, claimed) is Nothing <==> accounts == 0,
{
}

/// What a request to fund `accounts` accounts asks for.
pub fn fund_step(accounts: usize, claimed: bool) -> (r: FundStep)
    ensures
        r == fund_asks(accounts as nat, claimed),
{
    if accounts == 0 {
        FundStep::Nothing
    } else if claimed {
        FundStep::Pay
    } else {
        FundStep::Claim
    }
}

/// An event that nothing waits for changes nothing.
pub proof fn lemma_unawaited_event_changes_nothing(
    wallet: AccountId,
    targets: Seq<AccountId>,
    state: PayState,
    event: PayEvent,
    next: (PayState, PayAction),
)
    requires
        pay_follows(wallet, targets, state, event, next),
        match state {
            PayState::Looking => !(event is Nonce),
            PayState::Importing => !(event is Done || event is Error),
            PayState::ReadingFees => !(event is FeeFaucet || event is Error),
            PayState::Building => !(event is Done || event is Error),
            PayState::Submitting(_) => !(event is Submitted),
            PayState::Pausing(_) => !(event is Done),
            PayState::Syncing(_) => !(event is Done || event is Error),
            PayState::Paid => true,
            PayState::Failed => true,
        },
    ensures
        next.0 == state,
        next.1 is Nothing,
{
}

/// A payment that fails before or between its submissions says what failed: the import of the
/// wallet, or the sync before the second attempt.
pub proof fn lemma_failed_step_is_explained(
    wallet: AccountId,
    targets: Seq<AccountId>,
    state: PayState,
    next: (PayState, PayAction),
)
    requires
        pay_follows(wallet, targets, state, PayEvent::Error, next),
        state is Importing || state is Syncing || state is ReadingFees || state is Building,
    ensures
        next.1 is Fail,
        state is Importing ==> next.1->Fail_0@.len() == 1 && next.1->Fail_0@[0]@
            == "failed to import funder "@ + wallet.text(),
        state is Syncing ==> next.1->Fail_0@.len() == 2 && next.1->Fail_0@[0]@
            == "failed to sync the funder client before a retry"@ && next.1->Fail_0@[1]@
            == "funder "@ + wallet.text() + " failed to pay "@ + decimal(targets.len())
            + " accounts"@,
        state is ReadingFees || state is Building ==> next.1->Fail_0@.len() == 0,
{
    let texts = next.1->Fail_0@;
    assert(strings(texts).len() == texts.len());
    if texts.len() > 0 {
        assert(strings(texts)[0] == texts[0]@);
    }
    if texts.len() > 1 {
        assert(strings(texts)[1] == texts[1]@);
    }
}

} // verus!
