use miden_protocol::account::auth::{AuthScheme, AuthSecretKey};
use miden_protocol::account::{
    Account, AccountCode, AccountFile, AccountProcedureRoot, AccountStorage,
};
use miden_protocol::asset::AssetVault;
use miden_protocol::utils::serde::{Deserializable, Serializable};
use miden_tools::account::AccountId;
use miden_tools::fee_funding::{
    check_funder, fund_step, funder_files, funding_notes, is_safe_to_retry, load_funders,
    lock_file_name, lock_outcome, read_funder, Claim, ClaimStep, FundStep, FunderFile, FunderRead,
    FunderSource, FunderState, LockAttempt, NoteType, Payment, PaymentStep, SubmissionFailure,
    FUNDER_ACCOUNTS_ENV, FUNDING_AMOUNT,
};
use miden_tools::fee_funding::payment::{
    pay_next, payment_context, PayAction, PayEvent, PayState,
};
use miden_tools::source_files::{Component, SourcePath};

fn id(prefix: u64) -> AccountId {
    AccountId::new(prefix, 256).unwrap()
}

fn path(names: &[&str]) -> SourcePath {
    let components =
        names.iter().map(|name| Component::Normal(name.as_bytes().to_vec())).collect();
    SourcePath { components }
}

fn names(files: &[SourcePath]) -> Vec<String> {
    files
        .iter()
        .map(|file| match file.components.last() {
            Some(Component::Normal(name)) => String::from_utf8(name.clone()).unwrap(),
            other => panic!("{other:?}"),
        })
        .collect()
}

#[test]
fn account_files_of_a_directory_are_sorted() {
    let entries = vec![
        path(&["d", "b.mac"]),
        path(&["d", "notes.txt"]),
        path(&["d", "a.mac"]),
        path(&["d", ".mac"]),
    ];
    let files = funder_files(Some(&path(&["d"])), &FunderSource::Directory(entries));
    assert_eq!(names(&files), vec!["a.mac", "b.mac"]);
}

#[test]
fn processes_agree_on_the_order_of_the_wallets() {
    let one = vec![path(&["d", "b.mac"]), path(&["d", "a.mac"]), path(&["d", "c.mac"])];
    let two = vec![path(&["d", "c.mac"]), path(&["d", "b.mac"]), path(&["d", "a.mac"])];
    let directory = path(&["d"]);
    assert_eq!(
        names(&funder_files(Some(&directory), &FunderSource::Directory(one))),
        names(&funder_files(Some(&directory), &FunderSource::Directory(two)))
    );
}

#[test]
fn a_path_without_account_files_means_no_funders() {
    assert_eq!(names(&funder_files(Some(&path(&["a.mac"])), &FunderSource::File)), vec!["a.mac"]);
    assert!(funder_files(Some(&path(&["a.txt"])), &FunderSource::File).is_empty());
    assert!(funder_files(Some(&path(&["a.mac"])), &FunderSource::Nothing).is_empty());
    assert!(funder_files(None, &FunderSource::File).is_empty());
    assert!(funder_files(Some(&path(&[])), &FunderSource::File).is_empty());
    assert!(funder_files(Some(&path(&["d"])), &FunderSource::Directory(vec![])).is_empty());
}

#[test]
fn funders_are_public_and_can_sign() {
    assert_eq!(check_funder("a.mac", &FunderRead::Account(id(0x11), 1)), Ok(id(0x11)));
    assert_eq!(
        check_funder("a.mac", &FunderRead::Account(id(0x01), 1)).unwrap_err(),
        "funder 0x000000000000000100000000000001 in a.mac must be public to be shared"
    );
    assert_eq!(
        check_funder("a.mac", &FunderRead::Account(id(0x11), 0)).unwrap_err(),
        "funder 0x000000000000001100000000000001 in a.mac carries no secret key to sign with"
    );
    assert_eq!(
        check_funder("a.mac", &FunderRead::Unreadable).unwrap_err(),
        "failed to read funder a.mac"
    );
    assert_eq!(
        check_funder("a.mac", &FunderRead::Malformed("too short".to_string())).unwrap_err(),
        "failed to deserialize a.mac: too short"
    );
}

#[test]
fn every_wallet_is_tried_before_waiting() {
    let mut claim = Claim::new(3, 7).unwrap();
    let mut tried = Vec::new();
    while let ClaimStep::Try(place) = claim.step() {
        tried.push(place);
        claim.found_busy();
    }
    assert_eq!(tried, vec![1, 2, 0]);
    assert_eq!(claim.step(), ClaimStep::Wait(1));
}

#[test]
fn without_wallets_nothing_is_claimed() {
    assert!(Claim::new(0, 7).is_none());
}

#[test]
fn the_largest_start_is_accepted() {
    let claim = Claim::new(16, u32::MAX).unwrap();
    assert_eq!(claim.step(), ClaimStep::Try(15));
}

#[test]
fn only_refused_payments_are_sent_again() {
    assert!(is_safe_to_retry(SubmissionFailure::Refused));
    assert!(!is_safe_to_retry(SubmissionFailure::ApplyAfterSubmit));
    assert!(!is_safe_to_retry(SubmissionFailure::OutcomeUnknown));

    assert!(matches!(Payment::First.submitted(Ok([1, 2, 3, 4])), PaymentStep::Accepted([1, 2, 3, 4])));
    let unknown = Err((SubmissionFailure::OutcomeUnknown, "x".to_string()));
    assert!(matches!(Payment::First.submitted(unknown), PaymentStep::Failed(None)));
    let refused = || Err((SubmissionFailure::Refused, "stale".to_string()));
    match Payment::First.submitted(refused()) {
        PaymentStep::Retry(words) => match Payment::Again(words).submitted(refused()) {
            PaymentStep::Failed(Some(text)) => assert_eq!(
                text,
                "the retry was rejected too, after the first attempt failed with: stale"
            ),
            other => panic!("{other:?}"),
        },
        other => panic!("{other:?}"),
    }
    let again = Payment::Again("x".to_string());
    assert!(matches!(again.submitted(Ok([5; 4])), PaymentStep::Accepted([5, 5, 5, 5])));
}

#[test]
fn every_target_gets_one_note() {
    let notes = funding_notes(id(0x11), id(0x21), &[id(0x31), id(0x41)]);
    assert_eq!(notes.len(), 2);
    assert_eq!(notes[0].target, id(0x31));
    assert_eq!(notes[1].target, id(0x41));
    for note in notes {
        assert_eq!(note.sender, id(0x11));
        assert_eq!(note.faucet, id(0x21));
        assert_eq!(note.amount, 10_000_000);
        assert_eq!(note.note_type, NoteType::Private);
    }
    assert_eq!(FUNDING_AMOUNT, 10_000_000);
    assert_eq!(FUNDER_ACCOUNTS_ENV, "MIDEN_FUNDER_ACCOUNTS_DIR");
}

#[test]
fn failed_payments_are_explained() {
    assert_eq!(
        payment_context(id(0x11), 12),
        "funder 0x000000000000001100000000000001 failed to pay 12 accounts"
    );
}

fn submit(state: &mut FunderState, transaction: [u64; 4]) {
    let submitting = PayState::Submitting(Payment::First);
    let (paid, action) =
        state.pay_step(&[id(0x31)], submitting, PayEvent::Submitted(Ok(transaction)));
    assert!(matches!(paid, PayState::Paid));
    assert!(matches!(action, PayAction::Finish(accepted) if accepted == transaction));
}

#[test]
fn a_payment_is_waited_for_once() {
    let mut state = FunderState::new(id(0x11));
    assert_eq!(state.flush(), None);
    submit(&mut state, [1, 2, 3, 4]);
    submit(&mut state, [5, 6, 7, 8]);
    assert_eq!(state.flush(), Some([5, 6, 7, 8]));
    assert_eq!(state.flush(), None);
    assert_eq!(state.wallet, id(0x11));
}

#[test]
fn a_failed_payment_leaves_the_last_one_in_flight() {
    let mut state = FunderState::new(id(0x11));
    submit(&mut state, [1, 2, 3, 4]);
    let unknown = Err((SubmissionFailure::OutcomeUnknown, "x".to_string()));
    let submitting = PayState::Submitting(Payment::First);
    let (failed, _) = state.pay_step(&[id(0x31)], submitting, PayEvent::Submitted(unknown));
    assert!(matches!(failed, PayState::Failed));
    assert_eq!(state.in_flight, Some([1, 2, 3, 4]));
}

/// The bytes of an account file with the given account and number of keys.
fn account_file(prefix: u64, keys: usize) -> Vec<u8> {
    let felt = |value: u64| miden_protocol::Felt::new(value).unwrap();
    let id = miden_protocol::account::AccountId::try_from_elements(felt(256), felt(prefix)).unwrap();
    let library = miden_protocol::CoreLibrary::default();
    let mast = library.mast_forest().clone();
    let procedures = mast
        .procedure_digests()
        .take(2)
        .map(|digest| AccountProcedureRoot::read_from_bytes(&digest.to_bytes()).unwrap())
        .collect();
    let code = AccountCode::from_parts(mast, procedures);
    let storage = AccountStorage::new(vec![]).unwrap();
    let account = Account::new(id, AssetVault::default(), storage, code, felt(1), None).unwrap();
    let mut key = vec![AuthScheme::EcdsaK256Keccak.as_u8()];
    key.extend([1; 32]);
    let keys = (0..keys).map(|_| AuthSecretKey::read_from_bytes(&key).unwrap()).collect();
    AccountFile::new(account, keys).to_bytes()
}

#[test]
fn account_files_are_read() {
    assert_eq!(read_funder("a.mac", Some(&account_file(0x11, 1))), Ok(id(0x11)));
    assert_eq!(
        read_funder("a.mac", Some(&account_file(0x11, 0))).unwrap_err(),
        "funder 0x000000000000001100000000000001 in a.mac carries no secret key to sign with"
    );
    assert_eq!(
        read_funder("a.mac", Some(&account_file(0x01, 1))).unwrap_err(),
        "funder 0x000000000000000100000000000001 in a.mac must be public to be shared"
    );
    assert_eq!(read_funder("a.mac", None).unwrap_err(), "failed to read funder a.mac");
    let why = AccountFile::read_from_bytes(b"nope").unwrap_err();
    assert_eq!(
        read_funder("a.mac", Some(b"nope")).unwrap_err(),
        format!("failed to deserialize a.mac: {why}")
    );
}

#[test]
fn one_wallet_is_loaded_for_each_file() {
    let file = |path: &str, bytes: Option<Vec<u8>>| FunderFile { path: path.to_string(), bytes };
    let good = |path: &str, prefix: u64| file(path, Some(account_file(prefix, 2)));
    assert_eq!(load_funders(&[]), Ok(vec![]));
    let files = [good("a.mac", 0x31), good("b.mac", 0x11)];
    assert_eq!(load_funders(&files), Ok(vec![id(0x31), id(0x11)]));
    let files = [good("a.mac", 0x31), file("b.mac", None), good("c.mac", 0x01)];
    assert_eq!(load_funders(&files), Err("failed to read funder b.mac".to_string()));
}

#[test]
fn a_wallet_is_claimed_for_the_first_payment() {
    assert_eq!(fund_step(0, false), FundStep::Nothing);
    assert_eq!(fund_step(0, true), FundStep::Nothing);
    assert_eq!(fund_step(1, false), FundStep::Claim);
    assert_eq!(fund_step(2, true), FundStep::Pay);
}

#[test]
fn locks_are_taken_on_files_of_their_own() {
    assert_eq!(
        lock_file_name(id(0x11)),
        "miden-account-0x000000000000001100000000000001.lock"
    );
    assert_ne!(lock_file_name(id(0x11)), lock_file_name(id(0x21)));
    assert_eq!(lock_outcome(id(0x11), LockAttempt::Taken), Ok(true));
    assert_eq!(lock_outcome(id(0x11), LockAttempt::WouldBlock), Ok(false));
    assert_eq!(
        lock_outcome(id(0x11), LockAttempt::Failed),
        Err("failed to lock account 0x000000000000001100000000000001".to_string())
    );
}

fn next(state: PayState, event: PayEvent) -> (PayState, PayAction) {
    pay_next(id(0x11), &[id(0x31)], state, event)
}

#[test]
fn a_payment_runs_its_course() {
    let (state, action) = next(PayState::Looking, PayEvent::Nonce(false));
    assert!(matches!(action, PayAction::Import));
    let (state, action) = next(state, PayEvent::Done);
    assert!(matches!(action, PayAction::ReadFees));
    let (state, action) = next(state, PayEvent::FeeFaucet(id(0x21)));
    match action {
        PayAction::Build(notes) => assert_eq!(notes, funding_notes(id(0x11), id(0x21), &[id(0x31)])),
        other => panic!("{other:?}"),
    }
    let (state, action) = next(state, PayEvent::Done);
    assert!(matches!(action, PayAction::Submit));
    let refused = Err((SubmissionFailure::Refused, "stale".to_string()));
    let (state, action) = next(state, PayEvent::Submitted(refused));
    assert!(matches!(action, PayAction::Pause(5)));
    let (state, action) = next(state, PayEvent::Done);
    assert!(matches!(action, PayAction::Sync));
    let (state, action) = next(state, PayEvent::Done);
    assert!(matches!(action, PayAction::Submit));
    let (state, action) = next(state, PayEvent::Submitted(Ok([1, 2, 3, 4])));
    assert!(matches!((state, action), (PayState::Paid, PayAction::Finish([1, 2, 3, 4]))));
}

fn failure(state: PayState, event: PayEvent) -> Vec<String> {
    match next(state, event) {
        (PayState::Failed, PayAction::Fail(texts)) => texts,
        other => panic!("{other:?}"),
    }
}

#[test]
fn a_payment_fails_with_its_context() {
    let context = "funder 0x000000000000001100000000000001 failed to pay 1 accounts";
    assert_eq!(
        failure(PayState::Importing, PayEvent::Error),
        vec!["failed to import funder 0x000000000000001100000000000001"]
    );
    assert!(failure(PayState::ReadingFees, PayEvent::Error).is_empty());
    assert!(failure(PayState::Building, PayEvent::Error).is_empty());
    let unknown = Err((SubmissionFailure::OutcomeUnknown, "x".to_string()));
    let first = PayState::Submitting(Payment::First);
    assert_eq!(failure(first, PayEvent::Submitted(unknown)), vec![context]);
    let refused = Err((SubmissionFailure::Refused, "y".to_string()));
    let again = PayState::Submitting(Payment::Again("x".to_string()));
    assert_eq!(
        failure(again, PayEvent::Submitted(refused)),
        vec!["the retry was rejected too, after the first attempt failed with: x", context]
    );
    assert_eq!(
        failure(PayState::Syncing("x".to_string()), PayEvent::Error),
        vec!["failed to sync the funder client before a retry", context]
    );
    let known = next(PayState::Looking, PayEvent::Nonce(true));
    assert!(matches!(known, (PayState::ReadingFees, PayAction::ReadFees)));
    let odd = next(PayState::Paid, PayEvent::Done);
    assert!(matches!(odd, (PayState::Paid, PayAction::Nothing)));
}
