use miden_tools::account::AccountId;
use miden_tools::call::code::{
    check_stack, encode_raw_args, parse_digest, raw_output_notice, resolve_from_digest,
    resolve_from_package, signature_notice, CallCode, TypedArgs,
};
use miden_tools::call::exports::{
    nameless_export_error, resolve_procedure_export, CallConv, FunctionType, PackageExport, ProcedureExport,
};
use miden_tools::call::execution::{
    ExecuteAction, ExecuteError, ExecuteEvent, ExecuteStep, Execution,
};
use miden_tools::call::output::{
    call_result, failed_delta_report, is_empty_transaction, remote_call_footer, ResultOutput,
};
use miden_tools::call::script::tx_script_text;
use miden_tools::call::target::{
    foreign_account_error, foreign_inputs_error, pick_local_executor, remote_target,
    AccountStatus, CallTarget, ForeignRefusal, TargetFact, TargetSearch,
};
use miden_tools::call::run::{CallAction, CallEvent, CallRun, TransactionFailure};
use miden_tools::call::command::is_synced;
use miden_tools::call::CallCmd;
use miden_tools::felt::Felt;

fn signature(abi: CallConv, params: &[&str], results: &[&str]) -> Option<FunctionType> {
    Some(FunctionType {
        abi,
        params: params.iter().map(|ty| ty.to_string()).collect(),
        results: results.iter().map(|ty| ty.to_string()).collect(),
    })
}

fn exports(exports: Vec<(&str, Option<FunctionType>)>) -> Vec<PackageExport> {
    let mut list = Vec::new();
    for (path, signature) in exports {
        list.push(PackageExport::Procedure(
            ProcedureExport::new(path, [0; 4], signature).expect("path should name something"),
        ));
    }
    list
}

fn interface_form() -> (&'static str, Option<FunctionType>) {
    (
        "::\"miden:counter/counter@0.1.0\"::\"increment-by\"",
        signature(CallConv::ComponentModel, &["felt"], &["felt"]),
    )
}

fn lowered_form() -> (&'static str, Option<FunctionType>) {
    (
        "::\"miden:counter/counter@0.1.0\"::cc::\"miden:counter/counter@0.1.0#increment-by\"",
        signature(CallConv::C, &["felt"], &["i32"]),
    )
}

#[test]
fn the_interface_form_wins_over_the_lowered_one() {
    for list in [vec![interface_form(), lowered_form()], vec![lowered_form(), interface_form()]] {
        let manifest = exports(list);

        let export = resolve_procedure_export(&manifest, "increment-by").unwrap();
        assert_eq!(export.signature, interface_form().1);
    }
}

#[test]
fn a_lowered_name_is_not_reachable_by_the_bare_procedure_name() {
    let manifest = exports(vec![lowered_form()]);

    let err = resolve_procedure_export(&manifest, "increment-by").unwrap_err();
    assert_eq!(
        err.to_string(),
        "invalid argument: Procedure 'increment-by' not found. Available:\n  \
         ::\"miden:counter/counter@0.1.0\"::cc::\"miden:counter/counter@0.1.0#increment-by\""
    );
}

#[test]
fn an_underscore_query_finds_a_kebab_export() {
    let manifest = exports(vec![interface_form(), lowered_form()]);

    let export = resolve_procedure_export(&manifest, "increment_by").unwrap();
    assert_eq!(export.signature, interface_form().1);
}

#[test]
fn a_hand_written_masm_export_does_not_shadow_the_component_model_one() {
    let masm = || ("::mix::increment_by", signature(CallConv::Fast, &[], &["u32"]));
    for list in [vec![interface_form(), masm()], vec![masm(), interface_form()]] {
        let manifest = exports(list);

        let export = resolve_procedure_export(&manifest, "increment_by").unwrap();
        assert_eq!(export.signature, interface_form().1);
    }
}

#[test]
fn an_unknown_procedure_lists_the_whole_export_surface() {
    let manifest = exports(vec![interface_form(), lowered_form()]);

    let err = resolve_procedure_export(&manifest, "no-such-proc").unwrap_err();
    assert_eq!(
        err.to_string(),
        "invalid argument: Procedure 'no-such-proc' not found. Available:\n  \
         ::\"miden:counter/counter@0.1.0\"::\"increment-by\"\n  \
         ::\"miden:counter/counter@0.1.0\"::cc::\"miden:counter/counter@0.1.0#increment-by\""
    );
}

#[test]
fn an_export_without_a_signature_is_still_resolved() {
    let manifest = exports(vec![("::mix::\"increment-by\"", None)]);

    let export = resolve_procedure_export(&manifest, "increment-by").unwrap();
    assert_eq!(export.signature, None);
}

/// The Goldilocks field modulus, `2^64 - 2^32 + 1`. The first value with no felt of its own.
const FIELD_MODULUS: u64 = 18_446_744_069_414_584_321;

#[test]
fn raw_arguments_are_read_as_decimal_felts() {
    let args = ["0", "10", (FIELD_MODULUS - 1).to_string().as_str()].map(String::from);

    let encoded = encode_raw_args(&args).unwrap();

    let expected = [0, 10, FIELD_MODULUS - 1].map(|v| Felt::new(v).unwrap());
    assert_eq!(encoded, expected);
}

#[test]
fn a_raw_argument_at_the_field_modulus_is_rejected() {
    let err = encode_raw_args(&[FIELD_MODULUS.to_string()]).unwrap_err();

    assert_eq!(
        err.to_string(),
        format!("invalid argument: Argument '{FIELD_MODULUS}' is too large for a felt.")
    );
}

#[test]
fn a_raw_hex_argument_is_rejected() {
    let err = encode_raw_args(&["0xff".to_string()]).unwrap_err();

    assert_eq!(err.to_string(), "invalid argument: Invalid argument '0xff'. Expected a felt.");
}

#[test]
fn the_component_model_export_wins_over_an_untyped_one_written_before_it() {
    let manifest = exports(vec![("::mix::\"increment-by\"", None), interface_form()]);

    let export = resolve_procedure_export(&manifest, "increment-by").unwrap();
    assert_eq!(export.signature, interface_form().1);
}

#[test]
fn an_export_is_named_by_the_end_of_its_path() {
    let export = ProcedureExport::new("::a::b_c", [1, 2, 3, 4], None).unwrap();
    assert_eq!(export.name, "b_c");
    assert_eq!(export.path, "::a::b_c");
    assert_eq!(export.digest, [1, 2, 3, 4]);
    assert!(ProcedureExport::new("", [0; 4], None).is_none());
    assert!(ProcedureExport::new("::", [0; 4], None).is_none());
}

#[test]
fn other_exports_are_passed_over() {
    let mut manifest = vec![PackageExport::Constant, PackageExport::Type];
    let err = resolve_procedure_export(&manifest, "x").unwrap_err();
    assert_eq!(
        err.to_string(),
        "invalid argument: Procedure 'x' not found. Available:\n"
    );
    manifest.extend(exports(vec![("::a::x", None), ("::b::x", None)]));
    assert_eq!(resolve_procedure_export(&manifest, "x").unwrap().path, "::a::x");
}

#[test]
fn the_first_bad_argument_is_named() {
    let args = ["1", "x", "y"].map(String::from);
    let err = encode_raw_args(&args).unwrap_err();
    assert_eq!(err.to_string(), "invalid argument: Invalid argument 'x'. Expected a felt.");
}

#[test]
fn digests_are_read_and_written() {
    let text = "0x01000000000000000200000000000000030000000000000004000000000000ff";
    let digest = parse_digest(text).unwrap();
    assert_eq!(digest, [1, 2, 3, 0xff00_0000_0000_0004]);
    let code = resolve_from_digest(digest, &["7".to_string()]).unwrap();
    assert_eq!(code.digest, digest);
    assert_eq!(code.args, vec![Felt::from(7)]);
    assert_eq!(code.result_felts, None);
    assert_eq!(
        parse_digest("get_count").unwrap_err().to_string(),
        "invalid argument: 'get_count' is not a hex digest. Pass `--package <FILE>.masp` to call \
         a procedure by name, or give its hex digest to call without a package."
    );
    let not_felts = format!("0x{}", "f".repeat(64));
    assert!(parse_digest(&not_felts).is_err());
    assert_eq!(
        raw_output_notice(),
        "No `--package` provided; output will be raw felts. Pass `--package <FILE>.masp` for \
         typed output.\n"
    );
}

#[test]
fn a_digest_is_called_as_it_was_given() {
    let text = "0x00000000000000ff01020304050607080000000000000000100000000000000a";
    let script = tx_script_text(parse_digest(text).unwrap(), &[]);
    assert!(script.contains(&format!("    call.{text}\n")));
}

#[test]
fn scripts_push_the_first_argument_last() {
    let args = [10, 20].map(Felt::from);
    assert_eq!(
        tx_script_text([1, 2, 3, 4], &args),
        "use miden::core::sys\n\n@transaction_script\npub proc main\n    push.20\n    push.10\n    \
         call.0x0100000000000000020000000000000003000000000000000400000000000000\n    \
         exec.sys::truncate_stack\nend\n"
    );
}

#[test]
fn calls_from_packages_follow_their_types() {
    let list = exports(vec![interface_form(), lowered_form(), ("::mix::raw", None)]);
    let typed = resolve_procedure_export(&list, "increment_by").unwrap();
    let notice = signature_notice(&typed.name, "increment_by", Some("increment-by(felt) -> felt"));
    assert_eq!(notice, "Signature: increment-by(felt) -> felt\n\n");
    let encoded = TypedArgs { args: vec![Felt::from(3)], result_felts: Some(1) };
    let code = resolve_from_package(typed.digest, &[], Some(encoded)).unwrap();
    assert_eq!(code.args, vec![Felt::from(3)]);
    assert_eq!(code.result_felts, Some(1));

    let raw = resolve_procedure_export(&list, "raw").unwrap();
    assert_eq!(
        signature_notice(&raw.name, "raw", None),
        "Signature: raw(...) [no type info]\n\nWarning: the package does not describe the types \
         of 'raw', so each argument is passed as one field element, the argument count is not \
         checked, and the result is printed as a stack dump.\n"
    );
    let code = resolve_from_package(raw.digest, &["5".to_string()], None).unwrap();
    assert_eq!(code.args, vec![Felt::from(5)]);
    assert_eq!(code.result_felts, None);
    assert!(resolve_from_package(raw.digest, &["0x5".to_string()], None).is_err());
}

fn code(args: usize, result_felts: Option<usize>) -> CallCode {
    CallCode { digest: [0; 4], args: vec![Felt::from(1); args], result_felts }
}

#[test]
fn calls_fit_the_stack() {
    assert!(check_stack("f", code(16, Some(16))).is_ok());
    assert!(check_stack("f", code(0, None)).is_ok());
    assert_eq!(
        check_stack("f", code(17, None)).unwrap_err().to_string(),
        "invalid argument: A procedure takes at most 16 input values; got 17."
    );
    assert_eq!(
        check_stack("f", code(1, Some(17))).unwrap_err().to_string(),
        "invalid argument: Procedure 'f' returns 17 values; only up to 16 can be read from the \
         output stack."
    );
}

fn id(n: u64) -> AccountId {
    AccountId::new(1 + 16 * n, 256).unwrap()
}

fn learn(state: TargetSearch, fact: TargetFact) -> (TargetSearch, String) {
    state.learn(fact).unwrap()
}

#[test]
fn locked_accounts_are_not_called() {
    let search = TargetSearch::Account(id(1));
    assert_eq!(
        learn(search, TargetFact::Status(Some(AccountStatus::Usable))),
        (TargetSearch::Found(CallTarget::Local(id(1))), String::new())
    );
    assert_eq!(
        search.learn(TargetFact::Status(Some(AccountStatus::Locked))).unwrap_err().to_string(),
        "invalid argument: Account 0x000000000000001100000000000001 is locked: its local state \
         doesn't match the network's, so the call can't run on it."
    );
}

#[test]
fn untracked_accounts_are_called_from_a_local_one() {
    let search = learn(TargetSearch::Account(id(0)), TargetFact::Status(None)).0;
    assert_eq!(search, TargetSearch::Foreign(id(0)));
    assert!(search.learn(TargetFact::Foreign(Some(ForeignRefusal::NotPublic))).is_err());
    let search = learn(search, TargetFact::Foreign(None)).0;
    assert_eq!(search, TargetSearch::Default(id(0)));
    let without = learn(search, TargetFact::Default(None)).0;
    assert_eq!(without, TargetSearch::AnyLocal(id(0)));
    let search = learn(search, TargetFact::Default(Some(id(1)))).0;
    assert_eq!(search, TargetSearch::DefaultStatus(id(0), id(1)));
    let (found, notice) = learn(search, TargetFact::Status(Some(AccountStatus::Usable)));
    let remote = CallTarget::Remote { target_id: id(0), executor_id: id(1) };
    assert_eq!(found, TargetSearch::Found(remote));
    assert_eq!(notice, remote_target(id(0), id(1)).0);
    for status in [None, Some(AccountStatus::Locked)] {
        assert_eq!(learn(search, TargetFact::Status(status)).0, without);
    }
    let accounts = vec![(id(2), AccountStatus::Locked), (id(3), AccountStatus::Usable)];
    let (found, _) = learn(without, TargetFact::Accounts(accounts));
    let remote = CallTarget::Remote { target_id: id(0), executor_id: id(3) };
    assert_eq!(found, TargetSearch::Found(remote));
    assert!(without.learn(TargetFact::Accounts(vec![])).is_err());
    assert_eq!(learn(found, TargetFact::Status(None)).0, found);
}

#[test]
fn local_calls_come_to_a_transaction() {
    let (run, action) = CallRun::start(CallTarget::Local(id(1)));
    assert!(matches!(action, CallAction::ExecuteProgram(on, None) if on == id(1)));
    let (run, action) = run.next(CallEvent::Read(Some(Some("7".to_string()))));
    assert!(matches!(action, CallAction::ShowAndBuild(ResultOutput::Line(l)) if l == "Result: 7\n"));
    let (run, action) = run.next(CallEvent::Built);
    assert!(matches!(action, CallAction::ExecuteTransaction(on) if on == id(1)));
    let (ended, action) = run.next(CallEvent::Executed(None));
    assert_eq!(ended, CallRun::Ended);
    assert!(matches!(action, CallAction::ShowTransaction));
    let failure = TransactionFailure {
        failed_assertion: None,
        error: "x".to_string(),
        causes: vec!["y".to_string()],
    };
    let (ended, action) = run.next(CallEvent::Executed(Some(failure)));
    assert_eq!(ended, CallRun::Ended);
    match action {
        CallAction::Report(text) => {
            assert_eq!(text, "\n(Could not compute state delta: x)\n  caused by: y\n");
        },
        other => panic!("{other:?}"),
    }
    assert!(matches!(ended.next(CallEvent::Built), (CallRun::Ended, CallAction::Nothing)));
}

#[test]
fn remote_calls_only_read() {
    let target = CallTarget::Remote { target_id: id(0), executor_id: id(1) };
    let (run, action) = CallRun::start(target);
    assert!(
        matches!(action, CallAction::ExecuteProgram(on, Some(read)) if on == id(1) && read == id(0))
    );
    let (ended, action) = run.next(CallEvent::Read(None));
    assert_eq!(ended, CallRun::Ended);
    assert!(matches!(action, CallAction::ShowAndEnd(ResultOutput::Stack, _)));
}

#[test]
fn calls_need_a_sync() {
    assert!(!is_synced(0));
    assert!(is_synced(1));
}

#[test]
fn unreadable_accounts_are_explained() {
    assert_eq!(
        foreign_account_error(id(0), ForeignRefusal::NotPublic).to_string(),
        "invalid argument: Account 0x000000000000000100000000000001 isn't tracked locally and its \
         state isn't public, so it can't be read from the network."
    );
    assert_eq!(
        foreign_account_error(id(0), ForeignRefusal::Other("why".to_string())).to_string(),
        "invalid argument: Account 0x000000000000000100000000000001 can't be read from the \
         network: why"
    );
    assert_eq!(
        foreign_inputs_error(15, 16).to_string(),
        "invalid argument: A call on an account read from the network takes at most 15 input \
         felts; got 16"
    );
}

#[test]
fn the_first_usable_account_runs_foreign_calls() {
    let accounts = [
        (id(1), AccountStatus::Locked),
        (id(2), AccountStatus::Usable),
        (id(3), AccountStatus::Usable),
    ];
    assert_eq!(pick_local_executor(&accounts).unwrap(), id(2));
    assert_eq!(
        pick_local_executor(&accounts[..1]).unwrap_err().to_string(),
        "invalid argument: Calling an account that isn't tracked locally needs one of your own \
         accounts to run the call from, and none is usable. Create one with `miden-client \
         new-wallet` and re-run."
    );
}

#[test]
fn foreign_calls_are_announced() {
    let (notice, target) = remote_target(id(0), id(1));
    assert_eq!(
        notice,
        "Account 0x000000000000000100000000000001 isn't tracked locally; reading its state from \
         the network and running the call from your account 0x000000000000001100000000000001.\n"
    );
    assert_eq!(target, CallTarget::Remote { target_id: id(0), executor_id: id(1) });
    assert_eq!(
        remote_call_footer(),
        "\nA call on an account read from the network can only read it; no state delta.\n"
    );
}

#[test]
fn results_are_shown_by_type() {
    match call_result(Some(Some("7".to_string()))) {
        ResultOutput::Line(line) => assert_eq!(line, "Result: 7\n"),
        other => panic!("{other:?}"),
    }
    assert!(matches!(call_result(Some(None)), ResultOutput::Nothing));
    assert!(matches!(call_result(None), ResultOutput::Stack));
}

#[test]
fn empty_transactions_are_recognised() {
    let message = "executed transaction neither changed the account state, nor consumed any notes";
    let code = miden_protocol::assembly::mast::error_code_from_msg(message).as_canonical_u64();
    assert!(is_empty_transaction(Felt::new(code)));
    assert!(!is_empty_transaction(Some(Felt::from(1))));
    assert!(!is_empty_transaction(None));
}

#[test]
fn failed_deltas_are_reported() {
    assert_eq!(
        failed_delta_report(true, "x", &[]),
        "\nThe transaction was rejected because it had no effects:\n\nNo notes were consumed.\n\n\
         Account Storage was not changed.\nAccount Vault was not changed.\nAccount nonce was not \
         changed.\n"
    );
    assert_eq!(
        failed_delta_report(false, "x", &["y".to_string(), "z".to_string()]),
        "\n(Could not compute state delta: x)\n  caused by: y\n  caused by: z\n"
    );
}

fn command(args: &[&str], package: bool, inputs: bool) -> CallCmd {
    CallCmd {
        target: "0x1".to_string(),
        args: args.iter().map(|arg| arg.to_string()).collect(),
        package: package.then_some("p.masp".into()),
        inputs_path: inputs.then_some("i.toml".into()),
    }
}

fn step(command: &CallCmd, state: Execution, event: ExecuteEvent) -> (String, Execution, ExecuteAction) {
    let ExecuteStep { shown, next } = command.step(state, event);
    let (state, action) = next.unwrap();
    (shown, state, action)
}

fn rejection(command: &CallCmd, state: Execution, event: ExecuteEvent) -> (String, String) {
    let ExecuteStep { shown, next } = command.step(state, event);
    match next {
        Err(ExecuteError::Rejected(error)) => (shown, error.to_string()),
        other => panic!("{other:?}"),
    }
}

/// Brings a command to the point where the account is found.
fn parsed(command: &CallCmd, procedure: &str) -> Execution {
    let (state, action) = command.start();
    assert!(matches!(action, ExecuteAction::ReadSyncHeight));
    let (_, state, action) = step(command, state, ExecuteEvent::Synced(7));
    assert!(matches!(action, ExecuteAction::LoadConfig));
    let (_, state, action) = step(command, state, ExecuteEvent::Configured);
    assert!(matches!(action, ExecuteAction::SplitTarget));
    let split = ExecuteEvent::Split("0x1".to_string(), Some(procedure.to_string()));
    let (_, state, action) = step(command, state, split);
    assert!(matches!(action, ExecuteAction::ParseAccount(text) if text == "0x1"));
    state
}

#[test]
fn a_client_that_was_never_synced_makes_no_call() {
    let command = command(&[], false, false);
    let ExecuteStep { shown, next } = command.step(command.start().0, ExecuteEvent::Synced(0));
    assert_eq!(shown, "");
    assert!(matches!(next, Err(ExecuteError::NotSynced)));
}

#[test]
fn a_target_needs_a_procedure() {
    let command = command(&[], false, false);
    assert_eq!(
        command.no_procedure_error().to_string(),
        "invalid argument: Expected `<ACCOUNT_ID>:<PROCEDURE>`, got '0x1'."
    );
    let split = ExecuteEvent::Split("0x1".to_string(), None);
    assert_eq!(
        rejection(&command, Execution::Splitting, split).1,
        command.no_procedure_error().to_string()
    );
}

#[test]
fn a_call_by_digest_goes_through_its_steps() {
    let command = command(&["10", "20"], false, true);
    let digest = "0x0100000000000000020000000000000003000000000000000400000000000000";
    let state = parsed(&command, digest);
    let (shown, state, action) = step(&command, state, ExecuteEvent::Parsed(id(1)));
    assert_eq!(shown, raw_output_notice());
    assert!(matches!(action, ExecuteAction::LoadAdvice));
    let (_, state, action) = step(&command, state, ExecuteEvent::Advised);
    assert!(matches!(action, ExecuteAction::Learn(TargetSearch::Account(on)) if on == id(1)));
    let usable = TargetFact::Status(Some(AccountStatus::Usable));
    let (_, state, action) = step(&command, state, ExecuteEvent::Learned(usable));
    let script = tx_script_text([1, 2, 3, 4], &[10, 20].map(Felt::from));
    assert!(matches!(action, ExecuteAction::CompileScript(text) if text == script));
    let (_, state, action) = step(&command, state, ExecuteEvent::Scripted);
    assert!(matches!(
        action,
        ExecuteAction::Run(CallAction::ExecuteProgram(on, None)) if on == id(1)
    ));
    let (_, state, action) = step(&command, state, ExecuteEvent::Ran(CallEvent::Read(None)));
    assert!(matches!(
        action,
        ExecuteAction::Run(CallAction::ShowAndBuild(ResultOutput::Stack))
    ));
    let (_, state, action) = step(&command, state, ExecuteEvent::Linked);
    assert!(matches!(state, Execution::Running(CallRun::Building(on)) if on == id(1)));
    assert!(matches!(action, ExecuteAction::Nothing));
}

#[test]
fn a_call_by_digest_fails_in_order() {
    let digest = format!("0x{}", "0".repeat(64));
    let bad = command(&["x"], false, false);
    let (shown, error) = rejection(&bad, parsed(&bad, "f"), ExecuteEvent::Parsed(id(1)));
    assert_eq!(shown, "");
    assert_eq!(error, parse_digest("f").unwrap_err().to_string());
    let (shown, error) = rejection(&bad, parsed(&bad, &digest), ExecuteEvent::Parsed(id(1)));
    assert_eq!(shown, raw_output_notice());
    assert_eq!(error, "invalid argument: Invalid argument 'x'. Expected a felt.");
    let wide = command(&["1"; 17], false, false);
    let (shown, error) = rejection(&wide, parsed(&wide, &digest), ExecuteEvent::Parsed(id(1)));
    assert_eq!(shown, raw_output_notice());
    assert_eq!(error, "invalid argument: A procedure takes at most 16 input values; got 17.");
}

#[test]
fn a_call_from_a_package_goes_through_its_steps() {
    let command = command(&["5"], true, false);
    let state = parsed(&command, "increment_by");
    let (_, state, action) = step(&command, state, ExecuteEvent::Parsed(id(0)));
    assert!(matches!(action, ExecuteAction::LoadPackage));
    let packaged = ExecuteEvent::Packaged(exports(vec![lowered_form(), interface_form()]));
    let (shown, state, action) = step(&command, state, packaged);
    assert_eq!(shown, "");
    let path = interface_form().0;
    assert!(
        matches!(action, ExecuteAction::ReadTypes(p, name) if p == path && name == "increment-by")
    );
    let typed = ExecuteEvent::Typed("increment-by(felt) -> felt".to_string());
    let (shown, state, action) = step(&command, state, typed);
    assert_eq!(shown, "Signature: increment-by(felt) -> felt\n\n");
    assert!(matches!(action, ExecuteAction::EncodeArgs));
    let encoded = TypedArgs { args: vec![Felt::from(5)], result_felts: Some(1) };
    let (_, state, action) = step(&command, state, ExecuteEvent::Encoded(encoded));
    assert!(matches!(action, ExecuteAction::LinkPackage));
    let (_, state, action) = step(&command, state, ExecuteEvent::Linked);
    assert!(matches!(action, ExecuteAction::Learn(TargetSearch::Account(on)) if on == id(0)));
    let (_, state, _) = step(&command, state, ExecuteEvent::Learned(TargetFact::Status(None)));
    let (_, state, _) = step(&command, state, ExecuteEvent::Learned(TargetFact::Foreign(None)));
    let default = TargetFact::Default(Some(id(1)));
    let (_, state, _) = step(&command, state, ExecuteEvent::Learned(default));
    let usable = TargetFact::Status(Some(AccountStatus::Usable));
    let (shown, state, action) = step(&command, state, ExecuteEvent::Learned(usable));
    assert_eq!(shown, remote_target(id(0), id(1)).0);
    match action {
        ExecuteAction::BuildForeignScript(on, code) => {
            assert_eq!(on, id(0));
            assert_eq!(code.args, vec![Felt::from(5)]);
        },
        other => panic!("{other:?}"),
    }
    let (_, error) = rejection(&command, state, ExecuteEvent::TooManyInputs(15, 16));
    assert_eq!(error, foreign_inputs_error(15, 16).to_string());
}

#[test]
fn a_package_may_not_hold_the_procedure() {
    let command = command(&["y"], true, false);
    let packaging = || Execution::Packaging(id(0), "raw".to_string());
    let list = || exports(vec![("::mix::raw", None)]);
    let (_, error) = rejection(&command, packaging(), ExecuteEvent::Packaged(vec![]));
    assert_eq!(error, "invalid argument: Procedure 'raw' not found. Available:\n");
    let (shown, error) = rejection(&command, packaging(), ExecuteEvent::Packaged(list()));
    assert_eq!(shown, signature_notice("raw", "raw", None));
    assert_eq!(error, "invalid argument: Invalid argument 'y'. Expected a felt.");
    let (_, error) = rejection(&command, packaging(), ExecuteEvent::Nameless);
    assert_eq!(
        error,
        "invalid argument: The export matching 'raw' has an empty path, so it names no procedure."
    );
    assert_eq!(error, nameless_export_error("raw").to_string());
    let locked = ExecuteEvent::Learned(TargetFact::Status(Some(AccountStatus::Locked)));
    let searching = Execution::Searching(TargetSearch::Account(id(1)), code(0, None));
    assert!(rejection(&command, searching, locked).1.contains("is locked"));
    let wide = Execution::Linking(id(1), "f".to_string(), code(1, Some(17)));
    assert_eq!(
        rejection(&command, wide, ExecuteEvent::Linked).1,
        check_stack("f", code(1, Some(17))).unwrap_err().to_string()
    );
}
