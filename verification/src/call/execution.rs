//! The course of a command, from the sync of the client to the end of the call.
//!
//! Each step takes what was last found out or done, and gives what is shown, what is to be done
//! next, or why the command ends. An error of the client or of the file system ends it anywhere.

use vstd::prelude::*;

use crate::account::AccountId;
use crate::call::code::{
    check_stack, digest_notice, is_felt, lemma_raw_args_are_numbers, not_a_digest, parse_digest,
    raw_args, raw_output_notice, resolve_from_digest, resolve_from_package, signature_notice, too_many_inputs, too_many_results,
    typed_notice, untyped_notice, CallCode, TypedArgs, MIN_STACK_DEPTH,
};
use crate::call::command::{is_synced, no_procedure, CallCmd};
use crate::call::error::CliError;
use crate::call::exports::{
    is_candidate, means, nameless_export, nameless_export_error, not_found,
    resolve_procedure_export, PackageExport, ProcedureExport,
};
use crate::call::run::{call_follows, CallAction, CallEvent, CallRun};
use crate::call::script::{script_text, tx_script_text};
use crate::call::target::{
    fact_is_valid, foreign_inputs_error, locked_account, no_executor, remote_notice,
    search_follows, too_many_foreign_inputs, unreadable_account, AccountStatus, CallTarget,
    TargetFact, TargetSearch,
};
use crate::felt::{values, MODULUS};
use crate::number::{number, NumberError};
use crate::protocol::{word_in, word_values};
use crate::text::strings;

verus! {

/// Why a command ends before its call is made.
#[derive(Debug)]
pub enum ExecuteError {
    /// The client has never been synced.
    NotSynced,
    /// The call cannot be made as it was asked for.
    Rejected(CliError),
}

/// Where a command stands. From the point where they are known, the states hold the account that
/// the call is meant for, the procedure that was asked for, and what it is called with.
#[derive(Debug)]
pub enum Execution {
    /// The height up to which the client is synced is being read.
    Syncing,
    /// The configuration is being loaded.
    Configuring,
    /// The target is being split into an account and a procedure.
    Splitting,
    /// The account is being looked up.
    Parsing(String),
    /// The package is being loaded.
    Packaging(AccountId, String),
    /// The types of the export with this digest are being read.
    Typing(AccountId, String, [u64; 4]),
    /// The arguments are being encoded by these types.
    Encoding(AccountId, String, [u64; 4]),
    /// The package is being linked.
    Linking(AccountId, String, CallCode),
    /// The advice is being loaded.
    Advising(AccountId, CallCode),
    /// It is being found out where the call runs.
    Searching(TargetSearch, CallCode),
    /// The script is being compiled.
    Scripting(CallTarget),
    /// The call is being made.
    Running(CallRun),
}

/// What was found out or done for a command.
#[derive(Debug)]
pub enum ExecuteEvent {
    /// The client is synced up to this height.
    Synced(u32),
    /// The configuration is loaded.
    Configured,
    /// The account that the target names, and the procedure, if it names one.
    Split(String, Option<String>),
    /// The account was found.
    Parsed(AccountId),
    /// The package is loaded; this is what it exports.
    Packaged(Vec<PackageExport>),
    /// The package is loaded, but has an export whose path is empty.
    Nameless,
    /// The types are known; this is how the signature is shown.
    Typed(String),
    /// The arguments are encoded.
    Encoded(TypedArgs),
    /// The package is linked.
    Linked,
    /// The advice is loaded.
    Advised,
    /// Something about accounts.
    Learned(TargetFact),
    /// The script is compiled.
    Scripted,
    /// The script of a call on an account that is read from the network takes at most so many
    /// elements, and would get so many.
    TooManyInputs(usize, usize),
    /// Something about the call.
    Ran(CallEvent),
}

/// What is to be done for a command.
#[derive(Debug)]
pub enum ExecuteAction {
    /// Nothing: the event does not belong to the state.
    Nothing,
    /// Read the height up to which the client is synced.
    ReadSyncHeight,
    /// Load the configuration.
    LoadConfig,
    /// Split the target into an account and a procedure.
    SplitTarget,
    /// Look up the account that this text names.
    ParseAccount(String),
    /// Load the package.
    LoadPackage,
    /// Read the types of the export with this path and this name.
    ReadTypes(String, String),
    /// Encode the arguments.
    EncodeArgs,
    /// Link the package.
    LinkPackage,
    /// Load the advice.
    LoadAdvice,
    /// Find out what this state of the search asks for.
    Learn(TargetSearch),
    /// Compile this script.
    CompileScript(String),
    /// Build the script that makes this call on this account, which is read from the network.
    BuildForeignScript(AccountId, CallCode),
    /// Do what the call asks for.
    Run(CallAction),
}

/// A step of a command: what is shown, and then what is to be done next, or why it ends.
#[derive(Debug)]
pub struct ExecuteStep {
    pub shown: String,
    pub next: Result<(Execution, ExecuteAction), ExecuteError>,
}

impl ExecuteStep {
    /// Whether nothing is shown.
    pub open spec fn is_quiet(self) -> bool {
        self.shown@.len() == 0
    }

    /// Whether the command goes on like this.
    pub open spec fn goes_on(self, state: Execution, action: ExecuteAction) -> bool {
        self.next == Ok::<(Execution, ExecuteAction), ExecuteError>((state, action))
    }

    /// Whether the command ends with this said of what was asked for.
    pub open spec fn rejects(self, detail: Seq<char>) -> bool {
        self.next matches Err(ExecuteError::Rejected(error)) && error.detail() == detail
    }
}

/// Whether `code` calls the procedure with the given digest with the given elements.
pub open spec fn calls(
    code: CallCode,
    digest: Seq<nat>,
    elements: Seq<nat>,
    result_felts: Option<usize>,
) -> bool {
    &&& word_values(code.digest@) == digest
    &&& values(code.args@) == elements
    &&& code.result_felts == result_felts
}

/// What follows where it is known what is called with what: the call has to fit the stack. Then
/// the advice is loaded, if there is any, and it is found out where the call runs.
pub open spec fn code_follows(
    command: CallCmd,
    target: AccountId,
    procedure: Seq<char>,
    digest: Seq<nat>,
    elements: Seq<nat>,
    result_felts: Option<usize>,
    step: ExecuteStep,
) -> bool {
    let search = TargetSearch::Account(target);
    if elements.len() > MIN_STACK_DEPTH {
        step.rejects(too_many_inputs(elements.len()))
    } else if result_felts is Some && result_felts->0 > MIN_STACK_DEPTH {
        step.rejects(too_many_results(procedure, result_felts->0 as nat))
    } else if command.inputs_path is Some {
        step.next matches Ok((Execution::Advising(id, code), ExecuteAction::LoadAdvice)) && id
            == target && calls(code, digest, elements, result_felts)
    } else {
        step.next matches Ok((Execution::Searching(state, code), ExecuteAction::Learn(asked)))
            && state == search && asked == search && calls(code, digest, elements, result_felts)
    }
}

/// What follows where the procedure stands for its digest: its types are not known.
pub open spec fn digest_follows(
    command: CallCmd,
    target: AccountId,
    procedure: Seq<char>,
    step: ExecuteStep,
) -> bool {
    match word_in(procedure) {
        None => step.is_quiet() && step.rejects(not_a_digest(procedure)),
        Some(digest) => step.shown@ == digest_notice() && match raw_args(strings(command.args@)) {
            Err(detail) => step.rejects(detail),
            Ok(elements) => code_follows(
                command,
                target,
                procedure,
                digest,
                elements,
                None,
                step,
            ),
        },
    }
}

/// What follows where the procedure stands for an export: its types are read, if it has any, and
/// each argument is one element, if it has none.
pub open spec fn export_follows(
    command: CallCmd,
    target: AccountId,
    procedure: String,
    export: ProcedureExport,
    step: ExecuteStep,
) -> bool {
    if export.is_typed() {
        &&& step.is_quiet()
        &&& step.next matches Ok(
            (Execution::Typing(id, asked, digest), ExecuteAction::ReadTypes(path, name)),
        ) && id == target && asked == procedure && digest == export.digest && path@ == export.path@
            && name@ == export.name@
    } else {
        &&& step.shown@ == untyped_notice(export.name@, procedure@)
        &&& match raw_args(strings(command.args@)) {
            Err(detail) => step.rejects(detail),
            Ok(elements) => step.next matches Ok(
                (Execution::Linking(id, asked, code), ExecuteAction::LinkPackage),
            ) && id == target && asked == procedure && calls(
                code,
                word_values(export.digest@),
                elements,
                None,
            ),
        }
    }
}

/// What follows a step of the search for where the call runs. Once that is found, the script of the
/// call is compiled.
pub open spec fn learned_follows(
    code: CallCode,
    found: Result<(TargetSearch, String), CliError>,
    step: ExecuteStep,
) -> bool {
    match found {
        Err(error) => step.is_quiet() && step.next == Err::<(Execution, ExecuteAction), ExecuteError>(
            ExecuteError::Rejected(error),
        ),
        Ok((TargetSearch::Found(target), shown)) => step.shown@ == shown@ && match target {
            CallTarget::Local(_) => step.next matches Ok(
                (Execution::Scripting(place), ExecuteAction::CompileScript(text)),
            ) && place == target && text@ == script_text(word_values(code.digest@), code.args@),
            CallTarget::Remote { target_id, .. } => step.goes_on(
                Execution::Scripting(target),
                ExecuteAction::BuildForeignScript(target_id, code),
            ),
        },
        Ok((search, shown)) => step.shown@ == shown@ && step.goes_on(
            Execution::Searching(search, code),
            ExecuteAction::Learn(search),
        ),
    }
}

/// What follows `event`. Nothing is done for a client that has never been synced; what is asked for
/// is resolved before any account is looked at for where the call runs, and the call comes last.
pub open spec fn execution_follows(
    command: CallCmd,
    state: Execution,
    event: ExecuteEvent,
    step: ExecuteStep,
) -> bool {
    match (state, event) {
        (Execution::Syncing, ExecuteEvent::Synced(height)) => step.is_quiet() && if height == 0 {
            step.next == Err::<(Execution, ExecuteAction), ExecuteError>(ExecuteError::NotSynced)
        } else {
            step.goes_on(Execution::Configuring, ExecuteAction::LoadConfig)
        },
        (Execution::Configuring, ExecuteEvent::Configured) => step.is_quiet() && step.goes_on(
            Execution::Splitting,
            ExecuteAction::SplitTarget,
        ),
        (Execution::Splitting, ExecuteEvent::Split(account, procedure)) => step.is_quiet()
            && match procedure {
            None => step.rejects(no_procedure(command.target@)),
            Some(procedure) => step.goes_on(
                Execution::Parsing(procedure),
                ExecuteAction::ParseAccount(account),
            ),
        },
        (Execution::Parsing(procedure), ExecuteEvent::Parsed(target)) => if command.package is Some {
            step.is_quiet() && step.goes_on(
                Execution::Packaging(target, procedure),
                ExecuteAction::LoadPackage,
            )
        } else {
            digest_follows(command, target, procedure@, step)
        },
        (Execution::Packaging(_, procedure), ExecuteEvent::Nameless) => step.is_quiet()
            && step.rejects(nameless_export(procedure@)),
        (Execution::Packaging(target, procedure), ExecuteEvent::Packaged(exports)) => {
            ||| exists|i: int| #[trigger]
                means(exports@, procedure@, i) && export_follows(
                    command,
                    target,
                    procedure,
                    exports@[i]->Procedure_0,
                    step,
                )
            ||| step.is_quiet() && step.rejects(not_found(exports@, procedure@)) && forall|i: int|
                0 <= i < exports@.len() ==> !is_candidate(#[trigger] exports@[i], procedure@)
        },
        (
            Execution::Typing(target, procedure, digest),
            ExecuteEvent::Typed(signature),
        ) => step.shown@ == typed_notice(signature@) && step.goes_on(
            Execution::Encoding(target, procedure, digest),
            ExecuteAction::EncodeArgs,
        ),
        (
            Execution::Encoding(target, procedure, digest),
            ExecuteEvent::Encoded(typed),
        ) => step.is_quiet() && step.goes_on(
            Execution::Linking(
                target,
                procedure,
                CallCode { digest, args: typed.args, result_felts: typed.result_felts },
            ),
            ExecuteAction::LinkPackage,
        ),
        (Execution::Linking(target, procedure, code), ExecuteEvent::Linked) => step.is_quiet()
            && code_follows(
            command,
            target,
            procedure@,
            word_values(code.digest@),
            values(code.args@),
            code.result_felts,
            step,
        ),
        (Execution::Advising(target, code), ExecuteEvent::Advised) => step.is_quiet()
            && step.goes_on(
            Execution::Searching(TargetSearch::Account(target), code),
            ExecuteAction::Learn(TargetSearch::Account(target)),
        ),
        (Execution::Searching(search, code), ExecuteEvent::Learned(fact)) => exists|
            found: Result<(TargetSearch, String), CliError>,
        | #[trigger] search_follows(search, fact, found) && learned_follows(code, found, step),
        (Execution::Scripting(target), ExecuteEvent::Scripted) => step.is_quiet() && step.goes_on(
            Execution::Running(CallRun::Reading(target)),
            ExecuteAction::Run(
                match target {
                    CallTarget::Local(id) => CallAction::ExecuteProgram(id, None),
                    CallTarget::Remote { target_id, executor_id } => CallAction::ExecuteProgram(
                        executor_id,
                        Some(target_id),
                    ),
                },
            ),
        ),
        (
            Execution::Scripting(CallTarget::Remote { .. }),
            ExecuteEvent::TooManyInputs(max, actual),
        ) => step.is_quiet() && step.rejects(too_many_foreign_inputs(max as nat, actual as nat)),
        (Execution::Running(run), ExecuteEvent::Ran(event)) => step.is_quiet() && exists|
            next: (CallRun, CallAction),
        | #[trigger] call_follows(run, event, next) && step.goes_on(
            Execution::Running(next.0),
            ExecuteAction::Run(next.1),
        ),
        _ => step.is_quiet() && step.goes_on(state, ExecuteAction::Nothing),
    }
}

/// Whether `digest` consists of field elements.
pub open spec fn is_word(digest: Seq<u64>) -> bool {
    forall|i: int| 0 <= i < digest.len() ==> #[trigger] digest[i] < MODULUS
}

impl Execution {
    /// Whether the accounts of the state are accounts, and its digest consists of field elements.
    pub open spec fn is_valid(self) -> bool {
        match self {
            Execution::Packaging(target, _) => target.is_valid(),
            Execution::Typing(target, _, digest) => target.is_valid() && is_word(digest@),
            Execution::Encoding(target, _, digest) => target.is_valid() && is_word(digest@),
            Execution::Linking(target, _, code) => target.is_valid() && is_word(code.digest@),
            Execution::Advising(target, code) => target.is_valid() && is_word(code.digest@),
            Execution::Searching(search, code) => search.is_valid() && is_word(code.digest@),
            _ => true,
        }
    }
}

/// Whether the accounts of an event are accounts, and its digests consist of field elements.
pub open spec fn event_is_valid(event: ExecuteEvent) -> bool {
    match event {
        ExecuteEvent::Parsed(target) => target.is_valid(),
        ExecuteEvent::Packaged(exports) => forall|i: int|
            0 <= i < exports@.len() ==> (#[trigger] exports@[i] matches PackageExport::Procedure(
                export,
            ) ==> is_word(export.digest@)),
        ExecuteEvent::Learned(fact) => fact_is_valid(fact),
        _ => true,
    }
}

/// How a step goes on without showing anything.
fn quiet_step(state: Execution, action: ExecuteAction) -> (r: ExecuteStep)
    ensures
        r.is_quiet(),
        r.goes_on(state, action),
{
    ExecuteStep { shown: String::new(), next: Ok((state, action)) }
}

/// How a step ends the command without showing anything.
fn quiet_rejection(error: CliError) -> (r: ExecuteStep)
    ensures
        r.is_quiet(),
        r.next == Err::<(Execution, ExecuteAction), ExecuteError>(ExecuteError::Rejected(error)),
{
    ExecuteStep { shown: String::new(), next: Err(ExecuteError::Rejected(error)) }
}

impl CallCmd {
    /// How the command begins.
    pub fn start(&self) -> (r: (Execution, ExecuteAction))
        ensures
            r == (Execution::Syncing, ExecuteAction::ReadSyncHeight),
    {
        (Execution::Syncing, ExecuteAction::ReadSyncHeight)
    }

    /// What follows where it is known what is called with what.
    fn go_on_with(
        &self,
        target: AccountId,
        procedure: &str,
        code: CallCode,
        shown: String,
    ) -> (r: ExecuteStep)
        requires
            target.is_valid(),
            is_word(code.digest@),
        ensures
            r.shown == shown,
            code_follows(
                *self,
                target,
                procedure@,
                word_values(code.digest@),
                values(code.args@),
                code.result_felts,
                r,
            ),
            r.next matches Ok(next) ==> next.0.is_valid(),
    {
        assert(values(code.args@).len() == code.args@.len());
        let next = match check_stack(procedure, code) {
            Err(error) => Err(ExecuteError::Rejected(error)),
            Ok(code) => if self.inputs_path.is_some() {
                Ok((Execution::Advising(target, code), ExecuteAction::LoadAdvice))
            } else {
                let search = TargetSearch::Account(target);
                Ok((Execution::Searching(search, code), ExecuteAction::Learn(search)))
            },
        };
        ExecuteStep { shown, next }
    }

    /// What follows where the procedure stands for its digest.
    fn go_on_by_digest(&self, target: AccountId, procedure: &str) -> (r: ExecuteStep)
        requires
            target.is_valid(),
        ensures
            digest_follows(*self, target, procedure@, r),
            r.next matches Ok(next) ==> next.0.is_valid(),
    {
        let digest: [u64; 4] = match parse_digest(procedure) {
            Ok(digest) => digest,
            Err(error) => {
                return quiet_rejection(error);
            },
        };
        assert(is_word(digest@)) by {
            let word = word_in(procedure@)->0;
            assert forall|i: int| 0 <= i < digest@.len() implies #[trigger] digest@[i] < MODULUS by {
                assert(word_values(digest@)[i] == word[i]);
            }
        }
        let shown = String::from_str(raw_output_notice());
        match resolve_from_digest(digest, &self.args) {
            Ok(code) => self.go_on_with(target, procedure, code, shown),
            Err(error) => ExecuteStep { shown, next: Err(ExecuteError::Rejected(error)) },
        }
    }

    /// What follows where the package is loaded.
    fn go_on_by_package(
        &self,
        target: AccountId,
        procedure: String,
        exports: &Vec<PackageExport>,
    ) -> (r: ExecuteStep)
        requires
            target.is_valid(),
            event_is_valid(ExecuteEvent::Packaged(*exports)),
        ensures
            (exists|i: int| #[trigger]
                means(exports@, procedure@, i) && export_follows(
                    *self,
                    target,
                    procedure,
                    exports@[i]->Procedure_0,
                    r,
                )) || (r.is_quiet() && r.rejects(not_found(exports@, procedure@)) && forall|i: int|
                0 <= i < exports@.len() ==> !is_candidate(#[trigger] exports@[i], procedure@)),
            r.next matches Ok(next) ==> next.0.is_valid(),
    {
        let export = match resolve_procedure_export(exports, procedure.as_str()) {
            Ok(export) => export,
            Err(error) => {
                return quiet_rejection(error);
            },
        };
        let ghost i = choose|i: int| #[trigger]
            means(exports@, procedure@, i) && exports@[i] == PackageExport::Procedure(*export);
        assert(exports@[i]->Procedure_0 == *export);
        let digest: [u64; 4] = export.digest;
        if export.has_types() {
            let path = String::from_str(export.path.as_str());
            let name = String::from_str(export.name.as_str());
            return quiet_step(
                Execution::Typing(target, procedure, digest),
                ExecuteAction::ReadTypes(path, name),
            );
        }
        let shown = signature_notice(export.name.as_str(), procedure.as_str(), None);
        let next = match resolve_from_package(digest, &self.args, None) {
            Ok(code) => Ok(
                (Execution::Linking(target, procedure, code), ExecuteAction::LinkPackage),
            ),
            Err(error) => Err(ExecuteError::Rejected(error)),
        };
        ExecuteStep { shown, next }
    }

    /// What follows `event`.
    pub fn step(&self, state: Execution, event: ExecuteEvent) -> (r: ExecuteStep)
        requires
            state.is_valid(),
            event_is_valid(event),
        ensures
            execution_follows(*self, state, event, r),
            r.next matches Ok(next) ==> next.0.is_valid(),
    {
        match (state, event) {
            (Execution::Syncing, ExecuteEvent::Synced(height)) => if is_synced(height) {
                quiet_step(Execution::Configuring, ExecuteAction::LoadConfig)
            } else {
                ExecuteStep { shown: String::new(), next: Err(ExecuteError::NotSynced) }
            },
            (Execution::Configuring, ExecuteEvent::Configured) => quiet_step(
                Execution::Splitting,
                ExecuteAction::SplitTarget,
            ),
            (Execution::Splitting, ExecuteEvent::Split(account, procedure)) => match procedure {
                Some(procedure) => quiet_step(
                    Execution::Parsing(procedure),
                    ExecuteAction::ParseAccount(account),
                ),
                None => quiet_rejection(self.no_procedure_error()),
            },
            (
                Execution::Parsing(procedure),
                ExecuteEvent::Parsed(target),
            ) => if self.package.is_some() {
                quiet_step(Execution::Packaging(target, procedure), ExecuteAction::LoadPackage)
            } else {
                self.go_on_by_digest(target, procedure.as_str())
            },
            (Execution::Packaging(_, procedure), ExecuteEvent::Nameless) => quiet_rejection(
                nameless_export_error(procedure.as_str()),
            ),
            (
                Execution::Packaging(target, procedure),
                ExecuteEvent::Packaged(exports),
            ) => self.go_on_by_package(target, procedure, &exports),
            (Execution::Typing(target, procedure, digest), ExecuteEvent::Typed(signature)) => {
                let shown = signature_notice("", "", Some(signature.as_str()));
                ExecuteStep {
                    shown,
                    next: Ok(
                        (
                            Execution::Encoding(target, procedure, digest),
                            ExecuteAction::EncodeArgs,
                        ),
                    ),
                }
            },
            (Execution::Encoding(target, procedure, digest), ExecuteEvent::Encoded(typed)) => {
                match resolve_from_package(digest, &self.args, Some(typed)) {
                    Ok(code) => quiet_step(
                        Execution::Linking(target, procedure, code),
                        ExecuteAction::LinkPackage,
                    ),
                    Err(error) => quiet_rejection(error),
                }
            },
            (Execution::Linking(target, procedure, code), ExecuteEvent::Linked) => self.go_on_with(
                target,
                procedure.as_str(),
                code,
                String::new(),
            ),
            (Execution::Advising(target, code), ExecuteEvent::Advised) => {
                let search = TargetSearch::Account(target);
                quiet_step(Execution::Searching(search, code), ExecuteAction::Learn(search))
            },
            (Execution::Searching(search, code), ExecuteEvent::Learned(fact)) => {
                let found = search.learn(fact);
                assert(search_follows(search, fact, found));
                match found {
                    Err(error) => quiet_rejection(error),
                    Ok((TargetSearch::Found(target), shown)) => {
                        let action = match target {
                            CallTarget::Local(_) => ExecuteAction::CompileScript(
                                tx_script_text(code.digest, &code.args),
                            ),
                            CallTarget::Remote {
                                target_id,
                                ..
                            } => ExecuteAction::BuildForeignScript(target_id, code),
                        };
                        ExecuteStep { shown, next: Ok((Execution::Scripting(target), action)) }
                    },
                    Ok((search, shown)) => ExecuteStep {
                        shown,
                        next: Ok(
                            (Execution::Searching(search, code), ExecuteAction::Learn(search)),
                        ),
                    },
                }
            },
            (Execution::Scripting(target), ExecuteEvent::Scripted) => {
                let (run, action) = CallRun::start(target);
                quiet_step(Execution::Running(run), ExecuteAction::Run(action))
            },
            (
                Execution::Scripting(CallTarget::Remote { .. }),
                ExecuteEvent::TooManyInputs(max, actual),
            ) => quiet_rejection(foreign_inputs_error(max, actual)),
            (Execution::Running(run), ExecuteEvent::Ran(event)) => {
                let next = run.next(event);
                assert(call_follows(run, event, next));
                quiet_step(Execution::Running(next.0), ExecuteAction::Run(next.1))
            },
            (state, _) => quiet_step(state, ExecuteAction::Nothing),
        }
    }
}

/// How far a command has come.
pub open spec fn stage(state: Execution) -> int {
    match state {
        Execution::Syncing => 0,
        Execution::Configuring => 1,
        Execution::Splitting => 2,
        Execution::Parsing(..) => 3,
        Execution::Packaging(..) => 4,
        Execution::Typing(..) => 5,
        Execution::Encoding(..) => 6,
        Execution::Linking(..) => 7,
        Execution::Advising(..) => 8,
        Execution::Searching(..) => 9,
        Execution::Scripting(..) => 10,
        Execution::Running(..) => 11,
    }
}

/// Whether the elements that a call takes and gives fit the stack.
pub open spec fn fits_stack(code: CallCode) -> bool {
    &&& code.args@.len() <= MIN_STACK_DEPTH
    &&& code.result_felts is Some ==> code.result_felts->0 <= MIN_STACK_DEPTH
}

/// What a call is made with, where it is known that it fits the stack.
pub open spec fn checked_code(state: Execution) -> Option<CallCode> {
    match state {
        Execution::Advising(_, code) => Some(code),
        Execution::Searching(_, code) => Some(code),
        _ => None,
    }
}

/// A command goes through its steps in order: it never goes back, only a client that has been
/// synced gets past the first step, and the accounts are looked at for where the call runs, and the
/// call is made, only once what is called with what is known and fits the stack.
pub proof fn lemma_steps_come_in_order(
    command: CallCmd,
    state: Execution,
    event: ExecuteEvent,
    step: ExecuteStep,
)
    requires
        execution_follows(command, state, event, step),
        step.next is Ok,
        checked_code(state) is Some ==> fits_stack(checked_code(state)->0),
    ensures
        stage(step.next->Ok_0.0) >= stage(state),
        state is Syncing && !(step.next->Ok_0.0 is Syncing) ==> event is Synced
            && event->Synced_0 > 0,
        step.next->Ok_0.0 is Running ==> state is Running || state is Scripting,
        step.next->Ok_0.0 is Scripting ==> state is Scripting || checked_code(state) is Some,
        checked_code(step.next->Ok_0.0) is Some ==> fits_stack(
            checked_code(step.next->Ok_0.0)->0,
        ),
{
    if let Some(code) = checked_code(step.next->Ok_0.0) {
        assert(values(code.args@).len() == code.args@.len());
    }
}

/// Whether `event` is what a command in this state waits for.
pub open spec fn is_awaited(state: Execution, event: ExecuteEvent) -> bool {
    match state {
        Execution::Syncing => event is Synced,
        Execution::Configuring => event is Configured,
        Execution::Splitting => event is Split,
        Execution::Parsing(_) => event is Parsed,
        Execution::Packaging(..) => event is Packaged || event is Nameless,
        Execution::Typing(..) => event is Typed,
        Execution::Encoding(..) => event is Encoded,
        Execution::Linking(..) => event is Linked,
        Execution::Advising(..) => event is Advised,
        Execution::Searching(..) => event is Learned,
        Execution::Scripting(target) => event is Scripted || event is TooManyInputs
            && target is Remote,
        Execution::Running(_) => event is Ran,
    }
}

/// A command moves with every event that it waits for, and with no other: it comes a stage further
/// or ends, except that the search for an account and the call itself have steps of their own.
pub proof fn lemma_awaited_events_move_a_command(
    command: CallCmd,
    state: Execution,
    event: ExecuteEvent,
    step: ExecuteStep,
)
    requires
        execution_follows(command, state, event, step),
    ensures
        is_awaited(state, event) && !(state is Searching) && !(state is Running) ==> step.next is Err
            || stage(step.next->Ok_0.0) > stage(state),
        is_awaited(state, event) && step.next is Ok ==> !(step.next->Ok_0.1 is Nothing),
        !is_awaited(state, event) ==> step.is_quiet() && step.next is Ok && step.next->Ok_0.0
            == state && step.next->Ok_0.1 is Nothing,
{
}

/// Whether the call that the command asks for, of the procedure with the given digest or export and
/// without types, can be made of the arguments: each is an element.
pub open spec fn are_felts(args: Seq<Seq<char>>) -> bool {
    forall|i: int| 0 <= i < args.len() ==> is_felt(#[trigger] args[i])
}

/// A command ends early only where there is a reason to: a client that was never synced, a target
/// without a procedure, a procedure that is no digest where there is no package, a package that
/// does not export it, an argument that is no element where there are no types, more than sixteen
/// elements, or an account that cannot be called. Every such reason ends it.
pub proof fn lemma_commands_end_for_a_reason(
    command: CallCmd,
    state: Execution,
    event: ExecuteEvent,
    step: ExecuteStep,
)
    requires
        execution_follows(command, state, event, step),
    ensures
        step.next is Err <==> match (state, event) {
            (Execution::Syncing, ExecuteEvent::Synced(height)) => height == 0,
            (Execution::Splitting, ExecuteEvent::Split(_, procedure)) => procedure is None,
            (Execution::Parsing(procedure), ExecuteEvent::Parsed(_)) => command.package is None && (
            word_in(procedure@) is None || !are_felts(strings(command.args@)) || command.args@.len()
                > 16),
            (Execution::Packaging(..), ExecuteEvent::Nameless) => true,
            (Execution::Packaging(_, procedure), ExecuteEvent::Packaged(exports)) => !(exists|
                i: int,
            | #[trigger]
                means(exports@, procedure@, i) && (exports@[i]->Procedure_0.is_typed() || are_felts(
                    strings(command.args@),
                ))),
            (Execution::Linking(_, _, code), ExecuteEvent::Linked) => code.args@.len() > 16 || (
            code.result_felts is Some && code.result_felts->0 > 16),
            (Execution::Searching(search, _), ExecuteEvent::Learned(fact)) => match (search, fact) {
                (TargetSearch::Account(_), TargetFact::Status(status)) => status == Some(
                    AccountStatus::Locked,
                ),
                (TargetSearch::Foreign(_), TargetFact::Foreign(refusal)) => refusal is Some,
                (TargetSearch::AnyLocal(_), TargetFact::Accounts(accounts)) => forall|i: int|
                    0 <= i < accounts@.len() ==> (#[trigger] accounts@[i]).1
                        == AccountStatus::Locked,
                _ => false,
            },
            (Execution::Scripting(target), ExecuteEvent::TooManyInputs(..)) => target is Remote,
            _ => false,
        },
        step.next matches Err(ExecuteError::NotSynced) ==> state is Syncing,
        state is Syncing && step.next is Err ==> step.next->Err_0 is NotSynced,
{
    let args = strings(command.args@);
    assert(args.len() == command.args@.len());
    lemma_raw_args_are_numbers(args);
    match (state, event) {
        (Execution::Packaging(_, procedure), ExecuteEvent::Packaged(exports)) => {
            lemma_one_export_is_meant(exports@, procedure@);
        },
        (Execution::Linking(_, _, code), ExecuteEvent::Linked) => {
            assert(values(code.args@).len() == code.args@.len());
        },
        (Execution::Searching(search, code), ExecuteEvent::Learned(fact)) => {
            let found = choose|found: Result<(TargetSearch, String), CliError>| #[trigger]
                search_follows(search, fact, found) && learned_follows(code, found, step);
        },
        _ => {},
    }
}

/// At most one export is meant, and it is a candidate.
proof fn lemma_one_export_is_meant(exports: Seq<PackageExport>, procedure: Seq<char>)
    ensures
        forall|i: int, j: int| #[trigger]
            means(exports, procedure, i) && #[trigger] means(exports, procedure, j) ==> i == j,
        forall|i: int| #[trigger]
            means(exports, procedure, i) ==> 0 <= i < exports.len() && is_candidate(
                exports[i],
                procedure,
            ),
{
}

/// The account that the call is meant for, once it is known.
pub open spec fn target_of(state: Execution) -> Option<AccountId> {
    match state {
        Execution::Packaging(target, _) => Some(target),
        Execution::Typing(target, _, _) => Some(target),
        Execution::Encoding(target, _, _) => Some(target),
        Execution::Linking(target, _, _) => Some(target),
        Execution::Advising(target, _) => Some(target),
        Execution::Searching(TargetSearch::Account(target), _) => Some(target),
        Execution::Searching(TargetSearch::Foreign(target), _) => Some(target),
        Execution::Searching(TargetSearch::Default(target), _) => Some(target),
        Execution::Searching(TargetSearch::DefaultStatus(target, _), _) => Some(target),
        Execution::Searching(TargetSearch::AnyLocal(target), _) => Some(target),
        Execution::Scripting(CallTarget::Local(target)) => Some(target),
        Execution::Scripting(CallTarget::Remote { target_id, .. }) => Some(target_id),
        Execution::Running(CallRun::Reading(CallTarget::Local(target))) => Some(target),
        Execution::Running(CallRun::Reading(CallTarget::Remote { target_id, .. })) => Some(
            target_id,
        ),
        Execution::Running(CallRun::Building(target)) => Some(target),
        Execution::Running(CallRun::Executing(target)) => Some(target),
        _ => None,
    }
}

/// The procedure that was asked for, while it is still needed.
pub open spec fn procedure_of(state: Execution) -> Option<Seq<char>> {
    match state {
        Execution::Parsing(procedure) => Some(procedure@),
        Execution::Packaging(_, procedure) => Some(procedure@),
        Execution::Typing(_, procedure, _) => Some(procedure@),
        Execution::Encoding(_, procedure, _) => Some(procedure@),
        Execution::Linking(_, procedure, _) => Some(procedure@),
        _ => None,
    }
}

/// The digest of the procedure that is called, once it is known.
pub open spec fn digest_of(state: Execution) -> Option<Seq<nat>> {
    match state {
        Execution::Typing(_, _, digest) => Some(word_values(digest@)),
        Execution::Encoding(_, _, digest) => Some(word_values(digest@)),
        Execution::Linking(_, _, code) => Some(word_values(code.digest@)),
        Execution::Advising(_, code) => Some(word_values(code.digest@)),
        Execution::Searching(_, code) => Some(word_values(code.digest@)),
        _ => None,
    }
}

/// The elements that the call takes, and how many it gives, once they are known.
pub open spec fn elements_of(state: Execution) -> Option<(Seq<nat>, Option<usize>)> {
    match state {
        Execution::Linking(_, _, code) => Some((values(code.args@), code.result_felts)),
        Execution::Advising(_, code) => Some((values(code.args@), code.result_felts)),
        Execution::Searching(_, code) => Some((values(code.args@), code.result_felts)),
        _ => None,
    }
}

/// What is called is what was asked for: the account, the procedure, its digest and the elements do
/// not change once they are known. They come from the account that was found, from the text that
/// the target was split into, from the digest that the procedure writes or the export that it
/// means, and from the arguments, one by one or as the types encode them.
pub proof fn lemma_what_is_called_is_what_was_asked_for(
    command: CallCmd,
    state: Execution,
    event: ExecuteEvent,
    step: ExecuteStep,
)
    requires
        execution_follows(command, state, event, step),
        step.next is Ok,
        !(state is Searching && state->Searching_0 is Found),
    ensures
        target_of(step.next->Ok_0.0) is Some && target_of(state) is Some ==> target_of(
            step.next->Ok_0.0,
        ) == target_of(state),
        target_of(step.next->Ok_0.0) is Some && target_of(state) is None ==> event
            == ExecuteEvent::Parsed(target_of(step.next->Ok_0.0)->0),
        target_of(step.next->Ok_0.0) is None && target_of(state) is Some ==> step.next->Ok_0.0
            == Execution::Running(CallRun::Ended),
        procedure_of(step.next->Ok_0.0) is Some && procedure_of(state) is Some ==> procedure_of(
            step.next->Ok_0.0,
        ) == procedure_of(state),
        procedure_of(step.next->Ok_0.0) is Some && procedure_of(state) is None ==> event is Split
            && event->Split_1 is Some && procedure_of(step.next->Ok_0.0) == Some(
            event->Split_1->0@,
        ),
        digest_of(step.next->Ok_0.0) is Some && digest_of(state) is Some ==> digest_of(
            step.next->Ok_0.0,
        ) == digest_of(state),
        digest_of(step.next->Ok_0.0) is Some && digest_of(state) is None ==> match event {
            ExecuteEvent::Packaged(exports) => exists|i: int| #[trigger]
                means(exports@, procedure_of(state)->0, i) && digest_of(step.next->Ok_0.0) == Some(
                    word_values(exports@[i]->Procedure_0.digest@),
                ),
            _ => command.package is None && digest_of(step.next->Ok_0.0) == word_in(
                procedure_of(state)->0,
            ),
        },
        elements_of(step.next->Ok_0.0) is Some && elements_of(state) is Some ==> elements_of(
            step.next->Ok_0.0,
        ) == elements_of(state),
        elements_of(step.next->Ok_0.0) is Some && elements_of(state) is None ==> match event {
            ExecuteEvent::Encoded(typed) => elements_of(step.next->Ok_0.0) == Some(
                (values(typed.args@), typed.result_felts),
            ),
            _ => {
                let (elements, gives) = elements_of(step.next->Ok_0.0)->0;
                &&& gives is None
                &&& elements.len() == command.args@.len()
                &&& forall|i: int|
                    #![trigger command.args@[i]]
                    0 <= i < elements.len() ==> number(command.args@[i]@) == Ok::<nat, NumberError>(
                        elements[i],
                    )
            },
        },
{
    let args = strings(command.args@);
    lemma_raw_args_are_numbers(args);
    assert(args.len() == command.args@.len());
    assert forall|i: int| 0 <= i < args.len() implies args[i] == (#[trigger] command.args@[i])@ by {
    }
    match (state, event) {
        (Execution::Searching(search, code), ExecuteEvent::Learned(fact)) => {
            let found = choose|found: Result<(TargetSearch, String), CliError>| #[trigger]
                search_follows(search, fact, found) && learned_follows(code, found, step);
        },
        (Execution::Running(run), ExecuteEvent::Ran(event)) => {
            let next = choose|next: (CallRun, CallAction)| #[trigger]
                call_follows(run, event, next) && step.goes_on(
                    Execution::Running(next.0),
                    ExecuteAction::Run(next.1),
                );
        },
        _ => {},
    }
}

/// What is done is what the next state waits for: each state is entered with the action whose
/// outcome it waits for, with the script of the call that is held, and with the program of the
/// account that the call runs from.
pub proof fn lemma_actions_are_those_awaited(
    command: CallCmd,
    state: Execution,
    event: ExecuteEvent,
    step: ExecuteStep,
)
    requires
        execution_follows(command, state, event, step),
        step.next is Ok,
        is_awaited(state, event),
    ensures
        match step.next->Ok_0.0 {
            Execution::Syncing => false,
            Execution::Configuring => step.next->Ok_0.1 is LoadConfig,
            Execution::Splitting => step.next->Ok_0.1 is SplitTarget,
            Execution::Parsing(_) => event matches ExecuteEvent::Split(account, _) && step.next->Ok_0.1
                == ExecuteAction::ParseAccount(account),
            Execution::Packaging(..) => step.next->Ok_0.1 is LoadPackage,
            Execution::Typing(..) => event matches ExecuteEvent::Packaged(exports) && exists|i: int|
                #[trigger]
                means(exports@, procedure_of(state)->0, i) && (
                step.next->Ok_0.1 matches ExecuteAction::ReadTypes(path, name) && path@
                    == exports@[i]->Procedure_0.path@ && name@ == exports@[i]->Procedure_0.name@),
            Execution::Encoding(..) => step.next->Ok_0.1 is EncodeArgs,
            Execution::Linking(..) => step.next->Ok_0.1 is LinkPackage,
            Execution::Advising(..) => step.next->Ok_0.1 is LoadAdvice && command.inputs_path is Some,
            Execution::Searching(search, _) => step.next->Ok_0.1 == ExecuteAction::Learn(search),
            Execution::Scripting(CallTarget::Local(_)) => step.next->Ok_0.1 matches ExecuteAction::CompileScript(
                text,
            ) && text@ == script_text(digest_of(state)->0, state->Searching_1.args@),
            Execution::Scripting(CallTarget::Remote { target_id, .. }) => step.next->Ok_0.1
                == ExecuteAction::BuildForeignScript(target_id, state->Searching_1),
            Execution::Running(CallRun::Reading(target)) => state matches Execution::Scripting(
                place,
            ) ==> place == target && step.next->Ok_0.1 == ExecuteAction::Run(
                CallAction::ExecuteProgram(
                    match target {
                        CallTarget::Local(id) => id,
                        CallTarget::Remote { executor_id, .. } => executor_id,
                    },
                    match target {
                        CallTarget::Local(_) => None,
                        CallTarget::Remote { target_id, .. } => Some(target_id),
                    },
                ),
            ),
            Execution::Running(_) => step.next->Ok_0.1 is Run,
        },
        command.inputs_path is Some && step.next->Ok_0.0 is Searching ==> state is Searching
            || state is Advising,
{
    match (state, event) {
        (Execution::Packaging(target, procedure), ExecuteEvent::Packaged(exports)) => {
            let i = choose|i: int| #[trigger]
                means(exports@, procedure@, i) && export_follows(
                    command,
                    target,
                    procedure,
                    exports@[i]->Procedure_0,
                    step,
                );
            assert(means(exports@, procedure_of(state)->0, i));
        },
        (Execution::Searching(search, code), ExecuteEvent::Learned(fact)) => {
            let found = choose|found: Result<(TargetSearch, String), CliError>| #[trigger]
                search_follows(search, fact, found) && learned_follows(code, found, step);
        },
        _ => {},
    }
}

/// What is shown is the notice that belongs to what was found out: that the results are raw where a
/// digest is called, whatever the arguments are; how the export goes by its name and what its
/// missing types mean; the signature where there are types; and what the search for an account
/// says. Nothing is shown otherwise.
pub proof fn lemma_notices_are_shown(
    command: CallCmd,
    state: Execution,
    event: ExecuteEvent,
    step: ExecuteStep,
)
    requires
        execution_follows(command, state, event, step),
    ensures
        match (state, event) {
            (Execution::Parsing(procedure), ExecuteEvent::Parsed(_)) => step.shown@
                == if command.package is None && word_in(procedure@) is Some {
                digest_notice()
            } else {
                Seq::empty()
            },
            (Execution::Packaging(_, procedure), ExecuteEvent::Packaged(exports)) => {
                &&& forall|i: int| #[trigger]
                    means(exports@, procedure@, i) ==> step.shown@
                        == if exports@[i]->Procedure_0.is_typed() {
                        Seq::empty()
                    } else {
                        untyped_notice(exports@[i]->Procedure_0.name@, procedure@)
                    }
                &&& (forall|i: int| !(#[trigger] means(exports@, procedure@, i)))
                    ==> step.shown@.len() == 0
            },
            (Execution::Typing(..), ExecuteEvent::Typed(signature)) => step.shown@ == typed_notice(
                signature@,
            ),
            (Execution::Searching(search, _), ExecuteEvent::Learned(_)) => match step.next {
                Ok(
                    (Execution::Scripting(CallTarget::Remote { target_id, executor_id }), _),
                ) => step.shown@ == if search is Found {
                    Seq::empty()
                } else {
                    remote_notice(target_id, executor_id)
                },
                _ => step.shown@.len() == 0,
            },
            _ => step.shown@.len() == 0,
        },
{
    match (state, event) {
        (Execution::Packaging(_, procedure), ExecuteEvent::Packaged(exports)) => {
            lemma_one_export_is_meant(exports@, procedure@);
        },
        (Execution::Searching(search, code), ExecuteEvent::Learned(fact)) => {
            let found = choose|found: Result<(TargetSearch, String), CliError>| #[trigger]
                search_follows(search, fact, found) && learned_follows(code, found, step);
        },
        _ => {},
    }
}

/// What a command ends with, in words, where it is rejected.
pub open spec fn said(step: ExecuteStep) -> Seq<char> {
    match step.next {
        Err(ExecuteError::Rejected(CliError::InvalidArgument(text))) => text@,
        _ => Seq::empty(),
    }
}

/// A command that is rejected says why, in the words that belong to the reason, and what is said of
/// the procedure and the target quotes what was asked for.
pub proof fn lemma_rejections_are_explained(
    command: CallCmd,
    state: Execution,
    event: ExecuteEvent,
    step: ExecuteStep,
)
    requires
        execution_follows(command, state, event, step),
        step.next is Err,
        !(state is Syncing),
    ensures
        step.next->Err_0 is Rejected,
        match (state, event) {
            (Execution::Splitting, ExecuteEvent::Split(_, _)) => said(step) == no_procedure(
                command.target@,
            ),
            (Execution::Parsing(procedure), ExecuteEvent::Parsed(_)) => if word_in(
                procedure@,
            ) is None {
                said(step) == not_a_digest(procedure@)
            } else if !are_felts(strings(command.args@)) {
                raw_args(strings(command.args@)) == Err::<Seq<nat>, Seq<char>>(said(step))
            } else {
                said(step) == too_many_inputs(command.args@.len())
            },
            (Execution::Packaging(_, procedure), ExecuteEvent::Nameless) => said(step)
                == nameless_export(procedure@),
            (Execution::Packaging(_, procedure), ExecuteEvent::Packaged(exports)) => if exists|
                i: int,
            | #[trigger] means(exports@, procedure@, i) {
                raw_args(strings(command.args@)) == Err::<Seq<nat>, Seq<char>>(said(step))
            } else {
                said(step) == not_found(exports@, procedure@)
            },
            (Execution::Linking(_, procedure, code), ExecuteEvent::Linked) => said(step)
                == if code.args@.len() > 16 {
                too_many_inputs(code.args@.len())
            } else {
                too_many_results(procedure@, code.result_felts->0 as nat)
            },
            (Execution::Searching(search, _), ExecuteEvent::Learned(fact)) => match (search, fact) {
                (TargetSearch::Account(target), _) => said(step) == locked_account(target),
                (TargetSearch::Foreign(target), TargetFact::Foreign(refusal)) => said(step)
                    == unreadable_account(target, refusal->0),
                (TargetSearch::AnyLocal(_), _) => said(step) == no_executor(),
                _ => false,
            },
            (Execution::Scripting(_), ExecuteEvent::TooManyInputs(max, actual)) => said(step)
                == too_many_foreign_inputs(max as nat, actual as nat),
            _ => false,
        },
{
    let args = strings(command.args@);
    assert(args.len() == command.args@.len());
    lemma_raw_args_are_numbers(args);
    match (state, event) {
        (Execution::Packaging(_, procedure), ExecuteEvent::Packaged(exports)) => {
            lemma_one_export_is_meant(exports@, procedure@);
        },
        (Execution::Linking(_, _, code), ExecuteEvent::Linked) => {
            assert(values(code.args@).len() == code.args@.len());
        },
        (Execution::Searching(search, code), ExecuteEvent::Learned(fact)) => {
            let found = choose|found: Result<(TargetSearch, String), CliError>| #[trigger]
                search_follows(search, fact, found) && learned_follows(code, found, step);
        },
        _ => {},
    }
}

} // verus!
