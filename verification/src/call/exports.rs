//! The exports of a package, and the one that a name means.

use vstd::prelude::*;

use crate::call::error::{around, fails_with, CliError};
use crate::text::{chars_of, join, join_strings, same_chars, strings};

verus! {

/// How a procedure takes its arguments and gives its results.
#[derive(Clone, Copy, Debug, PartialEq, Eq, Structural)]
pub enum CallConv {
    /// The convention of the assembler.
    Fast,
    /// The convention of C.
    C,
    /// The canonical convention of the Component Model, which keeps the types of the interface.
    ComponentModel,
    /// Any other convention.
    Other,
}

/// The signature of a procedure. Types are given as they are written.
#[derive(Debug, PartialEq, Eq)]
pub struct FunctionType {
    pub abi: CallConv,
    pub params: Vec<String>,
    pub results: Vec<String>,
}

/// A procedure that a package exports.
#[derive(Debug)]
pub struct ProcedureExport {
    /// The full path, as it is written.
    pub path: String,
    /// The last component of the path, without quotes.
    pub name: String,
    /// The digest by which the procedure is called.
    pub digest: [u64; 4],
    pub signature: Option<FunctionType>,
}

/// Something that a package exports.
#[derive(Debug)]
pub enum PackageExport {
    Procedure(ProcedureExport),
    /// A constant.
    Constant,
    /// A type.
    Type,
}

/// The last component of a path, without quotes, or nothing where the path has none.
pub uninterp spec fn path_name(path: Seq<char>) -> Option<Seq<char>>;

/// `miden_protocol::assembly::Path::last`. The claim is that the outcome is a function of the
/// path.
#[verifier::external_body]
fn last_component(path: &str) -> (r: Option<String>)
    ensures
        match r {
            Some(name) => path_name(path@) == Some(name@),
            None => path_name(path@) is None,
        },
{
    miden_protocol::assembly::Path::new(path).last().map(|name| name.to_string())
}

/// What is said of an export that names nothing.
pub open spec fn nameless_export(procedure: Seq<char>) -> Seq<char> {
    "The export matching '"@ + procedure + "' has an empty path, so it names no procedure."@
}

/// The error for an export that names nothing, where `procedure` was asked for.
pub fn nameless_export_error(procedure: &str) -> (r: CliError)
    ensures
        r.detail() == nameless_export(procedure@),
{
    CliError::InvalidArgument(
        around(
            "The export matching '",
            procedure,
            "' has an empty path, so it names no procedure.",
        ),
    )
}

impl ProcedureExport {
    /// The export at `path`, unless the path names nothing.
    pub fn new(path: &str, digest: [u64; 4], signature: Option<FunctionType>) -> (r: Option<
        ProcedureExport,
    >)
        ensures
            match r {
                Some(export) => {
                    &&& path_name(path@) == Some(export.name@)
                    &&& export.path@ == path@
                    &&& export.digest == digest
                    &&& export.signature == signature
                },
                None => path_name(path@) is None,
            },
    {
        match last_component(path) {
            Some(name) => Some(
                ProcedureExport { path: String::from_str(path), name, digest, signature },
            ),
            None => None,
        }
    }

    /// Whether the signature describes the values that a user passes and reads. That of another
    /// convention describes how they are lowered.
    pub open spec fn is_typed(self) -> bool {
        self.signature matches Some(signature) && signature.abi == CallConv::ComponentModel
    }

    /// Whether the signature describes the values that a user passes and reads.
    pub fn has_types(&self) -> (r: bool)
        ensures
            r == self.is_typed(),
    {
        match &self.signature {
            Some(signature) => signature.abi == CallConv::ComponentModel,
            None => false,
        }
    }
}

/// `name` with `-` in place of every `_`.
pub open spec fn kebab(name: Seq<char>) -> Seq<char> {
    name.map_values(
        |c: char|
            if c == '_' {
                '-'
            } else {
                c
            },
    )
}

/// Whether `export` is a procedure that `name` may mean.
pub open spec fn is_candidate(export: PackageExport, name: Seq<char>) -> bool {
    export matches PackageExport::Procedure(procedure) && kebab(procedure.name@) == kebab(name)
}

/// Whether `export` is a procedure with types that `name` may mean.
pub open spec fn is_typed_candidate(export: PackageExport, name: Seq<char>) -> bool {
    is_candidate(export, name) && export->Procedure_0.is_typed()
}

/// Whether `name` means the export at place `i`: the first candidate with types or, where there is
/// none, the first candidate.
pub open spec fn means(exports: Seq<PackageExport>, name: Seq<char>, i: int) -> bool {
    &&& 0 <= i < exports.len()
    &&& is_candidate(exports[i], name)
    &&& if is_typed_candidate(exports[i], name) {
        forall|j: int| 0 <= j < i ==> !is_typed_candidate(#[trigger] exports[j], name)
    } else {
        &&& forall|j: int|
            0 <= j < exports.len() ==> !is_typed_candidate(#[trigger] exports[j], name)
        &&& forall|j: int| 0 <= j < i ==> !is_candidate(#[trigger] exports[j], name)
    }
}

/// The paths of all procedures, each as a line of a list.
pub open spec fn procedure_list(exports: Seq<PackageExport>) -> Seq<Seq<char>>
    decreases exports.len(),
{
    if exports.len() == 0 {
        Seq::empty()
    } else {
        let before = procedure_list(exports.drop_last());
        match exports.last() {
            PackageExport::Procedure(procedure) => before.push("  "@ + procedure.path@),
            _ => before,
        }
    }
}

/// What is said where `name` means no export: all procedures are listed.
pub open spec fn not_found(exports: Seq<PackageExport>, name: Seq<char>) -> Seq<char> {
    "Procedure '"@ + name + "' not found. Available:\n"@ + join(
        procedure_list(exports),
        seq!['\n'],
    )
}

/// `name` with `-` in place of every `_`.
fn kebab_chars(name: &str) -> (r: Vec<char>)
    ensures
        r@ == kebab(name@),
{
    let chars = chars_of(name);
    let mut out: Vec<char> = Vec::new();
    let mut i: usize = 0;
    while i < chars.len()
        invariant
            i <= chars@.len(),
            chars@ == name@,
            out@ == kebab(name@).take(i as int),
        decreases chars@.len() - i,
    {
        let c: char = chars[i];
        out.push(
            if c == '_' {
                '-'
            } else {
                c
            },
        );
        assert(out@ =~= kebab(name@).take(i as int + 1));
        i = i + 1;
    }
    assert(kebab(name@).take(i as int) =~= kebab(name@));
    out
}

/// The export that `procedure_name` means.
///
/// A procedure of the Component Model is exported twice under its name or one like it: with the
/// types of its interface, and lowered. Arguments and results are read by the signature that is
/// picked here, so one with types is preferred, wherever it stands. One without can still be called
/// with raw elements.
pub fn resolve_procedure_export<'a>(
    exports: &'a Vec<PackageExport>,
    procedure_name: &str,
) -> (r: Result<&'a ProcedureExport, CliError>)
    ensures
        match r {
            Ok(export) => exists|i: int| #[trigger]
                means(exports@, procedure_name@, i) && exports@[i] == PackageExport::Procedure(
                    *export,
                ),
            Err(_) => {
                &&& forall|i: int|
                    0 <= i < exports@.len() ==> !is_candidate(
                        #[trigger] exports@[i],
                        procedure_name@,
                    )
                &&& fails_with(r, not_found(exports@, procedure_name@))
            },
        },
{
    let target = kebab_chars(procedure_name);
    let mut available: Vec<String> = Vec::new();
    let mut untyped: Option<&'a ProcedureExport> = None;
    let ghost mut untyped_at: int = 0;
    let mut i: usize = 0;
    assert(strings(available@) =~= procedure_list(exports@.take(0)));
    while i < exports.len()
        invariant
            i <= exports@.len(),
            target@ == kebab(procedure_name@),
            strings(available@) == procedure_list(exports@.take(i as int)),
            forall|j: int|
                0 <= j < i ==> !is_typed_candidate(#[trigger] exports@[j], procedure_name@),
            match untyped {
                Some(export) => {
                    &&& 0 <= untyped_at < i
                    &&& exports@[untyped_at] == PackageExport::Procedure(*export)
                    &&& is_candidate(exports@[untyped_at], procedure_name@)
                    &&& forall|j: int|
                        0 <= j < untyped_at ==> !is_candidate(
                            #[trigger] exports@[j],
                            procedure_name@,
                        )
                },
                None => forall|j: int|
                    0 <= j < i ==> !is_candidate(#[trigger] exports@[j], procedure_name@),
            },
        decreases exports@.len() - i,
    {
        let ghost done = exports@.take(i as int + 1);
        assert(done.drop_last() =~= exports@.take(i as int));
        assert(done.last() == exports@[i as int]);
        if let PackageExport::Procedure(procedure) = &exports[i] {
            let ghost before = strings(available@);
            available.push(around("  ", procedure.path.as_str(), ""));
            proof {
                reveal_strlit("");
                assert("  "@ + procedure.path@ + ""@ =~= "  "@ + procedure.path@);
                assert(strings(available@) =~= before.push("  "@ + procedure.path@));
            }
            let name = kebab_chars(procedure.name.as_str());
            if same_chars(&name, &target) {
                if procedure.has_types() {
                    assert(means(exports@, procedure_name@, i as int));
                    return Ok(procedure);
                }
                if untyped.is_none() {
                    untyped = Some(procedure);
                    proof {
                        untyped_at = i as int;
                    }
                }
            }
        }
        i = i + 1;
    }
    assert(exports@.take(i as int) =~= exports@);
    match untyped {
        Some(export) => {
            assert(means(exports@, procedure_name@, untyped_at));
            Ok(export)
        },
        None => {
            proof {
                reveal_strlit("\n");
                assert("\n"@ =~= seq!['\n']);
            }
            let list = join_strings(&available, "\n");
            let mut text = around("Procedure '", procedure_name, "' not found. Available:\n");
            text.append(list.as_str());
            Err(CliError::InvalidArgument(text))
        },
    }
}

/// A procedure may be meant by exactly those names that read as its own, where `_` and `-` count as
/// the same character: place by place, the characters are equal or both are separators.
pub proof fn lemma_separators_are_equal(export: PackageExport, name: Seq<char>)
    ensures
        is_candidate(export, name) <==> export is Procedure && export->Procedure_0.name@.len()
            == name.len() && forall|i: int|
            #![trigger name[i]]
            0 <= i < name.len() ==> export->Procedure_0.name@[i] == name[i] || (
            (export->Procedure_0.name@[i] == '_' || export->Procedure_0.name@[i] == '-') && (name[i]
                == '_' || name[i] == '-')),
{
    if export is Procedure {
        let own = export->Procedure_0.name@;
        if kebab(own) == kebab(name) {
            assert(kebab(own).len() == own.len() && kebab(name).len() == name.len());
            assert forall|i: int|
                #![trigger name[i]]
                0 <= i < name.len() implies own[i] == name[i] || ((own[i] == '_' || own[i] == '-')
                && (name[i] == '_' || name[i] == '-')) by {
                assert(kebab(own)[i] == kebab(name)[i]);
            }
        }
        if own.len() == name.len() && (forall|i: int|
            #![trigger name[i]]
            0 <= i < name.len() ==> own[i] == name[i] || ((own[i] == '_' || own[i] == '-') && (
            name[i] == '_' || name[i] == '-'))) {
            assert(kebab(own) =~= kebab(name)) by {
                assert forall|i: int| 0 <= i < name.len() implies kebab(own)[i] == kebab(name)[i] by {
                    assert(own[i] == name[i] || ((own[i] == '_' || own[i] == '-') && (name[i] == '_'
                        || name[i] == '-')));
                }
            }
        }
    }
}

/// Whatever export a name may mean, it means one: the first with types that it may mean, wherever
/// that stands, and the first of all only where none has types.
pub proof fn lemma_some_export_is_meant(exports: Seq<PackageExport>, name: Seq<char>, some: int)
    requires
        0 <= some < exports.len(),
        is_candidate(exports[some], name),
    ensures
        exists|i: int|
            #![trigger exports[i]]
            means(exports, name, i) && 0 <= i < exports.len() && is_candidate(exports[i], name)
                && if exports[i]->Procedure_0.signature is Some
                && exports[i]->Procedure_0.signature->0.abi == CallConv::ComponentModel {
                forall|j: int|
                    0 <= j < i && is_candidate(#[trigger] exports[j], name)
                        ==> exports[j]->Procedure_0.signature is None
                        || exports[j]->Procedure_0.signature->0.abi != CallConv::ComponentModel
            } else {
                &&& forall|j: int|
                    0 <= j < exports.len() && is_candidate(#[trigger] exports[j], name)
                        ==> exports[j]->Procedure_0.signature is None
                        || exports[j]->Procedure_0.signature->0.abi != CallConv::ComponentModel
                &&& forall|j: int| 0 <= j < i ==> !is_candidate(#[trigger] exports[j], name)
            },
{
    if exists|j: int| 0 <= j < exports.len() && is_typed_candidate(#[trigger] exports[j], name) {
        let j = choose|j: int|
            0 <= j < exports.len() && is_typed_candidate(#[trigger] exports[j], name);
        let i = lemma_first_typed(exports, name, j);
        assert(means(exports, name, i));
    } else {
        let i = lemma_first_candidate(exports, name, some);
        assert(means(exports, name, i));
    }
}

proof fn lemma_first_typed(exports: Seq<PackageExport>, name: Seq<char>, some: int) -> (i: int)
    requires
        0 <= some < exports.len(),
        is_typed_candidate(exports[some], name),
    ensures
        0 <= i <= some,
        is_typed_candidate(exports[i], name),
        forall|j: int| 0 <= j < i ==> !is_typed_candidate(#[trigger] exports[j], name),
    decreases some,
{
    if exists|j: int| 0 <= j < some && is_typed_candidate(#[trigger] exports[j], name) {
        let j = choose|j: int| 0 <= j < some && is_typed_candidate(#[trigger] exports[j], name);
        lemma_first_typed(exports, name, j)
    } else {
        some
    }
}

proof fn lemma_first_candidate(exports: Seq<PackageExport>, name: Seq<char>, some: int) -> (i: int)
    requires
        0 <= some < exports.len(),
        is_candidate(exports[some], name),
    ensures
        0 <= i <= some,
        is_candidate(exports[i], name),
        forall|j: int| 0 <= j < i ==> !is_candidate(#[trigger] exports[j], name),
    decreases some,
{
    if exists|j: int| 0 <= j < some && is_candidate(#[trigger] exports[j], name) {
        let j = choose|j: int| 0 <= j < some && is_candidate(#[trigger] exports[j], name);
        lemma_first_candidate(exports, name, j)
    } else {
        some
    }
}

/// What is said where nothing is found lists the path of every procedure once, in the order of the
/// exports, and nothing else: an export more adds its line at the end, if it is a procedure.
pub proof fn lemma_every_procedure_is_listed(exports: Seq<PackageExport>, export: PackageExport)
    ensures
        procedure_list(Seq::empty()).len() == 0,
        export is Procedure ==> procedure_list(exports.push(export)) == procedure_list(
            exports,
        ).push(seq![' ', ' '] + export->Procedure_0.path@),
        !(export is Procedure) ==> procedure_list(exports.push(export)) == procedure_list(exports),
{
    reveal_strlit("  ");
    assert(exports.push(export).drop_last() =~= exports);
    assert("  "@ =~= seq![' ', ' ']);
}

/// A name means at most one export.
pub proof fn lemma_meaning_is_unique(
    exports: Seq<PackageExport>,
    name: Seq<char>,
    i: int,
    j: int,
)
    requires
        means(exports, name, i),
        means(exports, name, j),
    ensures
        i == j,
{
}

/// An export with types wins over those without, in whichever order they are written.
pub proof fn lemma_typed_export_wins(
    exports: Seq<PackageExport>,
    name: Seq<char>,
    i: int,
    j: int,
)
    requires
        means(exports, name, i),
        0 <= j < exports.len(),
        is_typed_candidate(exports[j], name),
    ensures
        is_typed_candidate(exports[i], name),
{
}

/// Names that differ only in `_` and `-` mean the same export.
pub proof fn lemma_separators_do_not_matter(
    exports: Seq<PackageExport>,
    name: Seq<char>,
    other: Seq<char>,
    i: int,
)
    requires
        kebab(name) == kebab(other),
        means(exports, name, i),
    ensures
        means(exports, other, i),
{
}

/// What is said of a name that means nothing quotes it whole and lists every procedure, a line each;
/// what is said of an export without a name quotes what was asked for.
pub proof fn lemma_missing_procedure_is_explained(exports: Seq<PackageExport>, name: Seq<char>)
    ensures
        not_found(exports, name) == "Procedure '"@ + name + "' not found. Available:\n"@ + join(
            procedure_list(exports),
            seq!['\n'],
        ),
        nameless_export(name) == "The export matching '"@ + name
            + "' has an empty path, so it names no procedure."@,
{
}

/// An export has types exactly where it has a signature in the convention of the Component Model,
/// however many values it takes and gives.
pub proof fn lemma_typed_exports(export: ProcedureExport)
    ensures
        export.is_typed() <==> export.signature is Some && export.signature->0.abi
            == CallConv::ComponentModel,
{
}

} // verus!
