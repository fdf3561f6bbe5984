//! What a procedure is called with.

use vstd::prelude::*;

use crate::call::error::{around, fails_with, CliError};
use crate::felt::{values, Felt, MODULUS};
use crate::number::{append_decimal, decimal, number, parse_u64, NumberError};
use crate::protocol::{word_from_hex, word_in, word_values};
use crate::text::strings;

verus! {

/// How many elements of the stack a procedure sees, and how many can be read behind it.
pub const MIN_STACK_DEPTH: usize = 16;

/// What a call is made with: the digest of the procedure, the elements that it takes, and how many
/// it gives where that is known.
#[derive(Debug)]
pub struct CallCode {
    pub digest: [u64; 4],
    pub args: Vec<Felt>,
    pub result_felts: Option<usize>,
}

/// What the types of a procedure make of the arguments.
#[derive(Debug)]
pub struct TypedArgs {
    pub args: Vec<Felt>,
    pub result_felts: Option<usize>,
}

/// The element that an argument writes in base ten, or what is said where it writes none.
pub open spec fn raw_arg(arg: Seq<char>) -> Result<nat, Seq<char>> {
    match number(arg) {
        Ok(value) => if value < MODULUS {
            Ok(value)
        } else {
            Err("Argument '"@ + arg + "' is too large for a felt."@)
        },
        Err(_) => Err("Invalid argument '"@ + arg + "'. Expected a felt."@),
    }
}

/// The elements that arguments write, or what is said of the first that writes none.
pub open spec fn raw_args(args: Seq<Seq<char>>) -> Result<Seq<nat>, Seq<char>>
    decreases args.len(),
{
    if args.len() == 0 {
        Ok(Seq::empty())
    } else {
        match raw_args(args.drop_last()) {
            Err(detail) => Err(detail),
            Ok(front) => match raw_arg(args.last()) {
                Ok(value) => Ok(front.push(value)),
                Err(detail) => Err(detail),
            },
        }
    }
}

proof fn lemma_first_error_stays(args: Seq<Seq<char>>, n: int)
    requires
        0 <= n <= args.len(),
        raw_args(args.take(n)) is Err,
    ensures
        raw_args(args) == raw_args(args.take(n)),
    decreases args.len() - n,
{
    if n < args.len() {
        assert(args.take(n + 1).drop_last() =~= args.take(n));
        lemma_first_error_stays(args, n + 1);
    } else {
        assert(args.take(n) =~= args);
    }
}

/// Reads one element from each argument, in base ten, as elements are written where types are
/// known.
pub fn encode_raw_args(args: &[String]) -> (r: Result<Vec<Felt>, CliError>)
    ensures
        match raw_args(strings(args@)) {
            Ok(elements) => r matches Ok(felts) && values(felts@) == elements,
            Err(detail) => fails_with(r, detail),
        },
{
    let ghost all = strings(args@);
    let mut felts: Vec<Felt> = Vec::new();
    let mut i: usize = 0;
    assert(values(felts@) =~= Seq::<nat>::empty());
    while i < args.len()
        invariant
            i <= args@.len(),
            all == strings(args@),
            raw_args(all.take(i as int)) == Ok::<Seq<nat>, Seq<char>>(values(felts@)),
        decreases args@.len() - i,
    {
        let arg = args[i].as_str();
        proof {
            let done = all.take(i as int + 1);
            assert(done.drop_last() =~= all.take(i as int));
            assert(done.last() == arg@);
            if raw_args(done) is Err {
                lemma_first_error_stays(all, i as int + 1);
            }
        }
        let value: u64 = match parse_u64(arg) {
            Ok(value) => value,
            Err(_) => {
                return Err(
                    CliError::InvalidArgument(
                        around("Invalid argument '", arg, "'. Expected a felt."),
                    ),
                );
            },
        };
        let ghost before = values(felts@);
        match Felt::new(value) {
            Some(felt) => {
                felts.push(felt);
                assert(values(felts@) =~= before.push(value as nat));
            },
            None => {
                return Err(
                    CliError::InvalidArgument(
                        around("Argument '", arg, "' is too large for a felt."),
                    ),
                );
            },
        }
        i = i + 1;
    }
    assert(all.take(i as int) =~= all);
    Ok(felts)
}

/// What is said of a procedure that is neither named by a package nor given by its digest.
pub open spec fn not_a_digest(procedure: Seq<char>) -> Seq<char> {
    "'"@ + procedure
        + "' is not a hex digest. Pass `--package <FILE>.masp` to call a procedure by name, or give its hex digest to call without a package."@
}

/// The digest that `procedure` writes.
pub fn parse_digest(procedure: &str) -> (r: Result<[u64; 4], CliError>)
    ensures
        match word_in(procedure@) {
            Some(word) => r matches Ok(digest) && word_values(digest@) == word,
            None => fails_with(r, not_a_digest(procedure@)),
        },
{
    match word_from_hex(procedure) {
        Some(digest) => Ok(digest),
        None => Err(
            CliError::InvalidArgument(
                around(
                    "'",
                    procedure,
                    "' is not a hex digest. Pass `--package <FILE>.masp` to call a procedure by name, or give its hex digest to call without a package.",
                ),
            ),
        ),
    }
}

/// What is shown before a call by digest.
pub open spec fn digest_notice() -> Seq<char> {
    "No `--package` provided; output will be raw felts. Pass `--package <FILE>.masp` for typed output.\n"@
}

/// What is shown before a call by digest.
pub fn raw_output_notice() -> (r: &'static str)
    ensures
        r@ == digest_notice(),
{
    "No `--package` provided; output will be raw felts. Pass `--package <FILE>.masp` for typed output.\n"
}

/// Whether `r` calls `digest` with one element for each argument and knows nothing of the results,
/// or fails with what is said of the arguments.
pub open spec fn is_untyped_call(
    r: Result<CallCode, CliError>,
    digest: [u64; 4],
    args: Seq<Seq<char>>,
) -> bool {
    match raw_args(args) {
        Err(detail) => fails_with(r, detail),
        Ok(elements) => {
            &&& r is Ok
            &&& r->Ok_0.digest == digest
            &&& values(r->Ok_0.args@) == elements
            &&& r->Ok_0.result_felts is None
        },
    }
}

/// The call of the procedure with the given digest, where nothing describes its types: each
/// argument is one element, and nothing is known of its results.
pub fn resolve_from_digest(digest: [u64; 4], args: &[String]) -> (r: Result<CallCode, CliError>)
    ensures
        is_untyped_call(r, digest, strings(args@)),
{
    match encode_raw_args(args) {
        Ok(encoded) => Ok(CallCode { digest, args: encoded, result_felts: None }),
        Err(error) => Err(error),
    }
}

/// What is shown before a call of an export without types.
pub open spec fn untyped_notice(name: Seq<char>, procedure: Seq<char>) -> Seq<char> {
    "Signature: "@ + name + "(...) [no type info]\n\nWarning: the package does not describe the types of '"@
        + procedure
        + "', so each argument is passed as one field element, the argument count is not checked, and the result is printed as a stack dump.\n"@
}

/// What is shown before a call of an export with types.
pub open spec fn typed_notice(signature: Seq<char>) -> Seq<char> {
    "Signature: "@ + signature + "\n\n"@
}

/// What is shown before a call of an export, given its signature as it is shown where it has types.
/// The export goes by the name that the package gives it, not by the one that was asked for.
pub fn signature_notice(name: &str, procedure: &str, signature: Option<&str>) -> (r: String)
    ensures
        r@ == match signature {
            Some(signature) => typed_notice(signature@),
            None => untyped_notice(name@, procedure@),
        },
{
    match signature {
        Some(signature) => around("Signature: ", signature, "\n\n"),
        None => {
            let mut notice = around(
                "Signature: ",
                name,
                "(...) [no type info]\n\nWarning: the package does not describe the types of '",
            );
            notice.append(procedure);
            notice.append(
                "', so each argument is passed as one field element, the argument count is not checked, and the result is printed as a stack dump.\n",
            );
            notice
        },
    }
}

/// The call of the procedure with the given digest that a package exports. Where the export has
/// types, `typed` is what they make of the arguments; where it has none, each argument is one
/// element.
pub fn resolve_from_package(
    digest: [u64; 4],
    args: &[String],
    typed: Option<TypedArgs>,
) -> (r: Result<CallCode, CliError>)
    ensures
        match typed {
            Some(typed) => r == Ok::<CallCode, CliError>(
                (CallCode { digest, args: typed.args, result_felts: typed.result_felts }),
            ),
            None => is_untyped_call(r, digest, strings(args@)),
        },
{
    match typed {
        Some(typed) => Ok(
            CallCode { digest, args: typed.args, result_felts: typed.result_felts },
        ),
        None => resolve_from_digest(digest, args),
    }
}

/// What is said of a call with too many elements.
pub open spec fn too_many_inputs(count: nat) -> Seq<char> {
    "A procedure takes at most 16 input values; got "@ + decimal(count) + "."@
}

/// What is said of a procedure that gives too many elements.
pub open spec fn too_many_results(procedure: Seq<char>, count: nat) -> Seq<char> {
    "Procedure '"@ + procedure + "' returns "@ + decimal(count)
        + " values; only up to 16 can be read from the output stack."@
}

/// Whether `r` lets `code` through, or fails with what is said of its elements.
pub open spec fn is_let_through(
    r: Result<CallCode, CliError>,
    procedure: Seq<char>,
    code: CallCode,
) -> bool {
    if code.args@.len() > MIN_STACK_DEPTH {
        fails_with(r, too_many_inputs(code.args@.len()))
    } else {
        match code.result_felts {
            Some(count) if count > MIN_STACK_DEPTH => fails_with(
                r,
                too_many_results(procedure, count as nat),
            ),
            _ => r == Ok::<CallCode, CliError>(code),
        }
    }
}

/// Lets a call through whose elements fit the stack.
///
/// A procedure sees an element below the top of the stack as a zero and the call succeeds all the
/// same, so without this a call with wide arguments would run on the wrong values.
pub fn check_stack(procedure: &str, code: CallCode) -> (r: Result<CallCode, CliError>)
    ensures
        is_let_through(r, procedure@, code),
{
    if code.args.len() > MIN_STACK_DEPTH {
        let mut text = String::from_str("A procedure takes at most 16 input values; got ");
        append_decimal(&mut text, code.args.len() as u64);
        text.append(".");
        return Err(CliError::InvalidArgument(text));
    }
    if let Some(count) = code.result_felts {
        if count > MIN_STACK_DEPTH {
            let mut text = around("Procedure '", procedure, "' returns ");
            append_decimal(&mut text, count as u64);
            text.append(" values; only up to 16 can be read from the output stack.");
            return Err(CliError::InvalidArgument(text));
        }
    }
    Ok(code)
}

/// Every argument is taken: a call without types is made exactly where each argument writes a
/// number below `2^64 - 2^32 + 1`, and then with that number in the argument's place. Otherwise it
/// fails with the words on the first argument that does not.
pub proof fn lemma_every_argument_is_an_element(
    r: Result<CallCode, CliError>,
    digest: [u64; 4],
    args: Seq<Seq<char>>,
)
    requires
        is_untyped_call(r, digest, args),
    ensures
        r is Ok <==> forall|i: int| 0 <= i < args.len() ==> is_felt(#[trigger] args[i]),
        r matches Ok(code) ==> {
            &&& code.digest == digest
            &&& code.result_felts is None
            &&& code.args@.len() == args.len()
            &&& forall|i: int|
                #![trigger args[i]]
                0 <= i < args.len() ==> number(args[i]) == Ok::<nat, NumberError>(code.args@[i]@)
        },
        r is Err ==> exists|k: int|
            {
                &&& 0 <= k < args.len()
                &&& forall|i: int| 0 <= i < k ==> is_felt(args[i])
                &&& number(#[trigger] args[k]) is Err && fails_with(
                    r,
                    "Invalid argument '"@ + args[k] + "'. Expected a felt."@,
                ) || number(args[k]) is Ok && !is_felt(args[k]) && fails_with(
                    r,
                    "Argument '"@ + args[k] + "' is too large for a felt."@,
                )
            },
{
    lemma_raw_args_are_numbers(args);
    if let Ok(code) = r {
        let elements = raw_args(args)->Ok_0;
        assert(values(code.args@).len() == code.args@.len());
        assert forall|i: int| 0 <= i < args.len() implies number(#[trigger] args[i]) == Ok::<
            nat,
            NumberError,
        >(code.args@[i]@) by {
            assert(values(code.args@)[i] == code.args@[i]@);
            assert(is_felt(args[i]));
        }
    }
}

/// Whether `arg` writes a number that is an element of the field.
pub open spec fn is_felt(arg: Seq<char>) -> bool {
    number(arg) matches Ok(value) && value < 0xffff_ffff_0000_0001
}

/// What arguments write is read exactly where each writes an element, and then each in its place;
/// otherwise the first that writes none is named.
pub proof fn lemma_raw_args_are_numbers(args: Seq<Seq<char>>)
    ensures
        raw_args(args) is Ok <==> forall|i: int| 0 <= i < args.len() ==> is_felt(#[trigger] args[i]),
        raw_args(args) matches Ok(elements) ==> elements.len() == args.len() && forall|i: int|
            #![trigger args[i]]
            0 <= i < args.len() ==> elements[i] == number(args[i])->Ok_0,
        raw_args(args) matches Err(detail) ==> exists|k: int|
            {
                &&& 0 <= k < args.len()
                &&& forall|i: int| 0 <= i < k ==> is_felt(args[i])
                &&& number(#[trigger] args[k]) is Err && detail == "Invalid argument '"@ + args[k]
                    + "'. Expected a felt."@ || number(args[k]) is Ok && !is_felt(args[k])
                    && detail == "Argument '"@ + args[k] + "' is too large for a felt."@
            },
    decreases args.len(),
{
    if args.len() > 0 {
        let front = args.drop_last();
        let last = args.len() - 1;
        lemma_raw_args_are_numbers(front);
        if raw_args(front) is Ok {
            assert forall|i: int| 0 <= i < last implies is_felt(args[i]) by {
                assert(args[i] == front[i]);
            }
            assert(args[last] == args.last());
            if raw_args(args) is Ok {
                let elements = raw_args(args)->Ok_0;
                assert forall|i: int| 0 <= i < args.len() implies elements[i] == number(
                    #[trigger] args[i],
                )->Ok_0 by {
                    if i < last {
                        assert(args[i] == front[i]);
                    }
                }
            }
        } else {
            let k = choose|k: int|
                {
                    &&& 0 <= k < front.len()
                    &&& forall|i: int| 0 <= i < k ==> is_felt(front[i])
                    &&& number(#[trigger] front[k]) is Err && raw_args(front)->Err_0
                        == "Invalid argument '"@ + front[k] + "'. Expected a felt."@ || number(
                        front[k],
                    ) is Ok && !is_felt(front[k]) && raw_args(front)->Err_0 == "Argument '"@
                        + front[k] + "' is too large for a felt."@
                };
            assert(args[k] == front[k]);
            assert forall|i: int| 0 <= i < k implies is_felt(args[i]) by {
                assert(args[i] == front[i]);
            }
        }
    }
}

/// A call goes through unchanged exactly where it takes no more than sixteen elements and gives no
/// more than sixteen, or is not known to give more. What it takes is looked at first.
pub proof fn lemma_sixteen_elements_fit(
    r: Result<CallCode, CliError>,
    procedure: Seq<char>,
    code: CallCode,
)
    requires
        is_let_through(r, procedure, code),
    ensures
        r is Ok <==> code.args@.len() <= 16 && (code.result_felts matches Some(count) ==> count
            <= 16),
        r is Ok ==> r == Ok::<CallCode, CliError>(code),
        code.args@.len() > 16 ==> fails_with(
            r,
            "A procedure takes at most 16 input values; got "@ + decimal(code.args@.len()) + "."@,
        ),
        code.args@.len() <= 16 && r is Err ==> fails_with(
            r,
            "Procedure '"@ + procedure + "' returns "@ + decimal(code.result_felts->Some_0 as nat)
                + " values; only up to 16 can be read from the output stack."@,
        ),
{
}

/// What is said and shown of a procedure quotes its name whole, however long it is, and tells apart
/// the name that the package gives it and the one that was asked for.
pub proof fn lemma_procedures_are_quoted(name: Seq<char>, procedure: Seq<char>, signature: Seq<char>)
    ensures
        not_a_digest(procedure) == "'"@ + procedure
            + "' is not a hex digest. Pass `--package <FILE>.masp` to call a procedure by name, or give its hex digest to call without a package."@,
        typed_notice(signature) == "Signature: "@ + signature + "\n\n"@,
        untyped_notice(name, procedure) == "Signature: "@ + name
            + "(...) [no type info]\n\nWarning: the package does not describe the types of '"@
            + procedure
            + "', so each argument is passed as one field element, the argument count is not checked, and the result is printed as a stack dump.\n"@,
{
}

} // verus!
