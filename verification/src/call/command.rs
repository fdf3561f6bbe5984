//! The command line of `call`.

use vstd::prelude::*;

use crate::call::error::{around, CliError};

verus! {

/// A path of the file system.
#[verifier::external_type_specification]
#[verifier::external_body]
pub struct ExPathBuf(std::path::PathBuf);

/// The call of a procedure of an account.
#[derive(Debug, Clone)]
pub struct CallCmd {
    /// Account and procedure in the form `<ACCOUNT_ID>:<PROCEDURE>`.
    pub target: String,
    /// Positional arguments to push onto the stack before calling the procedure.
    pub args: Vec<String>,
    /// Path to the package (.masp) file containing the procedure. If omitted, `<PROCEDURE>` must
    /// be a hex digest and the output stack is shown as raw felts.
    pub package: Option<std::path::PathBuf>,
    /// Path to a TOML file with advice map entries, in the same format as the `exec` command.
    pub inputs_path: Option<std::path::PathBuf>,
}

/// Whether the client has been synced, without which no call is made.
pub fn is_synced(sync_height: u32) -> (r: bool)
    ensures
        r == (sync_height != 0),
{
    sync_height != 0
}

/// What is said of a target without a procedure.
pub open spec fn no_procedure(target: Seq<char>) -> Seq<char> {
    "Expected `<ACCOUNT_ID>:<PROCEDURE>`, got '"@ + target + "'."@
}

impl CallCmd {
    /// The error for a target without a procedure.
    pub fn no_procedure_error(&self) -> (r: CliError)
        ensures
            r.detail() == no_procedure(self.target@),
    {
        CliError::InvalidArgument(
            around("Expected `<ACCOUNT_ID>:<PROCEDURE>`, got '", self.target.as_str(), "'."),
        )
    }
}

/// What is said of a target without a procedure quotes the target whole, however long it is.
pub proof fn lemma_target_is_quoted(target: Seq<char>)
    ensures
        no_procedure(target) == "Expected `<ACCOUNT_ID>:<PROCEDURE>`, got '"@ + target + "'."@,
{
}

} // verus!
