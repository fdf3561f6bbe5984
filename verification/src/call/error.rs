//! What a call can fail with.

use vstd::prelude::*;

verus! {

/// Why a call was not made.
#[derive(Debug)]
pub enum CliError {
    /// Something that the user gave cannot be used.
    InvalidArgument(String),
}

impl CliError {
    /// What is wrong, without the words that all such errors begin with.
    pub open spec fn detail(self) -> Seq<char> {
        match self {
            CliError::InvalidArgument(text) => text@,
        }
    }

    /// What is wrong, in words.
    pub fn to_string(&self) -> (r: String)
        ensures
            r@ == "invalid argument: "@ + self.detail(),
    {
        let mut text = String::from_str("invalid argument: ");
        match self {
            CliError::InvalidArgument(detail) => {
                text.append(detail.as_str());
            },
        }
        text
    }
}

/// `r` is the error that `detail` describes.
pub open spec fn fails_with<T>(r: Result<T, CliError>, detail: Seq<char>) -> bool {
    r matches Err(error) && error.detail() == detail
}

/// The text that is made of three parts, of which the middle one is given.
pub(crate) fn around(before: &str, middle: &str, after: &str) -> (r: String)
    ensures
        r@ == before@ + middle@ + after@,
{
    let mut text = String::from_str(before);
    text.append(middle);
    text.append(after);
    text
}

/// An error says all of what it was made with.
pub proof fn lemma_errors_are_told_whole<T>(
    r: Result<T, CliError>,
    detail: Seq<char>,
    text: String,
)
    ensures
        CliError::InvalidArgument(text).detail() == text@,
        fails_with(r, detail) <==> r is Err && (match r->Err_0 {
            CliError::InvalidArgument(said) => said@ == detail,
        }),
{
}

} // verus!
