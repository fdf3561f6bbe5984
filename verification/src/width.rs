//! The width that comments are reflowed to.

use vstd::prelude::*;

verus! {

/// The width where nothing else is said.
pub const DEFAULT_WIDTH: usize = 100;

/// The least width that comments can be reflowed to.
pub const LEAST_WIDTH: usize = 20;

/// Why there is no width to reflow to.
#[derive(Debug)]
pub enum WidthError {
    /// The width is less than [`LEAST_WIDTH`].
    TooNarrow,
    /// The rustfmt config is not a TOML document; the text says why.
    Config(String),
}

impl WidthError {
    /// What went wrong, in words.
    pub fn message(&self) -> (r: &'static str)
        ensures
            r@ == match *self {
                WidthError::TooNarrow => "comment width must be at least 20 columns"@,
                WidthError::Config(_) => "parsing rustfmt config for comment_width"@,
            },
    {
        match self {
            WidthError::TooNarrow => "comment width must be at least 20 columns",
            WidthError::Config(_) => "parsing rustfmt config for comment_width",
        }
    }
}

/// A TOML document.
#[verifier::external_type_specification]
#[verifier::external_body]
pub struct ExValue(toml::Value);

/// The entries of a TOML document: under each key the integer that stands there, or `None` for
/// anything else. A value that is not a table has no entries.
pub uninterp spec fn toml_entries(value: toml::Value) -> Map<Seq<char>, Option<i64>>;

/// What `toml` reads in a text: the entries of the document, or why it is none.
pub uninterp spec fn toml_document(
    source: Seq<char>,
) -> Result<Map<Seq<char>, Option<i64>>, Seq<char>>;

/// `toml::from_str`, to a `toml::Value`. The claim is that the outcome is a function of the text.
#[verifier::external_body]
fn parse_toml(source: &str) -> (r: Result<toml::Value, String>)
    ensures
        match r {
            Ok(value) => toml_document(source@) == Ok::<
                Map<Seq<char>, Option<i64>>,
                Seq<char>,
            >(toml_entries(value)),
            Err(reason) => toml_document(source@) == Err::<
                Map<Seq<char>, Option<i64>>,
                Seq<char>,
            >(reason@),
        },
{
    toml::from_str::<toml::Value>(source).map_err(|error| error.to_string())
}

/// `toml::Value::get` and then `toml::Value::as_integer`: the integer that stands under `key`, if
/// there is an entry and it is an integer.
#[verifier::external_body]
fn integer_entry(value: &toml::Value, key: &str) -> (r: Option<i64>)
    ensures
        r == entry_of(toml_entries(*value), key@),
{
    value.get(key).and_then(toml::Value::as_integer)
}

/// The integer under `key`, if there is one.
pub open spec fn entry_of(entries: Map<Seq<char>, Option<i64>>, key: Seq<char>) -> Option<i64> {
    if entries.dom().contains(key) {
        entries[key]
    } else {
        None
    }
}

/// The width that an entry of the config asks for: the default where there is no entry, or none
/// that is a size.
pub open spec fn entry_width(entry: Option<i64>) -> int {
    match entry {
        Some(width) => if 0 <= width <= usize::MAX {
            width as int
        } else {
            DEFAULT_WIDTH as int
        },
        None => DEFAULT_WIDTH as int,
    }
}

/// Whether `r` is `width`, accepted where it is wide enough and refused otherwise.
pub open spec fn accepts(r: Result<usize, WidthError>, width: int) -> bool {
    if width >= LEAST_WIDTH {
        r matches Ok(accepted) && accepted == width
    } else {
        r matches Err(WidthError::TooNarrow)
    }
}

/// Accepts a width that is wide enough.
pub fn validate_width(width: usize) -> (r: Result<usize, WidthError>)
    ensures
        accepts(r, width as int),
{
    if width >= LEAST_WIDTH {
        Ok(width)
    } else {
        Err(WidthError::TooNarrow)
    }
}

/// The width that the entry `comment_width` of the rustfmt config asks for.
pub fn configured_width(entry: Option<i64>) -> (r: Result<usize, WidthError>)
    ensures
        accepts(r, entry_width(entry)),
{
    let width: usize = match entry {
        Some(width) => if width >= 0 && width as u64 <= usize::MAX as u64 {
            width as usize
        } else {
            DEFAULT_WIDTH
        },
        None => DEFAULT_WIDTH,
    };
    validate_width(width)
}

/// Whether `r` is the width to reflow to, or why there is none.
pub open spec fn is_comment_width(
    explicit: Option<usize>,
    rustfmt_config: Option<Seq<char>>,
    r: Result<usize, WidthError>,
) -> bool {
    match (explicit, rustfmt_config) {
        (Some(width), _) => accepts(r, width as int),
        (None, None) => accepts(r, DEFAULT_WIDTH as int),
        (None, Some(source)) => match toml_document(source) {
            Ok(entries) => accepts(r, entry_width(entry_of(entries, "comment_width"@))),
            Err(reason) => r matches Err(WidthError::Config(text)) && text@ == reason,
        },
    }
}

/// The width to reflow to: the explicit one, else that of the rustfmt config, which is given by its
/// text where there is such a file, else the default.
pub fn comment_width(explicit: Option<usize>, rustfmt_config: Option<&str>) -> (r: Result<
    usize,
    WidthError,
>)
    ensures
        is_comment_width(
            explicit,
            match rustfmt_config {
                Some(source) => Some(source@),
                None => None,
            },
            r,
        ),
{
    if let Some(width) = explicit {
        return validate_width(width);
    }
    match rustfmt_config {
        None => Ok(DEFAULT_WIDTH),
        Some(source) => match parse_toml(source) {
            Ok(config) => configured_width(integer_entry(&config, "comment_width")),
            Err(reason) => Err(WidthError::Config(reason)),
        },
    }
}

/// A width of at least twenty columns is taken as it is, and any other is refused as too narrow.
pub proof fn lemma_widths_are_taken_as_they_are(r: Result<usize, WidthError>, width: int)
    requires
        accepts(r, width),
    ensures
        r is Ok <==> width >= 20,
        r matches Ok(accepted) ==> accepted == width,
        r matches Err(error) ==> error is TooNarrow,
{
}

/// What is asked for first decides: an explicit width, whatever the config says; else the entry of
/// the config, whatever its size; else a hundred columns, also where the entry is negative.
pub proof fn lemma_explicit_width_comes_first(
    explicit: Option<usize>,
    rustfmt_config: Option<Seq<char>>,
    r: Result<usize, WidthError>,
)
    requires
        is_comment_width(explicit, rustfmt_config, r),
    ensures
        explicit matches Some(width) ==> (r is Ok <==> width >= 20) && (r is Ok ==> r->Ok_0
            == width),
        explicit is None && rustfmt_config is None ==> r == Ok::<usize, WidthError>(100),
        explicit is None && rustfmt_config is Some && toml_document(rustfmt_config->0) is Err
            ==> r is Err && r->Err_0 is Config,
        explicit is None && rustfmt_config is Some && toml_document(rustfmt_config->0) is Ok ==> ({
            let entries = toml_document(rustfmt_config->0)->Ok_0;
            if entries.dom().contains("comment_width"@) && entries["comment_width"@] is Some && 0
                <= entries["comment_width"@]->0 <= usize::MAX {
                (r is Ok <==> entries["comment_width"@]->0 >= 20) && (r is Ok ==> r->Ok_0
                    == entries["comment_width"@]->0)
            } else {
                r == Ok::<usize, WidthError>(100)
            }
        }),
{
}

} // verus!
