//! Reflow of the comments of one source.

use vstd::prelude::*;
use vstd::string::StringSliceAdditionalSpecFns;
use vstd::utf8::{encode_utf8, encode_utf8_valid_utf8, is_char_boundary};

use crate::comment_reflow::apply::{apply_replacements, lemma_block_rewrites_fit, spliced};
use crate::comment_reflow::blocks::{block_rewrites, replacements, Rewrite};
use crate::comment_reflow::fences::{mark_fenced_lines, with_fences};
use crate::comment_reflow::lines::{
    find_line, found_lines, full_line_comments, lemma_found_lines_fit, line_end, line_index,
    line_starts, lines_fit, models, offsets, span_fits, spans_fit, starts, text_end, CommentLine,
    LineModel,
};
use crate::comment_reflow::syntax::{
    by_start, line_comment_spans, line_comments, rust_syntax, ReflowError, Span,
};

verus! {

/// How comments are reflowed.
#[derive(Clone, Copy, Debug, PartialEq, Eq, Structural)]
pub struct Config {
    /// Target total line width, including indentation and comment marker.
    pub width: usize,
    /// Whether regular `//` comments should be reflowed in addition to rustdoc comments.
    pub include_normal_comments: bool,
}

/// The comment lines of a text, with the lines of fenced code flagged.
pub open spec fn lines_of(
    source: Seq<char>,
    spans: Seq<Span>,
    include_normal_comments: bool,
) -> Seq<LineModel> {
    with_fences(found_lines(encode_utf8(source), spans, include_normal_comments))
}

/// The rewrites that the comments at `spans` get.
pub open spec fn rewrites_of(source: Seq<char>, spans: Seq<Span>, config: Config) -> Seq<Rewrite> {
    block_rewrites(
        lines_of(source, spans, config.include_normal_comments),
        0,
        config.width as int,
    )
}

/// The text with its comments, which stand at `spans`, reflowed.
pub open spec fn reflowed(source: Seq<char>, spans: Seq<Span>, config: Config) -> Seq<char> {
    spliced(encode_utf8(source), rewrites_of(source, spans, config), 0)
}

/// The comment lines at `ranges`, with the lines of fenced code flagged.
pub fn comment_lines(
    source: &str,
    ranges: &[Span],
    line_starts: &[usize],
    include_normal_comments: bool,
) -> (r: Vec<CommentLine>)
    requires
        offsets(line_starts@) == starts(source.spec_bytes()),
        forall|i: int|
            0 <= i < ranges@.len() ==> span_fits(source.spec_bytes(), #[trigger] ranges@[i]),
    ensures
        models(r@) == lines_of(source@, ranges@, include_normal_comments),
{
    let mut lines = full_line_comments(source, ranges, line_starts, include_normal_comments);
    mark_fenced_lines(&mut lines);
    lines
}

/// Reflows the comments of `source` that stand at `spans`.
pub fn reflow_spans(source: &str, spans: &[Span], config: Config) -> (r: String)
    requires
        spans_fit(source.spec_bytes(), spans@),
    ensures
        r@ == reflowed(source@, spans@, config),
{
    let starts_of_lines = line_starts(source);
    let lines = comment_lines(source, spans, &starts_of_lines, config.include_normal_comments);
    let rewritten = replacements(&lines, config.width);
    proof {
        let bytes = source.spec_bytes();
        let found = found_lines(bytes, spans@, config.include_normal_comments);
        encode_utf8_valid_utf8(source@);
        lemma_found_lines_fit(bytes, spans@, config.include_normal_comments);
        assert(lines_fit(bytes, models(lines@)));
        lemma_block_rewrites_fit(bytes, models(lines@), 0, config.width as int);
    }
    apply_replacements(source, &rewritten)
}

/// Whether the comments at `spans` can be worked on: whether the spans fit `source` and ascend.
pub fn comments_in_place(source: &str, spans: &[Span]) -> (r: bool)
    ensures
        r == spans_fit(source.spec_bytes(), spans@),
{
    let ghost bytes = source.spec_bytes();
    let starts_of_lines = line_starts(source);
    let mut i: usize = 0;
    while i < spans.len()
        invariant
            i <= spans@.len(),
            bytes == source.spec_bytes(),
            offsets(starts_of_lines@) == starts(bytes),
            spans_fit(bytes, spans@.take(i as int)),
        decreases spans@.len() - i,
    {
        let span: Span = spans[i];
        proof {
            encode_utf8_valid_utf8(source@);
            assert(spans@[i as int] == span);
        }
        if i > 0 && spans[i - 1].start >= span.start {
            return false;
        }
        if span.start > span.end || span.end > source.as_bytes().len() || !source.is_char_boundary(span.start)
            || !source.is_char_boundary(span.end) {
            assert(!span_fits(bytes, spans@[i as int]));
            return false;
        }
        let line: usize = find_line(&starts_of_lines, span.start, Ghost(bytes));
        if span.start > line_end(source, line, &starts_of_lines) {
            assert(!span_fits(bytes, spans@[i as int]));
            return false;
        }
        proof {
            let before = spans@.take(i as int);
            let now = spans@.take(i as int + 1);
            assert(now =~= before.push(span));
            assert(span_fits(bytes, span));
            if i > 0 {
                assert(before[i as int - 1] == spans@[i as int - 1]);
            }
        }
        i = i + 1;
    }
    assert(spans@.take(i as int) =~= spans@);
    true
}

/// What a reflow of the Rust text `source` gives.
pub open spec fn reflow_outcome(source: Seq<char>, config: Config) -> Result<
    Seq<char>,
    ReflowError,
> {
    match rust_syntax(source) {
        Ok(Some(nodes)) => {
            let spans = by_start(line_comments(nodes));
            if spans_fit(encode_utf8(source), spans) {
                Ok(reflowed(source, spans, config))
            } else {
                Err(ReflowError::MisplacedComment)
            }
        },
        Ok(None) => Err(ReflowError::NoTree),
        Err(_) => Err(ReflowError::Grammar),
    }
}

/// Reflows all safe comment blocks of the Rust text `source`.
///
/// The text is parsed, so only what the grammar takes for a line comment is considered: what looks
/// like a comment inside a string or a macro is left alone.
pub fn reflow_source(source: &str, config: Config) -> (r: Result<String, ReflowError>)
    ensures
        match r {
            Ok(text) => reflow_outcome(source@, config) == Ok::<Seq<char>, ReflowError>(text@),
            Err(error) => reflow_outcome(source@, config) == Err::<Seq<char>, ReflowError>(error),
        },
{
    match line_comment_spans(source) {
        Ok(spans) => {
            if !comments_in_place(source, &spans) {
                return Err(ReflowError::MisplacedComment);
            }
            Ok(reflow_spans(source, &spans, config))
        },
        Err(error) => Err(error),
    }
}

/// A reflow fails exactly where the grammar cannot be used, where the parser gives no tree, or where
/// a comment is misplaced: cut out of a character, out of the text or out of a line break, or not
/// behind the comment before it.
pub proof fn lemma_reflow_fails_only_on_bad_syntax(source: Seq<char>, config: Config)
    ensures
        rust_syntax(source) is Err <==> reflow_outcome(source, config) == Err::<
            Seq<char>,
            ReflowError,
        >(ReflowError::Grammar),
        rust_syntax(source) == Ok::<
            Option<Seq<(Seq<char>, usize, usize)>>,
            (),
        >(None) <==> reflow_outcome(source, config) == Err::<Seq<char>, ReflowError>(
            ReflowError::NoTree,
        ),
        rust_syntax(source) is Ok && rust_syntax(source)->Ok_0 is Some ==> (reflow_outcome(
            source,
            config,
        ) is Ok <==> are_in_place(
            encode_utf8(source),
            by_start(line_comments(rust_syntax(source)->Ok_0->0)),
        )),
        rust_syntax(source) is Ok && rust_syntax(source)->Ok_0 is Some && reflow_outcome(
            source,
            config,
        ) is Err ==> reflow_outcome(source, config) == Err::<Seq<char>, ReflowError>(
            ReflowError::MisplacedComment,
        ),
{
}

/// Whether each of `spans` lies between characters of `bytes`, starts within the text of its line,
/// and comes behind those before it.
pub open spec fn are_in_place(bytes: Seq<u8>, spans: Seq<Span>) -> bool {
    &&& forall|i: int|
        #![trigger spans[i]]
        0 <= i < spans.len() ==> {
            &&& spans[i].start <= spans[i].end <= bytes.len()
            &&& is_char_boundary(bytes, spans[i].start as int)
            &&& is_char_boundary(bytes, spans[i].end as int)
            &&& spans[i].start <= text_end(bytes, line_index(bytes, spans[i].start as int))
        }
    &&& forall|i: int, j: int| 0 <= i < j < spans.len() ==> spans[i].start < spans[j].start
}

/// The lines that are worked on are all the lines that the comments make, with the fences among
/// them flagged, and what is written is the source with the rewrites of those lines at that width.
pub proof fn lemma_reflow_works_on_all_comment_lines(
    source: Seq<char>,
    spans: Seq<Span>,
    config: Config,
)
    ensures
        lines_of(source, spans, config.include_normal_comments).len() == found_lines(
            encode_utf8(source),
            spans,
            config.include_normal_comments,
        ).len(),
        lines_of(source, spans, config.include_normal_comments) == with_fences(
            found_lines(encode_utf8(source), spans, config.include_normal_comments),
        ),
        reflowed(source, spans, config) == spliced(
            encode_utf8(source),
            block_rewrites(
                lines_of(source, spans, config.include_normal_comments),
                0,
                config.width as int,
            ),
            0,
        ),
{
}

} // verus!
