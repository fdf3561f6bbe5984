//! What a run over many files does with each of them, and what it reports.

use vstd::prelude::*;

use crate::comment_reflow::reflow::{reflow_outcome, reflow_source, Config};
use crate::comment_reflow::syntax::ReflowError;
use crate::number::{append_decimal, decimal};
use crate::text::{same_text, strings};

verus! {

/// What is to be done with a file.
#[derive(Clone, Copy, Debug, PartialEq, Eq, Structural)]
pub enum FileAction {
    /// The comments are in order.
    Keep,
    /// The comments need a reflow that this run must not write.
    Report,
    /// The reflowed text is to be written.
    Rewrite,
}

/// What is to be done with a file that holds `source`, where its reflow is `reflowed`.
pub open spec fn action_for(source: Seq<char>, reflowed: Seq<char>, write: bool) -> FileAction {
    if source == reflowed {
        FileAction::Keep
    } else if write {
        FileAction::Rewrite
    } else {
        FileAction::Report
    }
}

/// What is to be done with a file that holds `source`, where its reflow is `reflowed`.
pub fn file_action(source: &str, reflowed: &str, write: bool) -> (r: FileAction)
    ensures
        r == action_for(source@, reflowed@, write),
{
    if same_text(source, reflowed) {
        FileAction::Keep
    } else if write {
        FileAction::Rewrite
    } else {
        FileAction::Report
    }
}

/// A run over many files.
#[derive(Debug)]
pub struct Run {
    /// How comments are reflowed.
    pub config: Config,
    /// Whether reflowed files are written.
    pub write: bool,
    /// The paths of the files so far whose comments were not in order.
    pub changed: Vec<String>,
}

/// Whether a run that was `before` takes in a file that holds `source`, gives `r` for it and is
/// `after` then: a file that changes is noted, and its text is given to be written where the run
/// writes.
pub open spec fn takes_in(
    before: Run,
    path: Seq<char>,
    source: Seq<char>,
    r: Result<Option<String>, ReflowError>,
    after: Run,
) -> bool {
    &&& after.config == before.config
    &&& after.write == before.write
    &&& match reflow_outcome(source, before.config) {
        Ok(text) => if text == source {
            &&& r == Ok::<Option<String>, ReflowError>(None)
            &&& after.changed@ == before.changed@
        } else {
            &&& strings(after.changed@) == strings(before.changed@).push(path)
            &&& if before.write {
                r matches Ok(Some(written)) && written@ == text
            } else {
                r == Ok::<Option<String>, ReflowError>(None)
            }
        },
        Err(error) => {
            &&& r == Err::<Option<String>, ReflowError>(error)
            &&& after.changed@ == before.changed@
        },
    }
}

impl Run {
    /// A run that has seen no file.
    pub fn new(width: usize, doc_comments_only: bool, write: bool) -> (r: Run)
        ensures
            r.config.width == width,
            r.config.include_normal_comments == !doc_comments_only,
            r.write == write,
            r.changed@.len() == 0,
    {
        Run {
            config: Config { width, include_normal_comments: !doc_comments_only },
            write,
            changed: Vec::new(),
        }
    }

    /// Takes in a file that holds `source`, and gives the text to write to it, if any.
    pub fn file(&mut self, path: &str, source: &str) -> (r: Result<Option<String>, ReflowError>)
        ensures
            takes_in(*old(self), path@, source@, r, *final(self)),
    {
        let reflowed = match reflow_source(source, self.config) {
            Ok(text) => text,
            Err(error) => {
                return Err(error);
            },
        };
        let action = file_action(source, reflowed.as_str(), self.write);
        if let FileAction::Keep = action {
            return Ok(None);
        }
        let ghost before = strings(self.changed@);
        self.changed.push(String::from_str(path));
        assert(strings(self.changed@) =~= before.push(path@));
        if let FileAction::Rewrite = action {
            return Ok(Some(reflowed));
        }
        Ok(None)
    }
}

/// How a run ends.
#[derive(Debug)]
pub enum Outcome {
    /// Nothing is to be said.
    Quiet,
    /// The run succeeds with a notice.
    Done(String),
    /// The run fails with an error, after these notices.
    Failed(Vec<String>, String),
}

/// The notice that a run which writes ends with.
pub open spec fn reflowed_notice(count: nat) -> Seq<char> {
    "reflowed comments in "@ + decimal(count) + " file(s)"@
}

/// The notice for one file that needs a reflow.
pub open spec fn needs_notice(path: Seq<char>) -> Seq<char> {
    "comments need reflow: "@ + path
}

/// The error of a run that finds files which need a reflow.
pub open spec fn needs_error(count: nat) -> Seq<char> {
    decimal(count) + " file(s) need comment reflow; run `cargo xtask fmt-comments --write`"@
}

/// Whether `r` is how a run ends, given the paths of the files whose comments were not in order.
pub open spec fn is_outcome_of(changed: Seq<String>, write: bool, r: Outcome) -> bool {
    if changed.len() == 0 {
        r == Outcome::Quiet
    } else if write {
        r matches Outcome::Done(notice) && notice@ == reflowed_notice(changed.len())
    } else {
        r matches Outcome::Failed(notices, error) && strings(notices@) == strings(
            changed,
        ).map_values(|path: Seq<char>| needs_notice(path)) && error@ == needs_error(changed.len())
    }
}

/// How a run ends, given the paths of the files whose comments were not in order.
pub fn outcome(changed: &[String], write: bool) -> (r: Outcome)
    ensures
        is_outcome_of(changed@, write, r),
{
    if changed.len() == 0 {
        return Outcome::Quiet;
    }
    let count: u64 = changed.len() as u64;
    if write {
        let mut notice = String::from_str("reflowed comments in ");
        append_decimal(&mut notice, count);
        notice.append(" file(s)");
        return Outcome::Done(notice);
    }
    let mut notices: Vec<String> = Vec::new();
    let mut i: usize = 0;
    while i < changed.len()
        invariant
            i <= changed@.len(),
            notices@.len() == i,
            forall|k: int|
                0 <= k < i ==> (#[trigger] notices@[k])@ == needs_notice(changed@[k]@),
        decreases changed@.len() - i,
    {
        let mut notice = String::from_str("comments need reflow: ");
        notice.append(changed[i].as_str());
        notices.push(notice);
        i = i + 1;
    }
    assert(strings(notices@) =~= strings(changed@).map_values(
        |path: Seq<char>| needs_notice(path),
    ));
    let mut error = String::new();
    append_decimal(&mut error, count);
    error.append(" file(s) need comment reflow; run `cargo xtask fmt-comments --write`");
    assert(error@ =~= needs_error(changed@.len()));
    Outcome::Failed(notices, error)
}

/// A file is left alone exactly where its reflow is the text that it holds; otherwise it is written
/// or reported, as the run was asked to.
pub proof fn lemma_changed_files_are_acted_on(source: Seq<char>, reflowed: Seq<char>, write: bool)
    ensures
        action_for(source, reflowed, write) is Keep <==> source == reflowed,
        action_for(source, reflowed, write) is Rewrite <==> source != reflowed && write,
        action_for(source, reflowed, write) is Report <==> source != reflowed && !write,
{
}

/// Every file whose reflow differs from what it holds is noted, behind the files before it, and no
/// other is; its reflow is given to be written exactly where the run writes. A file that cannot be
/// read as source is an error and leaves the run as it was.
pub proof fn lemma_every_changed_file_is_noted(
    before: Run,
    path: Seq<char>,
    source: Seq<char>,
    r: Result<Option<String>, ReflowError>,
    after: Run,
)
    requires
        takes_in(before, path, source, r, after),
    ensures
        after.config == before.config,
        after.write == before.write,
        r is Err <==> reflow_outcome(source, before.config) is Err,
        strings(after.changed@) == if reflow_outcome(source, before.config) is Ok && reflow_outcome(
            source,
            before.config,
        )->Ok_0 != source {
            strings(before.changed@).push(path)
        } else {
            strings(before.changed@)
        },
        r is Ok && r->Ok_0 is Some <==> reflow_outcome(source, before.config) is Ok && reflow_outcome(
            source,
            before.config,
        )->Ok_0 != source && before.write,
        r is Ok && r->Ok_0 is Some ==> r->Ok_0->0@ == reflow_outcome(source, before.config)->Ok_0,
{
}

/// A run fails exactly where it does not write and some file is not in order. Then every such file
/// has a notice of its own, in their order, and their number is in the error; a run that writes
/// says how many files it wrote.
pub proof fn lemma_every_changed_file_is_reported(changed: Seq<String>, write: bool, r: Outcome)
    requires
        is_outcome_of(changed, write, r),
    ensures
        r is Quiet <==> changed.len() == 0,
        r is Done <==> changed.len() > 0 && write,
        r is Failed <==> changed.len() > 0 && !write,
        r matches Outcome::Done(notice) ==> notice@ == "reflowed comments in "@ + decimal(
            changed.len(),
        ) + " file(s)"@,
        r matches Outcome::Failed(notices, error) ==> {
            &&& notices@.len() == changed.len()
            &&& forall|i: int|
                #![trigger changed[i]]
                0 <= i < changed.len() ==> notices@[i]@ == "comments need reflow: "@ + changed[i]@
            &&& error@ == decimal(changed.len())
                + " file(s) need comment reflow; run `cargo xtask fmt-comments --write`"@
        },
{
    if let Outcome::Failed(notices, error) = r {
        let shown = strings(changed).map_values(|path: Seq<char>| needs_notice(path));
        assert(strings(notices@).len() == notices@.len());
        assert forall|i: int| 0 <= i < changed.len() implies notices@[i]@
            == "comments need reflow: "@ + (#[trigger] changed[i])@ by {
            assert(strings(notices@)[i] == notices@[i]@);
            assert(shown[i] == needs_notice(changed[i]@));
        }
    }
}

} // verus!
