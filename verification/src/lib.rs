//! Finds the stash entries of a repository whose diff contains a literal pattern.

pub mod bm;
pub mod git_stash;
pub mod scan;
pub mod text;

use crate::git_stash::{entries_of, get_stashes, GitError, GitStash, GitStashExecutable};
use crate::scan::{find_matches, is_match, is_report, lemma_report, strictly_ascending};
use vstd::prelude::*;
use vstd::string::*;
use vstd::utf8::*;

verus! {

/// What the user asks for.
pub struct Arg {
    /// string to search
    pub string: String,
}

/// Why a run found nothing to report.
#[derive(Debug)]
pub enum RunError {
    /// The pattern is empty.
    EmptyPattern,
    /// The stash entries could not be had.
    Retrieval(GitError),
}

/// The report for `pattern`, given what the retrieval of the stash entries
/// came to: its error as it is, or the selection from its entries.
pub fn report(retrieved: Result<Vec<GitStash>, GitError>, pattern: &str) -> (result: Result<
    Vec<GitStash>,
    RunError,
>)
    requires
        pattern@.len() > 0,
    ensures
        retrieved matches Err(error) ==> result == Err::<Vec<GitStash>, RunError>(
            RunError::Retrieval(error),
        ),
        retrieved matches Ok(entries) ==> result is Ok && is_report(
            entries_of(entries@),
            pattern.spec_bytes(),
            entries_of(result->Ok_0@),
        ),
{
    match retrieved {
        Ok(entries) => Ok(find_matches(entries, pattern)),
        Err(error) => Err(RunError::Retrieval(error)),
    }
}

/// The stash entries of the repository that `executor` speaks for whose
/// diff holds the string of `arg`, in the order of their numbers. An empty
/// string is refused before anything is asked of the executor; a failed
/// retrieval is handed on, and no part of a report comes with it.
pub fn run(arg: Arg, executor: impl GitStashExecutable) -> (result: Result<Vec<GitStash>, RunError>)
    ensures
        arg.string@.len() == 0 <==> result matches Err(RunError::EmptyPattern),
        result matches Ok(found) ==> strictly_ascending(entries_of(found@)) && forall|k: int|
            0 <= k < found@.len() ==> is_match(
                #[trigger] entries_of(found@)[k],
                encode_utf8(arg.string@),
            ),
{
    if arg.string.as_str().is_empty() {
        return Err(RunError::EmptyPattern);
    }
    let retrieved = get_stashes(executor);
    let ghost entries = if retrieved is Ok {
        entries_of(retrieved->Ok_0@)
    } else {
        Seq::empty()
    };
    let result = report(retrieved, arg.string.as_str());
    proof {
        if result is Ok {
            lemma_report(entries, encode_utf8(arg.string@), entries_of(result->Ok_0@));
        }
    }
    result
}

} // verus!
