//! Stash entries as a git adapter hands them over: the capability that runs
//! the stash commands, the rules of the adapter that shells out to git, and
//! the reading of the commands' output into entries.

use crate::text::{
    decimal, decimal_text, lemma_lines_hold_no_line_feed, lines, split_lines, LINE_FEED,
};
use std::string::FromUtf8Error;
use vstd::prelude::*;
use vstd::string::*;
use vstd::utf8::*;

verus! {

/// The error of `String::from_utf8`; nothing of it is read.
#[verifier::external_type_specification]
#[verifier::external_body]
pub struct ExFromUtf8Error(FromUtf8Error);

/// `String::from_utf8` succeeds exactly on well-formed UTF-8, and the string
/// it then gives holds the bytes it was given.
pub assume_specification[ String::from_utf8 ](vec: Vec<u8>) -> (result: Result<
    String,
    FromUtf8Error,
>)
    ensures
        result is Ok <==> valid_utf8(vec@),
        result matches Ok(text) ==> encode_utf8(text@) == vec@,
;

/// A failed retrieval, with the message of whoever failed.
#[derive(Debug)]
pub struct GitError {
    msg: String,
}

impl View for GitError {
    type V = Seq<char>;

    closed spec fn view(&self) -> Seq<char> {
        self.msg@
    }
}

/// The message of the error for output that is not UTF-8.
pub open spec fn not_utf8_message() -> Seq<char> {
    "output is not valid UTF-8"@
}

impl GitError {
    /// An error with the message `msg`.
    pub fn new(msg: String) -> (error: GitError)
        ensures
            error@ == msg@,
    {
        GitError { msg }
    }

    /// The message, as the error is shown to a reader.
    pub fn message(&self) -> (msg: String)
        ensures
            msg@ == self@,
    {
        self.msg.clone()
    }
}

/// The text that `bytes` encode, or the error for output that is not UTF-8.
pub fn text_of(bytes: Vec<u8>) -> (result: Result<String, GitError>)
    ensures
        result is Ok <==> valid_utf8(bytes@),
        result matches Ok(text) ==> text@ == decode_utf8(bytes@) && encode_utf8(text@) == bytes@,
        result matches Err(error) ==> error@ == not_utf8_message(),
{
    match String::from_utf8(bytes) {
        Ok(text) => {
            proof {
                encode_utf8_decode_utf8(text@);
            }
            Ok(text)
        },
        Err(_) => Err(GitError::new(String::from_str("output is not valid UTF-8"))),
    }
}

/// The capability to run git's stash commands. Each method hands back what
/// the command wrote, or the error it ended with. An implementor answers for
/// its own output: nothing is promised here of what comes back.
pub trait GitStashExecutable {
    /// Runs `git stash` with the arguments in `command`.
    fn execute_git_stash_command(&self, command: &str) -> Result<Vec<u8>, GitError>;

    /// The summary of the entry with number `n`.
    fn stash_show(&self, n: usize) -> Result<Vec<u8>, GitError>;

    /// The diff of the entry with number `n`.
    fn stash_patch_show(&self, n: usize) -> Result<Vec<u8>, GitError>;
}

/// The adapter that shells out to git: how its command lines read, and what
/// a finished command's exit status and output amount to.
pub struct GitStashExecutor;

impl GitStashExecutor {
    /// The adapter; it holds no state.
    pub fn new() -> Self {
        GitStashExecutor
    }

    /// The shell command line that runs `git stash` with `command`.
    pub fn command_line(&self, command: &str) -> (line: String)
        ensures
            line@ == "git stash "@ + command@,
    {
        String::from_str("git stash ").concat(command)
    }

    /// The stash command that shows the summary of entry `n`.
    pub fn show_command(&self, n: usize) -> (command: String)
        ensures
            command@ == "show stash@{"@ + decimal(n as nat) + "}"@,
    {
        let number = decimal_text(n);
        String::from_str("show stash@{").concat(number.as_str()).concat("}")
    }

    /// The stash command that shows the diff of entry `n`.
    pub fn patch_show_command(&self, n: usize) -> (command: String)
        ensures
            command@ == "show -p stash@{"@ + decimal(n as nat) + "}"@,
    {
        let number = decimal_text(n);
        String::from_str("show -p stash@{").concat(number.as_str()).concat("}")
    }

    /// What a finished command amounts to: its standard output where it
    /// succeeded, else an error whose message is its standard error.
    pub fn outcome(&self, success: bool, stdout: Vec<u8>, stderr: Vec<u8>) -> (result: Result<
        Vec<u8>,
        GitError,
    >)
        ensures
            success ==> result == Ok::<Vec<u8>, GitError>(stdout),
            !success ==> result is Err,
            !success && valid_utf8(stderr@) ==> result->Err_0@ == decode_utf8(stderr@),
            !success && !valid_utf8(stderr@) ==> result->Err_0@ == not_utf8_message(),
    {
        if success {
            Ok(stdout)
        } else {
            match text_of(stderr) {
                Ok(msg) => Err(GitError::new(msg)),
                Err(error) => Err(error),
            }
        }
    }
}

/// A stash entry as the contracts speak of it.
pub ghost struct StashEntry {
    pub number: nat,
    pub list_output: Seq<char>,
    pub show_output: Seq<char>,
    pub patch_show_output: Seq<char>,
}

impl StashEntry {
    /// The bytes of the entry's diff, in which a pattern is looked for.
    pub open spec fn diff(self) -> Seq<u8> {
        encode_utf8(self.patch_show_output)
    }
}

/// One stash entry: its number, its line in the list of entries, its
/// summary and its diff.
#[derive(Debug, PartialEq, Eq, PartialOrd, Ord)]
pub struct GitStash {
    pub number: usize,
    pub list_output: String,
    pub show_output: String,
    pub patch_show_output: String,
}

impl View for GitStash {
    type V = StashEntry;

    open spec fn view(&self) -> StashEntry {
        StashEntry {
            number: self.number as nat,
            list_output: self.list_output@,
            show_output: self.show_output@,
            patch_show_output: self.patch_show_output@,
        }
    }
}

/// The entries that `stashes` stand for, in the same order.
pub open spec fn entries_of(stashes: Seq<GitStash>) -> Seq<StashEntry> {
    stashes.map_values(|stash: GitStash| stash@)
}

impl GitStash {
    /// The entry with number `number` and list line `list_output`, whose
    /// summary and diff are asked of `executor`: first the summary, then the
    /// diff. The first error of the executor is handed on as it is, and
    /// nothing more is asked after it; output that is not UTF-8 is an error
    /// too.
    pub fn new(executor: &impl GitStashExecutable, number: usize, list_output: String) -> (result:
        Result<GitStash, GitError>)
        ensures
            result matches Ok(stash) ==> stash@.number == number && stash@.list_output
                == list_output@,
    {
        let show = match executor.stash_show(number) {
            Ok(bytes) => bytes,
            Err(error) => {
                return Err(error);
            },
        };
        let patch_show = match executor.stash_patch_show(number) {
            Ok(bytes) => bytes,
            Err(error) => {
                return Err(error);
            },
        };
        GitStash::assemble(number, list_output, show, patch_show)
    }

    /// The entry made of a number, a list line and the bytes of a summary
    /// and of a diff; an error where either is not UTF-8.
    pub fn assemble(
        number: usize,
        list_output: String,
        show: Vec<u8>,
        patch_show: Vec<u8>,
    ) -> (result: Result<GitStash, GitError>)
        ensures
            result is Ok <==> valid_utf8(show@) && valid_utf8(patch_show@),
            result matches Ok(stash) ==> stash@ == (StashEntry {
                number: number as nat,
                list_output: list_output@,
                show_output: decode_utf8(show@),
                patch_show_output: decode_utf8(patch_show@),
            }) && stash@.diff() == patch_show@,
            result matches Err(error) ==> error@ == not_utf8_message(),
    {
        let show_output = match text_of(show) {
            Ok(text) => text,
            Err(error) => {
                return Err(error);
            },
        };
        let patch_show_output = match text_of(patch_show) {
            Ok(text) => text,
            Err(error) => {
                return Err(error);
            },
        };
        Ok(GitStash { number, list_output, show_output, patch_show_output })
    }

    /// The entry as it is shown: its list line, then its summary on a new line.
    pub fn render(&self) -> (text: String)
        ensures
            text@ == self@.list_output + "\n"@ + self@.show_output,
    {
        self.list_output.clone().concat("\n").concat(self.show_output.as_str())
    }
}

/// The message of the error for a repository without stash entries.
pub open spec fn no_stashes_message() -> Seq<char> {
    "no stashes"@
}

/// Every line is well-formed UTF-8.
pub open spec fn all_utf8(lines: Seq<Seq<u8>>) -> bool {
    forall|i: int| 0 <= i < lines.len() ==> valid_utf8(#[trigger] lines[i])
}

/// The list lines of the stash entries, in order, read from what the list
/// command wrote: one line for each entry. An empty list is an error, and so
/// is a line that is not UTF-8.
pub fn stash_labels(listing: &[u8]) -> (result: Result<Vec<String>, GitError>)
    ensures
        result is Ok <==> lines(listing@).len() > 0 && all_utf8(lines(listing@)),
        result matches Ok(labels) ==> labels@.len() == lines(listing@).len() && forall|i: int|
            0 <= i < labels@.len() ==> encode_utf8((#[trigger] labels@[i])@) == lines(
                listing@,
            )[i],
        result matches Err(error) ==> error@ == if lines(listing@).len() == 0 {
            no_stashes_message()
        } else {
            not_utf8_message()
        },
{
    let pieces = split_lines(listing);
    if pieces.len() == 0 {
        return Err(GitError::new(String::from_str("no stashes")));
    }
    let ghost all = pieces@;
    let mut labels: Vec<String> = Vec::new();
    for piece in it: pieces.into_iter()
        invariant
            it.seq() == all,
            all.len() == lines(listing@).len(),
            all.len() > 0,
            forall|i: int| 0 <= i < all.len() ==> (#[trigger] all[i])@ == lines(listing@)[i],
            labels@.len() == it.index(),
            forall|i: int|
                0 <= i < labels@.len() ==> valid_utf8(#[trigger] lines(listing@)[i]),
            forall|i: int|
                0 <= i < labels@.len() ==> encode_utf8((#[trigger] labels@[i])@) == lines(
                    listing@,
                )[i],
    {
        match text_of(piece) {
            Ok(label) => {
                labels.push(label);
            },
            Err(error) => {
                return Err(error);
            },
        }
    }
    Ok(labels)
}

/// The entries that the list output `listing` names, numbered from 0 in the
/// order of its lines, each with the summary and the diff that `executor`
/// gives for its number. The first error ends the reading: no part of the
/// entries is handed out then.
pub fn stashes_from_listing(executor: &impl GitStashExecutable, listing: &[u8]) -> (result: Result<
    Vec<GitStash>,
    GitError,
>)
    ensures
        result is Ok ==> lines(listing@).len() > 0 && all_utf8(lines(listing@)),
        result matches Ok(stashes) ==> stashes@.len() == lines(listing@).len() && forall|i: int|
            0 <= i < stashes@.len() ==> (#[trigger] stashes@[i])@.number == i && encode_utf8(
                stashes@[i]@.list_output,
            ) == lines(listing@)[i],
        lines(listing@).len() == 0 ==> result is Err && result->Err_0@ == no_stashes_message(),
        lines(listing@).len() > 0 && !all_utf8(lines(listing@)) ==> result is Err
            && result->Err_0@ == not_utf8_message(),
{
    let labels = match stash_labels(listing) {
        Ok(labels) => labels,
        Err(error) => {
            return Err(error);
        },
    };
    let ghost all = labels@;
    let mut stashes: Vec<GitStash> = Vec::new();
    for label in it: labels.into_iter()
        invariant
            it.seq() == all,
            all.len() == lines(listing@).len(),
            lines(listing@).len() > 0,
            all_utf8(lines(listing@)),
            forall|i: int|
                0 <= i < all.len() ==> encode_utf8((#[trigger] all[i])@) == lines(listing@)[i],
            stashes@.len() == it.index(),
            forall|i: int|
                0 <= i < stashes@.len() ==> (#[trigger] stashes@[i])@.number == i && encode_utf8(
                    stashes@[i]@.list_output,
                ) == lines(listing@)[i],
    {
        let number = stashes.len();
        match GitStash::new(executor, number, label) {
            Ok(stash) => {
                stashes.push(stash);
            },
            Err(error) => {
                return Err(error);
            },
        }
    }
    Ok(stashes)
}

/// `label` is one line: its bytes hold no line feed.
pub open spec fn is_one_line(label: Seq<char>) -> bool {
    !encode_utf8(label).contains(LINE_FEED)
}

/// Every stash entry of the repository that `executor` speaks for, in the
/// order of git's list and numbered from 0, each with one line of that list
/// as its label. An error of the executor, an empty list and output that is
/// not UTF-8 each end in an error.
pub fn get_stashes(executor: impl GitStashExecutable) -> (result: Result<Vec<GitStash>, GitError>)
    ensures
        result matches Ok(stashes) ==> stashes@.len() > 0 && forall|i: int|
            0 <= i < stashes@.len() ==> (#[trigger] stashes@[i])@.number == i && is_one_line(
                stashes@[i]@.list_output,
            ),
{
    let listing = match executor.execute_git_stash_command("list") {
        Ok(bytes) => bytes,
        Err(error) => {
            return Err(error);
        },
    };
    proof {
        lemma_lines_hold_no_line_feed(listing@);
    }
    stashes_from_listing(&executor, listing.as_slice())
}

} // verus!
