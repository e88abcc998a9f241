//! How a program that was run came to its end, and what it left to read.

use vstd::prelude::*;
use vstd::utf8::{decode_utf8, valid_utf8};

use crate::protocol::texts;
use crate::text::{
    chars_of, is_bare, is_blank, law_trim_takes_white_space, string_of, trim, trimmed,
};

verus! {

broadcast use vstd::string::group_string_axioms;

/// A program to run.
#[derive(Debug)]
pub struct Call {
    pub program: String,
    pub args: Vec<String>,
    /// After how many seconds it is given up and killed.
    pub limit: u64,
}

pub struct CallView {
    pub program: Seq<char>,
    pub args: Seq<Seq<char>>,
    pub limit: u64,
}

impl View for Call {
    type V = CallView;

    open spec fn view(&self) -> CallView {
        CallView { program: self.program@, args: texts(self.args@), limit: self.limit }
    }
}

/// Why the system could not run a program.
#[derive(Debug)]
pub struct IoError {
    /// There is no such program.
    pub not_found: bool,
    /// What the system said.
    pub message: String,
}

pub struct IoErrorView {
    pub not_found: bool,
    pub message: Seq<char>,
}

impl View for IoError {
    type V = IoErrorView;

    open spec fn view(&self) -> IoErrorView {
        IoErrorView { not_found: self.not_found, message: self.message@ }
    }
}

/// What a program that ended left behind.
#[derive(Debug)]
pub struct Output {
    pub success: bool,
    /// The exit status in words.
    pub status: String,
    pub stdout: Vec<u8>,
    pub stderr: Vec<u8>,
}

/// How a program that was run came to its end.
#[derive(Debug)]
pub enum Run {
    /// It could not be started or waited for.
    NotRun(IoError),
    /// It took too long and was killed.
    TimedOut,
    Ended(Output),
}

/// What a look at a program that was started found.
#[derive(Debug, Clone, Copy, PartialEq, Eq, Structural)]
pub enum ChildState {
    Running,
    Ended,
    /// The system could not tell.
    Unknown,
}

/// What `String::from_utf8_lossy` makes of a row of bytes.
pub uninterp spec fn utf8_lossy(bytes: Seq<u8>) -> Seq<char>;

/// `String::from_utf8_lossy` of the standard library: bytes that are UTF-8 are
/// decoded, and others get a replacement character where they are not; what
/// exactly is replaced has a name here and no statement.
#[verifier::external_body]
pub(crate) fn decoded(bytes: &[u8]) -> (r: String)
    ensures
        r@ == utf8_lossy(bytes@),
        valid_utf8(bytes@) ==> r@ == decode_utf8(bytes@),
{
    String::from_utf8_lossy(bytes).into_owned()
}

/// What a program said of its failure: its own words without the white space
/// around them.
pub open spec fn complaint(stderr: Seq<char>) -> Seq<char> {
    trim(stderr)
}

/// What to report of a failure: the program's own words, or its exit status
/// where it said nothing.
pub open spec fn complaint_or_status(stderr: Seq<char>, status: Seq<char>) -> Seq<char> {
    if complaint(stderr).len() == 0 {
        "código "@ + status
    } else {
        complaint(stderr)
    }
}

/// What a program said of its failure.
pub fn complaint_of(stderr: &str) -> (r: String)
    ensures
        r@ == complaint(stderr@),
{
    let chars = chars_of(stderr);
    string_of(trimmed(chars.as_slice()))
}

/// What to report of a failure.
pub fn complaint_or_status_of(stderr: &str, status: &str) -> (r: String)
    ensures
        r@ == complaint_or_status(stderr@, status@),
{
    let words = complaint_of(stderr);
    if words.as_str().is_empty() {
        let mut r = "código ".to_owned();
        r.append(status);
        r
    } else {
        words
    }
}

/// Adds an argument to a command line.
pub fn push_arg(args: &mut Vec<String>, arg: &str)
    ensures
        texts(final(args)@) == texts(old(args)@).push(arg@),
{
    let ghost before = texts(args@);
    args.push(arg.to_owned());
    assert(texts(args@) == before.push(arg@));
}

/// Adds an argument that ends with a value to a command line.
pub fn push_arg_with(args: &mut Vec<String>, name: &str, value: &str)
    ensures
        texts(final(args)@) == texts(old(args)@).push(name@ + value@),
{
    let ghost before = texts(args@);
    let arg = name.to_owned().concat(value);
    args.push(arg);
    assert(texts(args@) == before.push(arg@));
}

/// A failure is told in the program's own words, without the white space around
/// them; where it said nothing but white space, its exit status is told.
pub proof fn law_a_failure_is_told_in_the_words_of_the_program(
    before: Seq<char>,
    said: Seq<char>,
    after: Seq<char>,
    status: Seq<char>,
)
    requires
        is_blank(before),
        is_bare(said),
        is_blank(after),
    ensures
        complaint(before + said + after) == said,
        complaint_or_status(before + said + after, status) == (if said.len() > 0 {
            said
        } else {
            "código "@ + status
        }),
{
    law_trim_takes_white_space(before, said, after);
}

/// What a program to run and an error of the system are is all of their fields.
pub proof fn law_every_part_of_a_call_counts(call: Call, err: IoError)
    ensures
        call@.program == call.program@,
        call@.args == texts(call.args@),
        call@.limit == call.limit,
        err@.not_found == err.not_found,
        err@.message == err.message@,
{
}

} // verus!
