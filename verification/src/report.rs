//! The lines that a run reports: progress with the task's number, and what
//! went wrong with a folder.

use vstd::prelude::*;
use vstd::string::StringExecFns;
use crate::dispatch::{FolderTask, FolderTaskView};
use crate::numeric_order::{all_digits, digit_value, digits_value};
use crate::sort_key::is_digit;

verus! {

/// The character that writes the digit `d`.
pub open spec fn digit_char(d: nat) -> char
    recommends
        d < 10,
{
    ('0' as nat + d) as char
}

/// `n` written in decimal, with no leading zero.
pub open spec fn decimal(n: nat) -> Seq<char>
    decreases n,
{
    if n < 10 {
        seq![digit_char(n)]
    } else {
        decimal(n / 10).push(digit_char(n % 10))
    }
}

/// What was said of a folder went wrong.
#[derive(Clone, Debug, PartialEq, Eq)]
pub enum ArchiveError {
    /// The folder does not exist.
    PathNotFound { folder: String },
    /// What the path names is no directory.
    NotADirectory { folder: String },
    /// The archiver reported a failure, or left no file at the target.
    ArchiveCreationFailed { target: String, status: String },
    /// The archive was made, but the folder could not be removed.
    DeletionFailed { folder: String, reason: String },
}

/// What an error stands for.
pub enum ArchiveErrorView {
    PathNotFound { folder: Seq<char> },
    NotADirectory { folder: Seq<char> },
    ArchiveCreationFailed { target: Seq<char>, status: Seq<char> },
    DeletionFailed { folder: Seq<char>, reason: Seq<char> },
}

impl View for ArchiveError {
    type V = ArchiveErrorView;

    open spec fn view(&self) -> ArchiveErrorView {
        match self {
            ArchiveError::PathNotFound { folder } => ArchiveErrorView::PathNotFound {
                folder: folder@,
            },
            ArchiveError::NotADirectory { folder } => ArchiveErrorView::NotADirectory {
                folder: folder@,
            },
            ArchiveError::ArchiveCreationFailed {
                target,
                status,
            } => ArchiveErrorView::ArchiveCreationFailed { target: target@, status: status@ },
            ArchiveError::DeletionFailed { folder, reason } => ArchiveErrorView::DeletionFailed {
                folder: folder@,
                reason: reason@,
            },
        }
    }
}

/// The line that tells of an error.
pub open spec fn error_message(error: ArchiveErrorView) -> Seq<char> {
    match error {
        ArchiveErrorView::PathNotFound { folder } => folder + " doesn't exist"@,
        ArchiveErrorView::NotADirectory { folder } => folder + " is not a directory"@,
        ArchiveErrorView::ArchiveCreationFailed { target, status } => "Problem creating "@ + target
            + ": "@ + status,
        ArchiveErrorView::DeletionFailed { folder, reason } => "Problem deleting "@ + folder + ": "@
            + reason,
    }
}

/// The progress line of a task: its number and the number of tasks in
/// square brackets, then `what`, then the folder in double quotes and three
/// dots.
pub open spec fn progress_text(task: FolderTaskView, what: Seq<char>) -> Seq<char> {
    "["@ + decimal(task.index) + " / "@ + decimal(task.total) + "] "@ + what + " \""@ + task.folder
        + "\"..."@
}

/// The line that reports the failure of a task: its number and the number
/// of tasks in square brackets, then what went wrong.
pub open spec fn failure_text(task: FolderTaskView, error: ArchiveErrorView) -> Seq<char> {
    "["@ + decimal(task.index) + " / "@ + decimal(task.total) + "] "@ + error_message(error)
}

/// The decimal digits of a number are digits, and they write that number.
pub proof fn lemma_decimal_value(n: nat)
    ensures
        decimal(n).len() > 0,
        all_digits(decimal(n)),
        digits_value(decimal(n)) == n,
    decreases n,
{
    if n < 10 {
        assert(decimal(n).drop_last() =~= Seq::<char>::empty());
        assert(is_digit(digit_char(n)));
        assert(digit_value(digit_char(n)) == n);
        assert(digits_value(decimal(n).drop_last()) == 0);
    } else {
        lemma_decimal_value(n / 10);
        let d = decimal(n);
        assert(d.drop_last() =~= decimal(n / 10));
        assert(is_digit(digit_char(n % 10)));
        assert(digit_value(digit_char(n % 10)) == n % 10);
        assert forall|i: int| 0 <= i < d.len() implies is_digit(#[trigger] d[i]) by {
            if i < d.len() - 1 {
                assert(d[i] == decimal(n / 10)[i]);
            }
        }
    }
}

/// The text of one digit.
fn digit_text(d: usize) -> (text: &'static str)
    requires
        d < 10,
    ensures
        text@ == seq![digit_char(d as nat)],
{
    proof {
        reveal_strlit("0");
        reveal_strlit("1");
        reveal_strlit("2");
        reveal_strlit("3");
        reveal_strlit("4");
        reveal_strlit("5");
        reveal_strlit("6");
        reveal_strlit("7");
        reveal_strlit("8");
        reveal_strlit("9");
    }
    let text = if d == 0 {
        "0"
    } else if d == 1 {
        "1"
    } else if d == 2 {
        "2"
    } else if d == 3 {
        "3"
    } else if d == 4 {
        "4"
    } else if d == 5 {
        "5"
    } else if d == 6 {
        "6"
    } else if d == 7 {
        "7"
    } else if d == 8 {
        "8"
    } else {
        "9"
    };
    assert(text@ =~= seq![digit_char(d as nat)]);
    text
}

/// Writes `n` in decimal.
pub fn decimal_string(n: usize) -> (text: String)
    ensures
        text@ == decimal(n as nat),
    decreases n,
{
    if n < 10 {
        digit_text(n).to_owned()
    } else {
        let mut text = decimal_string(n / 10);
        text.append(digit_text(n % 10));
        assert(text@ =~= decimal(n as nat));
        text
    }
}

/// The progress line of `task`, with `what` saying how far it is.
pub fn progress_line(task: &FolderTask, what: &str) -> (line: String)
    ensures
        line@ == progress_text(task@, what@),
{
    let mut line = "[".to_owned();
    line.append(decimal_string(task.index).as_str());
    line.append(" / ");
    line.append(decimal_string(task.total).as_str());
    line.append("] ");
    line.append(what);
    line.append(" \"");
    line.append(task.folder.as_str());
    line.append("\"...");
    line
}

/// The line that reports that `task` failed with `error`.
pub fn failure_line(task: &FolderTask, error: &ArchiveError) -> (line: String)
    ensures
        line@ == failure_text(task@, error@),
{
    let mut line = "[".to_owned();
    line.append(decimal_string(task.index).as_str());
    line.append(" / ");
    line.append(decimal_string(task.total).as_str());
    line.append("] ");
    line.append(error.message().as_str());
    line
}

impl ArchiveError {
    /// The line that tells of this error.
    pub fn message(&self) -> (line: String)
        ensures
            line@ == error_message(self@),
    {
        match self {
            ArchiveError::PathNotFound { folder } => {
                let mut line = folder.clone();
                line.append(" doesn't exist");
                line
            },
            ArchiveError::NotADirectory { folder } => {
                let mut line = folder.clone();
                line.append(" is not a directory");
                line
            },
            ArchiveError::ArchiveCreationFailed { target, status } => {
                let mut line = "Problem creating ".to_owned();
                line.append(target.as_str());
                line.append(": ");
                line.append(status.as_str());
                line
            },
            ArchiveError::DeletionFailed { folder, reason } => {
                let mut line = "Problem deleting ".to_owned();
                line.append(folder.as_str());
                line.append(": ");
                line.append(reason.as_str());
                line
            },
        }
    }
}

} // verus!
