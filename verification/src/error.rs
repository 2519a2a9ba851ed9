//! What the library refuses, and why.

use crate::text::{digits, push_digits};
use vstd::prelude::*;
use vstd::string::StringExecFns;

verus! {

/// Why an operation was refused. Nothing is applied in part: an operation that
/// returns an error has changed nothing.
#[derive(Clone, Copy, Debug, PartialEq, Eq, Structural)]
pub enum Error {
    /// The entry at `index` has no content version, so it is neither live nor
    /// deleted.
    EmptyHistory { index: usize },
    /// The file at `index` of the snapshot sits at a path whose entry is
    /// deleted, and the caller did not ask for such files to be removed.
    Conflict { index: usize },
    /// Both sides of a comparison are the same entry.
    SelfComparison,
    /// The ranked listing has no position `number`.
    NoSuchItem { number: usize },
    /// A pair was asked of fewer than two entries.
    TooFewEntries,
    /// The sampler refused the weights it was given.
    InvalidWeight,
    /// The latest content of the entry at `index` is not valid UTF-8, so it
    /// cannot be shown.
    NotText { index: usize },
    /// The latest version of the entry at `index` has a timestamp beyond the
    /// dates that can be shown.
    TimeOutOfRange { index: usize },
    /// A new entry was to be stored under a path that is already known.
    KnownPath,
    /// A version was to be stored for a path that is not known.
    UnknownPath,
}

impl Error {
    /// The error in words.
    pub open spec fn message_text(self) -> Seq<char> {
        match self {
            Error::EmptyHistory { index } => "entry "@ + digits(index as nat)
                + " has no content version"@,
            Error::Conflict { index } => "file "@ + digits(index as nat)
                + " exists at a path that is stored as deleted"@,
            Error::SelfComparison => "an entry cannot be compared with itself"@,
            Error::NoSuchItem { number } => "no item "@ + digits(number as nat) + " found"@,
            Error::TooFewEntries => "fewer than two entries to compare"@,
            Error::InvalidWeight => "the sampler refused the weights"@,
            Error::NotText { index } => "entry "@ + digits(index as nat) + " is not valid UTF-8"@,
            Error::TimeOutOfRange { index } => "entry "@ + digits(index as nat)
                + " has a timestamp out of range"@,
            Error::KnownPath => "the path is already known"@,
            Error::UnknownPath => "the path is not known"@,
        }
    }

    /// The error in words, for the user.
    pub fn message(&self) -> (text: String)
        ensures
            text@ == self.message_text(),
    {
        match self {
            Error::EmptyHistory { index } => {
                let mut text = String::from_str("entry ");
                push_digits(&mut text, *index as u64);
                text.append(" has no content version");
                text
            },
            Error::Conflict { index } => {
                let mut text = String::from_str("file ");
                push_digits(&mut text, *index as u64);
                text.append(" exists at a path that is stored as deleted");
                text
            },
            Error::SelfComparison => String::from_str("an entry cannot be compared with itself"),
            Error::NoSuchItem { number } => {
                let mut text = String::from_str("no item ");
                push_digits(&mut text, *number as u64);
                text.append(" found");
                text
            },
            Error::TooFewEntries => String::from_str("fewer than two entries to compare"),
            Error::InvalidWeight => String::from_str("the sampler refused the weights"),
            Error::NotText { index } => {
                let mut text = String::from_str("entry ");
                push_digits(&mut text, *index as u64);
                text.append(" is not valid UTF-8");
                text
            },
            Error::TimeOutOfRange { index } => {
                let mut text = String::from_str("entry ");
                push_digits(&mut text, *index as u64);
                text.append(" has a timestamp out of range");
                text
            },
            Error::KnownPath => String::from_str("the path is already known"),
            Error::UnknownPath => String::from_str("the path is not known"),
        }
    }
}

} // verus!
