//! The classification error taxonomy. Each variant names the first check a
//! malformed filename fails; a classification error is permanent for that
//! filename and is reported upward, never retried or recovered.

use vstd::prelude::*;

verus! {

/// Why a filename could not be turned into an archive destination.
#[derive(Debug, Clone, Copy, PartialEq, Eq, Structural)]
pub enum ProcessError {
    /// The filename has no extension after its last `.`.
    Extension,
    /// The filename has no usable stem. Classification of a plain string
    /// never produces this variant itself (a stem can always be obtained); a
    /// caller reports a filename it cannot decode as text under it.
    Parts,
    /// The stem does not contain the separator character at all.
    Separator,
    /// The date segment is not exactly eight ASCII digits, or one of its
    /// fields exceeds its ceiling.
    Date,
}

impl ProcessError {
    pub fn extension() -> (e: Self)
        ensures
            e == ProcessError::Extension,
    {
        ProcessError::Extension
    }

    pub fn parts() -> (e: Self)
        ensures
            e == ProcessError::Parts,
    {
        ProcessError::Parts
    }

    pub fn separator() -> (e: Self)
        ensures
            e == ProcessError::Separator,
    {
        ProcessError::Separator
    }

    pub fn date() -> (e: Self)
        ensures
            e == ProcessError::Date,
    {
        ProcessError::Date
    }

    /// The human-readable description of this error.
    pub open spec fn spec_message(self) -> Seq<char> {
        match self {
            ProcessError::Extension => "Extension Error: No valid file extension."@,
            ProcessError::Parts => "Parts Error: File name does not contain expected parts."@,
            ProcessError::Separator => "Separator Error: File name does not contain expected separator: _."@,
            ProcessError::Date => "Date Error: No valid date format."@,
        }
    }

    /// Returns the human-readable description of this error.
    pub fn message(&self) -> (m: &'static str)
        ensures
            m@ == self.spec_message(),
    {
        match self {
            ProcessError::Extension => "Extension Error: No valid file extension.",
            ProcessError::Parts => "Parts Error: File name does not contain expected parts.",
            ProcessError::Separator => "Separator Error: File name does not contain expected separator: _.",
            ProcessError::Date => "Date Error: No valid date format.",
        }
    }
}

} // verus!
