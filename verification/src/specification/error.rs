//! Specification errors.

use vstd::prelude::*;
use crate::num::decimal;
use crate::text::{owned, push_str};

verus! {

/// A specification-level error, optionally carrying the position in the
/// source document that produced it.
#[derive(Debug, Clone, PartialEq, Eq)]
pub struct Error {
    pub message: String,
    pub position: Option<(usize, usize)>,
    /// The specification file the error came from, when it was read from disk.
    pub file: Option<String>,
}

/// What `Error::to_string` shows.
pub open spec fn error_text(e: Error) -> Seq<char> {
    (match e.file {
        Some(f) => f@ + ": "@,
        None => seq![],
    }) + (match e.position {
        Some((line, col)) => "line "@ + decimal(line as nat) + ", column "@ + decimal(col as nat)
            + ": "@,
        None => seq![],
    }) + e.message@
}

impl Error {
    pub fn new(message: String) -> (e: Error)
        ensures
            e.message@ == message@,
            e.position is None,
            e.file is None,
    {
        Error { message, position: None, file: None }
    }

    /// Values injected by `--set` carry no source position; line 0 marks them.
    pub fn at(line: usize, col: usize, message: String) -> (e: Error)
        ensures
            e.message@ == message@,
            e.position == (if line > 0 {
                Some((line, col))
            } else {
                None
            }),
            e.file is None,
    {
        Error { message, position: if line > 0 { Some((line, col)) } else { None }, file: None }
    }

    pub fn in_file(self, file: String) -> (e: Error)
        ensures
            e.message@ == self.message@,
            e.position == self.position,
            e.file matches Some(f) && f@ == file@,
    {
        Error { message: self.message, position: self.position, file: Some(file) }
    }

    /// The file, the position and the message, as a diagnostic line.
    pub fn to_string(&self) -> (s: String)
        ensures
            s@ == error_text(*self),
    {
        let mut out = String::new();
        match &self.file {
            Some(f) => {
                push_str(&mut out, f.as_str());
                push_str(&mut out, ": ");
            },
            None => {},
        }
        match self.position {
            Some((line, col)) => {
                push_str(&mut out, "line ");
                let l = crate::num::usize_to_string(line);
                push_str(&mut out, l.as_str());
                push_str(&mut out, ", column ");
                let c = crate::num::usize_to_string(col);
                push_str(&mut out, c.as_str());
                push_str(&mut out, ": ");
            },
            None => {},
        }
        push_str(&mut out, self.message.as_str());
        assert(out@ =~= error_text(*self));
        out
    }
}

pub fn message(text: &str) -> (e: Error)
    ensures
        e.message@ == text@,
        e.position is None,
        e.file is None,
{
    Error::new(owned(text))
}

} // verus!
