//! The library's error kinds and their messages.

use vstd::prelude::*;

use crate::text::push_str;

verus! {

/// Errors of the proxy.
pub enum CandyError {
    Parse(String),
    NotFound,
    UnknownFileType { file: String },
    Unknown,
}

/// Name for what `format!("{:?}", s)` writes for a string: the string in double
/// quotes, with escapes.
pub uninterp spec fn debug_quoted(s: Seq<char>) -> Seq<char>;

/// Calls `format!("{:?}", s)`, the `Debug` text of a string. Claimed: the result is
/// `debug_quoted` of the string.
#[verifier::external_body]
fn debug_text(s: &String) -> (r: String)
    ensures
        r@ == debug_quoted(s@),
{
    format!("{:?}", s)
}

/// The message of each error.
pub open spec fn candy_message(e: CandyError) -> Seq<char> {
    match e {
        CandyError::Parse(_) => "can not parse target"@,
        CandyError::NotFound => "page not found"@,
        CandyError::UnknownFileType { file } => "unknown file type, found file "@ + debug_quoted(
            file@,
        ),
        CandyError::Unknown => "unknown data store error"@,
    }
}

impl CandyError {
    /// The error's message.
    pub fn message(&self) -> (r: String)
        ensures
            r@ == candy_message(*self),
    {
        match self {
            CandyError::Parse(_) => String::from_str("can not parse target"),
            CandyError::NotFound => String::from_str("page not found"),
            CandyError::UnknownFileType { file } => {
                let mut out = String::from_str("unknown file type, found file ");
                let quoted = debug_text(file);
                push_str(&mut out, quoted.as_str());
                out
            },
            CandyError::Unknown => String::from_str("unknown data store error"),
        }
    }
}

} // verus!
