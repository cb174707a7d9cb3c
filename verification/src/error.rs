//! The error that the analyses report when they refuse an input.
use vstd::prelude::*;
use crate::strings::{append_text, text_from};

verus! {

/// A refused input, with a human-readable explanation.
#[derive(Clone, Debug)]
pub struct SieveError {
    pub message: String,
}

impl SieveError {
    /// An error with the given explanation.
    pub fn new(message: &str) -> (r: SieveError)
        ensures
            r.message@ == message@,
    {
        SieveError { message: text_from(message) }
    }

    /// An error whose explanation starts with the name of the offending item.
    pub fn about_suffix(subject: &str, message: &str) -> (r: SieveError)
        ensures
            r.message@ == subject@ + message@,
    {
        let mut text = text_from(subject);
        append_text(&mut text, message);
        SieveError { message: text }
    }

    /// An error whose explanation ends with the name of the offending item.
    pub fn about(message: &str, subject: &str) -> (r: SieveError)
        ensures
            r.message@ == message@ + subject@,
    {
        let mut text = text_from(message);
        append_text(&mut text, subject);
        SieveError { message: text }
    }
}

} // verus!
