//! The library's error value.

use vstd::prelude::*;

verus! {

/// An error with a human-readable message.
#[derive(Debug, Clone)]
pub struct Error {
    pub message: String,
}

impl Error {
    /// An error whose message is `id: s`, with `id` defaulting to a generic label.
    pub fn new(id: Option<&str>, s: &str) -> (r: Error)
        ensures
            r.message@ == (match id {
                Some(i) => i@,
                None => "Hyoubkp error"@,
            }) + ": "@ + s@,
    {
        let mut m = match id {
            Some(i) => String::from_str(i),
            None => String::from_str("Hyoubkp error"),
        };
        m.append(": ");
        m.append(s);
        Error { message: m }
    }
}

} // verus!
