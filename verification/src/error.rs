use vstd::prelude::*;

use crate::text::{decimal, push_decimal};

verus! {

/// A parsing or emitting error: a message and, where known, the line and
/// column at which it arose.
#[derive(Debug)]
pub struct Error {
    pub msg: String,
    pub line: Option<usize>,
    pub col: Option<usize>,
}

impl Error {
    /// An error with a message and no position, as `serde`'s `custom` builds.
    pub fn custom(msg: String) -> (e: Error)
        ensures
            e.msg@ == msg@,
            e.line is None,
            e.col is None,
    {
        Error { msg, line: None, col: None }
    }

    /// The text the error is shown as: `Parsing error`, then ` on line L`
    /// and ` pos P` (joined by a comma when both are known), then `: ` and
    /// the message.
    pub open spec fn description(&self) -> Seq<char> {
        let place = match (self.line, self.col) {
            (None, None) => Seq::<char>::empty(),
            (Some(l), None) => " on line "@ + decimal(l as nat),
            (None, Some(p)) => " on pos "@ + decimal(p as nat),
            (Some(l), Some(p)) => " on line "@ + decimal(l as nat) + ", pos "@ + decimal(p as nat),
        };
        "Parsing error"@ + place + ": "@ + self.msg@
    }

    /// Renders the error as text (see [`Error::description`]).
    pub fn describe(&self) -> (r: String)
        ensures
            r@ == self.description(),
    {
        let mut out = String::new();
        out.append("Parsing error");
        match (self.line, self.col) {
            (None, None) => {},
            (Some(l), None) => {
                out.append(" on line ");
                push_decimal(&mut out, l as u64);
            },
            (None, Some(p)) => {
                out.append(" on pos ");
                push_decimal(&mut out, p as u64);
            },
            (Some(l), Some(p)) => {
                out.append(" on line ");
                push_decimal(&mut out, l as u64);
                out.append(", pos ");
                push_decimal(&mut out, p as u64);
            },
        }
        out.append(": ");
        out.append(self.msg.as_str());
        assert(out@ =~= self.description());
        out
    }
}

} // verus!
