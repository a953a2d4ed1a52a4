//! Failures that carry the place in the text where they arose.

use vstd::prelude::*;
use vstd::string::StringExecFns;
use crate::location::{path_text, path_to_string, Location};
use crate::text::{decimal_text, push_decimal};

verus! {

/// A kind of failure that can say in words what went wrong.
pub trait Describe {
    /// The words.
    spec fn description(&self) -> Seq<char>;

    fn describe(&self) -> (r: String)
        ensures
            r@ == self.description(),
    ;
}

/// A place as it is shown in front of a message: the path, if there is one,
/// then line and column, separated by colons.
pub open spec fn place_text(l: Location) -> Seq<char> {
    match l.path {
        Some(p) => path_text(p) + seq![':'] + decimal_text(l.line as nat) + seq![':']
            + decimal_text(l.column as nat),
        None => decimal_text(l.line as nat) + seq![':'] + decimal_text(l.column as nat),
    }
}

/// A message as it is shown to a user: the place, a colon and a space, and
/// the message.
pub open spec fn located_text(l: Location, message: Seq<char>) -> Seq<char> {
    place_text(l) + seq![':', ' '] + message
}

/// Appends the place as `place_text` gives it.
pub fn push_place(out: &mut String, l: &Location)
    ensures
        final(out)@ == old(out)@ + place_text(*l),
{
    match &l.path {
        Some(p) => {
            let shown = path_to_string(p);
            out.append(shown.as_str());
            out.push(':');
        },
        None => {},
    }
    push_decimal(out, l.line);
    out.push(':');
    push_decimal(out, l.column);
}

/// The place, a colon and a space, and the message, in one string.
pub fn located(l: &Location, message: &str) -> (r: String)
    ensures
        r@ == located_text(*l, message@),
{
    let mut out = String::new();
    push_place(&mut out, l);
    out.push(':');
    out.push(' ');
    out.append(message);
    out
}

/// A failure of one stage of reading, and where in the text it arose.
#[derive(Debug, Clone, PartialEq)]
pub struct Error<Kind> {
    pub kind: Kind,
    pub location: Location,
}

impl<Kind: Describe> Error<Kind> {
    /// The failure as it is shown to a user.
    pub fn to_string(&self) -> (r: String)
        ensures
            r@ == located_text(self.location, self.kind.description()),
    {
        let message = self.kind.describe();
        located(&self.location, message.as_str())
    }
}

} // verus!
