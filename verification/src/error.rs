//! The error that a merge run reports, and its conversions from the errors
//! of the crates that a run touches.

use vstd::prelude::*;
use vstd::string::StringExecFns;

verus! {

/// `std::io::Error`, carried through as it is: nothing is known of what it
/// holds.
#[verifier::external_type_specification]
#[verifier::external_body]
pub struct ExIoError(std::io::Error);

/// `serde_json::Error`, carried through as it is: nothing is known of what
/// it holds.
#[verifier::external_type_specification]
#[verifier::external_body]
pub struct ExJsonError(serde_json::Error);

/// A failed run, with the message to show.
#[derive(Debug)]
pub struct MrgError {
    pub msg: String,
}

/// The message of an error that arose in `context` and whose cause reads
/// `cause`.
pub open spec fn message_of(context: Seq<char>, cause: Seq<char>) -> Seq<char> {
    context + cause
}

/// `std::io::Error`'s `Display`, through `to_string`. The text depends on the
/// error and, for errors of the operating system, on the machine: nothing is
/// claimed of it.
#[verifier::external_body]
fn io_error_text(e: &std::io::Error) -> String {
    e.to_string()
}

/// `serde_json::Error`'s `Display`, through `to_string`: the cause and the
/// line and column at which parsing stopped. Nothing is claimed of the text.
#[verifier::external_body]
fn json_error_text(e: &serde_json::Error) -> String {
    e.to_string()
}

impl MrgError {
    /// The error whose message is `context` followed by `cause`.
    pub fn because(context: &str, cause: &str) -> (r: MrgError)
        ensures
            r.msg@ == message_of(context@, cause@),
    {
        MrgError { msg: String::from_str(context).concat(cause) }
    }

    /// The message, as `Display` would show it.
    pub fn to_string(&self) -> (r: String)
        ensures
            r@ == self.msg@,
    {
        self.msg.clone()
    }
}

/// The conversion from `std::io::Error` is specified by the `ensures` of
/// `from` below, over the view of the message; there is no value of
/// `MrgError` to name in a specification, a `String` having no constructor
/// there.
impl vstd::std_specs::convert::FromSpecImpl<std::io::Error> for MrgError {
    open spec fn obeys_from_spec() -> bool {
        false
    }

    open spec fn from_spec(value: std::io::Error) -> MrgError {
        arbitrary()
    }
}

impl From<std::io::Error> for MrgError {
    /// The error of a failed read or write: its message is
    /// `cannot perform IO: ` followed by what the I/O error displays.
    fn from(value: std::io::Error) -> (r: MrgError)
        ensures
            "cannot perform IO: "@.is_prefix_of(r.msg@),
    {
        let cause = io_error_text(&value);
        MrgError::because("cannot perform IO: ", cause.as_str())
    }
}

/// The conversion from `serde_json::Error` is specified by the `ensures` of
/// `from` below, in the same way.
impl vstd::std_specs::convert::FromSpecImpl<serde_json::Error> for MrgError {
    open spec fn obeys_from_spec() -> bool {
        false
    }

    open spec fn from_spec(value: serde_json::Error) -> MrgError {
        arbitrary()
    }
}

impl From<serde_json::Error> for MrgError {
    /// The error of a text that is no JSON: its message is
    /// `cannot parse JSON: ` followed by what the JSON error displays.
    fn from(value: serde_json::Error) -> (r: MrgError)
        ensures
            "cannot parse JSON: "@.is_prefix_of(r.msg@),
    {
        let cause = json_error_text(&value);
        MrgError::because("cannot parse JSON: ", cause.as_str())
    }
}

} // verus!
