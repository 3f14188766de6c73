//! The errors of the engine.

use vstd::prelude::*;
use vstd::string::StringExecFns;

verus! {

/// An error of the operating system's input and output.
#[verifier::external_type_specification]
#[verifier::external_body]
pub struct ExIoError(std::io::Error);

/// What can go wrong in setting up the engine and running it.
#[derive(Debug)]
pub enum Error {
    Config(String),
    Model(String),
    Tokenizer(String),
    Inference(String),
    Io(std::io::Error),
}

/// Calls `ToString::to_string` on an error of `std::io`. The text of such an error comes from the
/// operating system, so nothing is claimed of it.
#[verifier::external_body]
fn io_error_text(e: &std::io::Error) -> (r: String) {
    e.to_string()
}

impl Error {
    /// The kind of error, as it stands in front of the message.
    pub open spec fn label(self) -> Seq<char> {
        match self {
            Error::Config(_) => "config: "@,
            Error::Model(_) => "model: "@,
            Error::Tokenizer(_) => "tokenizer: "@,
            Error::Inference(_) => "inference: "@,
            Error::Io(_) => "io: "@,
        }
    }

    /// The message without its label, which an error of `std::io` has from the operating system.
    pub open spec fn detail(self) -> Option<Seq<char>> {
        match self {
            Error::Config(msg) => Some(msg@),
            Error::Model(msg) => Some(msg@),
            Error::Tokenizer(msg) => Some(msg@),
            Error::Inference(msg) => Some(msg@),
            Error::Io(_) => None,
        }
    }

    /// The error as a line of text: its label, then its message.
    pub fn message(&self) -> (r: String)
        ensures
            self.label().is_prefix_of(r@),
            self.detail() matches Some(msg) ==> r@ == self.label() + msg,
    {
        match self {
            Error::Config(msg) => labelled("config: ", msg.as_str()),
            Error::Model(msg) => labelled("model: ", msg.as_str()),
            Error::Tokenizer(msg) => labelled("tokenizer: ", msg.as_str()),
            Error::Inference(msg) => labelled("inference: ", msg.as_str()),
            Error::Io(e) => labelled("io: ", io_error_text(e).as_str()),
        }
    }
}

fn labelled(label: &str, msg: &str) -> (r: String)
    ensures
        r@ == label@ + msg@,
        label@.is_prefix_of(r@),
{
    let mut out = label.to_owned();
    out.append(msg);
    out
}

impl From<std::io::Error> for Error {
    fn from(e: std::io::Error) -> (r: Self) {
        Error::Io(e)
    }
}

impl vstd::std_specs::convert::FromSpecImpl<std::io::Error> for Error {
    open spec fn obeys_from_spec() -> bool {
        true
    }

    open spec fn from_spec(e: std::io::Error) -> Self {
        Error::Io(e)
    }
}

/// An error is told with its kind and its whole message.
pub proof fn error_is_told_in_full(e: Error, text: String)
    ensures
        Error::Config(text).label() == "config: "@ && Error::Config(text).detail() == Some(text@),
        Error::Model(text).label() == "model: "@ && Error::Model(text).detail() == Some(text@),
        Error::Tokenizer(text).label() == "tokenizer: "@ && Error::Tokenizer(text).detail() == Some(
            text@,
        ),
        Error::Inference(text).label() == "inference: "@ && Error::Inference(text).detail() == Some(
            text@,
        ),
        e is Io ==> e.label() == "io: "@,
{
}

}
