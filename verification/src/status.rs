//! Engine-wide error type.
//!
//! [`Status`] carries a [`Code`] and a human-readable message. Every
//! fallible path of the crate returns [`Result`].

use vstd::prelude::*;

verus! {

/// Outcome of a fallible operation.
pub type Result<T> = std::result::Result<T, Status>;

/// What went wrong, as a class.
#[derive(Debug, Copy, Clone, PartialEq, Eq, Structural)]
pub enum Code {
    Okay,
    NotFound,
    Corruption,
    NotSupported,
    InvalidArgument,
    IoError,
}

/// An error class together with a message.
#[derive(Debug)]
pub struct Status {
    code: Code,
    message: String,
}

/// Joins two strings.
fn concat(first: &str, second: &str) -> (joined: String)
    ensures
        joined@ == first@ + second@,
{
    let mut joined = String::new();
    joined.append(first);
    joined.append(second);
    assert(joined@ =~= first@ + second@);
    joined
}

impl Status {
    /// The class of this status.
    pub closed spec fn kind(&self) -> Code {
        self.code
    }

    /// The message of this status.
    pub closed spec fn text(&self) -> Seq<char> {
        self.message@
    }

    /// Whether this status has the given class and message.
    pub open spec fn says(&self, kind: Code, text: Seq<char>) -> bool {
        self.kind() == kind && self.text() == text
    }

    /// How a status is shown to a person.
    pub open spec fn rendered(&self) -> Seq<char> {
        match self.kind() {
            Code::Okay => "OK"@,
            Code::NotFound => "NotFound: "@ + self.text(),
            Code::Corruption => "Corruption: "@ + self.text(),
            Code::NotSupported => "Not implemented: "@ + self.text(),
            Code::InvalidArgument => "Invalid argument: "@ + self.text(),
            Code::IoError => "IO error: "@ + self.text(),
        }
    }

    pub fn ok() -> (status: Self)
        ensures
            status.says(Code::Okay, Seq::empty()),
    {
        Status { code: Code::Okay, message: String::new() }
    }

    fn new(code: Code, message: &str) -> (status: Self)
        requires
            code != Code::Okay,
        ensures
            status.says(code, message@),
    {
        Status { code, message: message.to_owned() }
    }

    pub fn not_found(message: &str) -> (status: Self)
        ensures
            status.says(Code::NotFound, message@),
    {
        Self::new(Code::NotFound, message)
    }

    pub fn corruption(message: &str) -> (status: Self)
        ensures
            status.says(Code::Corruption, message@),
    {
        Self::new(Code::Corruption, message)
    }

    pub fn not_supported(message: &str) -> (status: Self)
        ensures
            status.says(Code::NotSupported, message@),
    {
        Self::new(Code::NotSupported, message)
    }

    pub fn invalid_argument(message: &str) -> (status: Self)
        ensures
            status.says(Code::InvalidArgument, message@),
    {
        Self::new(Code::InvalidArgument, message)
    }

    pub fn io_error(message: &str) -> (status: Self)
        ensures
            status.says(Code::IoError, message@),
    {
        Self::new(Code::IoError, message)
    }

    /// A status whose message is followed by a context, unless the
    /// context is empty.
    pub fn with_context(code: Code, message: &str, context: &str) -> (status: Self)
        requires
            code != Code::Okay,
        ensures
            status.says(
                code,
                if context@.len() == 0 {
                    message@
                } else {
                    message@ + ": "@ + context@
                },
            ),
    {
        if context.is_empty() {
            Self::new(code, message)
        } else {
            let head = concat(message, ": ");
            let whole = concat(head.as_str(), context);
            Self::new(code, whole.as_str())
        }
    }

    pub fn code(&self) -> (code: Code)
        ensures
            code == self.kind(),
    {
        self.code
    }

    pub fn message(&self) -> (message: &str)
        ensures
            message@ == self.text(),
    {
        self.message.as_str()
    }

    pub fn is_ok(&self) -> (answer: bool)
        ensures
            answer == (self.kind() == Code::Okay),
    {
        self.code == Code::Okay
    }

    pub fn is_not_found(&self) -> (answer: bool)
        ensures
            answer == (self.kind() == Code::NotFound),
    {
        self.code == Code::NotFound
    }

    pub fn is_corruption(&self) -> (answer: bool)
        ensures
            answer == (self.kind() == Code::Corruption),
    {
        self.code == Code::Corruption
    }

    pub fn is_not_supported(&self) -> (answer: bool)
        ensures
            answer == (self.kind() == Code::NotSupported),
    {
        self.code == Code::NotSupported
    }

    pub fn is_invalid_argument(&self) -> (answer: bool)
        ensures
            answer == (self.kind() == Code::InvalidArgument),
    {
        self.code == Code::InvalidArgument
    }

    pub fn is_io_error(&self) -> (answer: bool)
        ensures
            answer == (self.kind() == Code::IoError),
    {
        self.code == Code::IoError
    }

    /// The status as one line of text.
    pub fn render(&self) -> (line: String)
        ensures
            line@ == self.rendered(),
    {
        match self.code {
            Code::Okay => "OK".to_owned(),
            Code::NotFound => concat("NotFound: ", self.message.as_str()),
            Code::Corruption => concat("Corruption: ", self.message.as_str()),
            Code::NotSupported => concat("Not implemented: ", self.message.as_str()),
            Code::InvalidArgument => concat("Invalid argument: ", self.message.as_str()),
            Code::IoError => concat("IO error: ", self.message.as_str()),
        }
    }
}

impl Clone for Status {
    fn clone(&self) -> (copy: Self)
        ensures
            copy == *self,
    {
        Status { code: self.code, message: self.message.clone() }
    }
}

impl Default for Status {
    fn default() -> (status: Self)
        ensures
            status.says(Code::Okay, Seq::empty()),
    {
        Self::ok()
    }
}

} // verus!
