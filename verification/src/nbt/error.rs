//! Errors of encoding or decoding binary NBT.
use vstd::prelude::*;
use vstd::string::StringExecFns;

verus! {

#[derive(Debug)]
enum Cause {
    Io(String),
    Owned(String),
    Static(&'static str),
}

/// Errors that can occur when encoding or decoding binary NBT.
#[derive(Debug)]
pub struct Error {
    /// Boxed to keep the size of `Result<T, Error>` small.
    cause: Box<Cause>,
}

impl Error {
    /// Whether the error describes an I/O failure.
    pub closed spec fn is_io(&self) -> bool {
        *self.cause is Io
    }

    /// The description the error was made with.
    pub closed spec fn text(&self) -> Seq<char> {
        match *self.cause {
            Cause::Io(s) => s@,
            Cause::Owned(s) => s@,
            Cause::Static(s) => s@,
        }
    }

    /// The message of the error: I/O errors are prefixed with `I/O error: `.
    pub open spec fn message(&self) -> Seq<char> {
        if self.is_io() {
            "I/O error: "@ + self.text()
        } else {
            self.text()
        }
    }

    /// Creates a new error with an owned string message.
    pub fn new_owned(msg: String) -> (e: Self)
        ensures
            !e.is_io(),
            e.text() == msg@,
    {
        Self { cause: Box::new(Cause::Owned(msg)) }
    }

    /// Creates a new error with a static string message.
    pub fn new_static(msg: &'static str) -> (e: Self)
        ensures
            !e.is_io(),
            e.text() == msg@,
    {
        Self { cause: Box::new(Cause::Static(msg)) }
    }

    /// Creates a new error from an I/O error description.
    pub fn new_io(msg: String) -> (e: Self)
        ensures
            e.is_io(),
            e.text() == msg@,
    {
        Self { cause: Box::new(Cause::Io(msg)) }
    }

    /// The message of the error.
    pub fn to_string(&self) -> (s: String)
        ensures
            s@ == self.message(),
    {
        match &*self.cause {
            Cause::Io(e) => <String as StringExecFns>::from_str("I/O error: ").concat(e.as_str()),
            Cause::Owned(msg) => msg.clone(),
            Cause::Static(msg) => <String as StringExecFns>::from_str(*msg),
        }
    }
}

impl From<&'static str> for Error {
    fn from(msg: &'static str) -> (e: Self) {
        Error { cause: Box::new(Cause::Static(msg)) }
    }
}

impl vstd::std_specs::convert::FromSpecImpl<&'static str> for Error {
    open spec fn obeys_from_spec() -> bool {
        true
    }

    closed spec fn from_spec(msg: &'static str) -> Self {
        Error { cause: Box::new(Cause::Static(msg)) }
    }
}

impl From<String> for Error {
    fn from(msg: String) -> (e: Self) {
        Error { cause: Box::new(Cause::Io(msg)) }
    }
}

impl vstd::std_specs::convert::FromSpecImpl<String> for Error {
    open spec fn obeys_from_spec() -> bool {
        true
    }

    closed spec fn from_spec(msg: String) -> Self {
        Error { cause: Box::new(Cause::Io(msg)) }
    }
}

} // verus!
