//! Error values carried out of parsing and rendering: a message, an optional
//! chain of causes, and for command-level failures a process exit code.

use vstd::prelude::*;

use crate::strings::joined;

verus! {

/// Whether an error is plain or carries a process exit code.
#[derive(Debug, Clone, Copy, PartialEq, Eq, Structural)]
pub enum ErrorType {
    Default,
    Command { exit_code: i32 },
}

/// An error with a message and an optional chain of causes.
#[derive(Debug)]
pub struct Error {
    pub error_type: ErrorType,
    message: String,
    source: Option<Box<Error>>,
}

impl Error {
    /// Whether this error is plain or command-level, with its exit code.
    pub closed spec fn kind(self) -> ErrorType {
        self.error_type
    }

    /// This error's own message.
    pub closed spec fn msg(self) -> Seq<char> {
        self.message@
    }

    /// The messages of this error and its chain of causes, outermost first.
    pub closed spec fn message_chain(self) -> Seq<Seq<char>>
        decreases self,
    {
        match self.source {
            Option::Some(b) => seq![self.message@] + (*b).message_chain(),
            Option::None => seq![self.message@],
        }
    }

    /// How many causes hang off this error.
    pub closed spec fn depth(self) -> nat
        decreases self,
    {
        match self.source {
            Option::Some(b) => 1 + (*b).depth(),
            Option::None => 0,
        }
    }

    /// An error with no recorded cause.
    pub fn default(message: String) -> (r: Error)
        ensures
            r.kind() == ErrorType::Default,
            r.msg() == message@,
            r.message_chain() == seq![message@],
    {
        Error { error_type: ErrorType::Default, message, source: None }
    }

    /// An error wrapping the error that caused it.
    pub fn chain(message: String, source: Error) -> (r: Error)
        ensures
            r.kind() == ErrorType::Default,
            r.msg() == message@,
            r.message_chain() == seq![message@] + source.message_chain(),
    {
        Error { error_type: ErrorType::Default, message, source: Some(Box::new(source)) }
    }

    /// A command-level error: a cause plus the exit code to end with.
    pub fn command(message: String, exit_code: i32, source: Error) -> (r: Error)
        ensures
            r.kind() == (ErrorType::Command { exit_code }),
            r.msg() == message@,
            r.message_chain() == seq![message@] + source.message_chain(),
    {
        Error { error_type: ErrorType::Command { exit_code }, message, source: Some(Box::new(source)) }
    }

    /// This error's own message, for display.
    pub fn message(&self) -> (r: String)
        ensures
            r@ == self.msg(),
    {
        self.message.clone()
    }

    /// The message and every cause's message, joined by ". ".
    pub fn full_message(&self) -> (r: String)
        ensures
            r@ == joined(self.message_chain(), ". "@),
        decreases self.depth(),
    {
        match &self.source {
            Option::None => self.message.clone(),
            Option::Some(b) => {
                let rest = b.full_message();
                let mut s = self.message.clone();
                s.append(". ");
                s.append(rest.as_str());
                proof {
                    crate::strings::lemma_joined_concat(
                        seq![self.message@],
                        (*b).message_chain(),
                        ". "@,
                    );
                    lemma_message_chain_len(**b);
                }
                s
            },
        }
    }
}

/// An error's message chain is never empty.
proof fn lemma_message_chain_len(e: Error)
    ensures
        e.message_chain().len() >= 1,
    decreases e,
{
    match e.source {
        Option::Some(b) => lemma_message_chain_len(*b),
        Option::None => {},
    }
}

} // verus!
