//! Where drawn text goes: a writable sink that may refuse a write.

use vstd::prelude::*;
use vstd::string::StringExecFns;

verus! {

/// The one recoverable failure in this library: the sink refused a write.
#[derive(Debug, Clone, Copy, PartialEq, Eq, Structural)]
pub struct WriteError;

#[verifier::external_type_specification]
#[verifier::external_body]
pub struct ExStderr(std::io::Stderr);

/// A writable sink: the process's standard error stream, or an in-memory
/// buffer, which records everything written and never fails.
pub enum Sink {
    Stderr { stream: std::io::Stderr },
    Buffer { text: String },
}

/// Relies on std::io::Write::write_all for Stderr: it writes the whole byte
/// slice to the standard error stream, or reports an error. Nothing can be
/// promised of the stream, so the contract only converts the outcome.
#[verifier::external_body]
fn stderr_write_all(w: &mut std::io::Stderr, s: &str) -> (r: Result<(), WriteError>) {
    match std::io::Write::write_all(w, s.as_bytes()) {
        Ok(()) => Ok(()),
        Err(_) => Err(WriteError),
    }
}

impl Sink {
    /// Whether this sink records what is written in a buffer.
    pub open spec fn is_buffer(self) -> bool {
        self is Buffer
    }

    /// What a buffer sink has recorded.
    pub open spec fn buffer(self) -> Seq<char> {
        self->Buffer_text@
    }

    /// Write a piece of text: a buffer records it and cannot fail; the
    /// stream may refuse it, which is the caller's error to handle.
    pub fn write_str(&mut self, s: &str) -> (r: Result<(), WriteError>)
        ensures
            old(self).is_buffer() ==> final(self).is_buffer() && final(self).buffer() == old(
                self,
            ).buffer() + s@ && r is Ok,
            !old(self).is_buffer() ==> !final(self).is_buffer(),
    {
        match self {
            Sink::Stderr { stream } => stderr_write_all(stream, s),
            Sink::Buffer { text } => {
                text.append(s);
                Ok(())
            },
        }
    }
}

} // verus!
