use vstd::prelude::*;

verus! {

/// The failures the engine can surface to a caller.
///
/// A cache miss is never an error: it is the normal path into recording.  A
/// stored document whose format version differs from the current one is a
/// silent miss as well, not a `Serialization` failure.
#[derive(Clone, Debug, PartialEq, Eq)]
pub enum Error {
    /// A filesystem operation failed; the message describes it.
    Io(String),
    /// A stored document parsed as a current-version document was expected
    /// but the bytes could not be decoded.
    Serialization,
    /// The live transport failed; its message is passed through verbatim.
    Transport(String),
    /// A replay-only engine met a request without a usable recorded
    /// interaction, so a live call would have been needed.
    ReplayPolicyViolation,
    /// No stub matched the request and the configured default asks for a
    /// failure; holds the unmatched URL.
    UnmatchedStub(String),
    /// A body was asked for as text but is not valid UTF-8.
    InvalidUtf8,
    /// A plain message, for misuses outside the engine's own taxonomy, such
    /// as building a replay client without a recording target.
    Msg(String),
}

impl Error {
    /// A short, stable name for the variant, for diagnostics.
    pub fn kind_name(&self) -> (r: &'static str)
        ensures
            r@ == match self {
                Error::Io(_) => "io"@,
                Error::Serialization => "serialization"@,
                Error::Transport(_) => "transport"@,
                Error::ReplayPolicyViolation => "replay policy violation"@,
                Error::UnmatchedStub(_) => "unmatched stub"@,
                Error::InvalidUtf8 => "invalid utf-8"@,
                Error::Msg(_) => "error"@,
            },
    {
        match self {
            Error::Io(_) => "io",
            Error::Serialization => "serialization",
            Error::Transport(_) => "transport",
            Error::ReplayPolicyViolation => "replay policy violation",
            Error::UnmatchedStub(_) => "unmatched stub",
            Error::InvalidUtf8 => "invalid utf-8",
            Error::Msg(_) => "error",
        }
    }
}

} // verus!
