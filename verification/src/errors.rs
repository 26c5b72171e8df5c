//! The error taxonomy of the pipeline.

use vstd::prelude::*;

verus! {

/// Every failure the pipeline distinguishes.
///
/// - `Transport`: network or DNS failure; the caller may retry.
/// - `Blocked`: an anti-automation challenge was detected.
/// - `InvalidCredentials`: the origin explicitly refused the credentials;
///   never retried automatically.
/// - `SessionExpired`: the session must be renewed; callers re-login and
///   retry exactly once.
/// - `Parse`: malformed HTML at a level that could not be absorbed.
/// - `Decode`: malformed bencode metainfo; always fatal, never partial.
/// - `DomainResolution`: every known mirror hostname failed.
#[derive(Clone, Copy, Debug, PartialEq, Eq, Structural)]
pub enum YggError {
    Transport,
    Blocked,
    InvalidCredentials,
    SessionExpired,
    Parse,
    Decode,
    DomainResolution,
}

impl YggError {
    /// A short stable name for each error kind, for messages and logs.
    pub fn as_str(&self) -> (r: &'static str)
        ensures
            r@ == self.spec_name(),
    {
        match self {
            YggError::Transport => "transport error",
            YggError::Blocked => "blocked by anti-automation challenge",
            YggError::InvalidCredentials => "invalid credentials",
            YggError::SessionExpired => "session expired",
            YggError::Parse => "parse error",
            YggError::Decode => "decode error",
            YggError::DomainResolution => "domain resolution failed",
        }
    }

    /// What `as_str` returns for each kind.
    pub open spec fn spec_name(self) -> Seq<char> {
        match self {
            YggError::Transport => "transport error"@,
            YggError::Blocked => "blocked by anti-automation challenge"@,
            YggError::InvalidCredentials => "invalid credentials"@,
            YggError::SessionExpired => "session expired"@,
            YggError::Parse => "parse error"@,
            YggError::Decode => "decode error"@,
            YggError::DomainResolution => "domain resolution failed"@,
        }
    }
}

} // verus!
