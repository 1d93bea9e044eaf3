//! The failures of a session.

use vstd::prelude::*;

verus! {

/// Why waiting for a message ended without one.
#[derive(Clone, Copy, Debug, PartialEq, Eq, Structural)]
pub enum RecvFailure {
    /// Nothing came within the time allowed.
    Timeout,
    /// The sending side is gone.
    Disconnected,
}

#[derive(Debug, PartialEq)]
pub enum DraduError {
    /// A message or payload is malformed.
    ProtocolError,
    /// The reply to a handshake is not the expected success.
    ConnectionError,
    /// The transport failed; the text says how.
    Io(String),
    /// The delivery channel is closed for good.
    ChannelDisconnected,
    /// The handshake reply did not come in time.
    TimeoutExceeded,
    /// There is no asset directory.
    ProjectDirNotFound,
    /// A path leaves the asset directory.
    InvalidPath,
    /// An image could not be decoded; the text says why.
    ImageLoadError(String),
}

impl DraduError {
    /// The text shown for this error.
    pub open spec fn spec_message(self) -> Seq<char> {
        match self {
            DraduError::ProtocolError => "Key error"@,
            DraduError::ConnectionError => "Connection error"@,
            DraduError::ChannelDisconnected => "Channel disconnected"@,
            DraduError::TimeoutExceeded => "Server response timeout exceeded"@,
            DraduError::Io(text) => text@,
            _ => Seq::empty(),
        }
    }

    /// The text shown for this error.
    pub fn message(&self) -> (s: String)
        ensures
            s@ == self.spec_message(),
    {
        match self {
            DraduError::ProtocolError => "Key error".to_owned(),
            DraduError::ConnectionError => "Connection error".to_owned(),
            DraduError::ChannelDisconnected => "Channel disconnected".to_owned(),
            DraduError::TimeoutExceeded => "Server response timeout exceeded".to_owned(),
            DraduError::Io(text) => text.clone(),
            _ => String::new(),
        }
    }

    /// The error that a failed wait stands for.
    pub open spec fn of_recv(failure: RecvFailure) -> DraduError {
        match failure {
            RecvFailure::Timeout => DraduError::TimeoutExceeded,
            RecvFailure::Disconnected => DraduError::ChannelDisconnected,
        }
    }
}

impl From<RecvFailure> for DraduError {
    fn from(failure: RecvFailure) -> (e: DraduError) {
        match failure {
            RecvFailure::Timeout => DraduError::TimeoutExceeded,
            RecvFailure::Disconnected => DraduError::ChannelDisconnected,
        }
    }
}

impl vstd::std_specs::convert::FromSpecImpl<RecvFailure> for DraduError {
    open spec fn obeys_from_spec() -> bool {
        true
    }

    open spec fn from_spec(failure: RecvFailure) -> DraduError {
        DraduError::of_recv(failure)
    }
}

} // verus!
