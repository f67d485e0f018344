use vstd::prelude::*;
use crate::text::{trimmed, trim_text};

verus! {

/// The time, in milliseconds, that one exchange with the camera may take.
pub const TIMEOUT_MS: u64 = 3000;

/// One GET request to the camera's control interface, with the HTTP Basic
/// credentials that it carries and the time it may take.
#[derive(Debug, PartialEq, Eq)]
pub struct Request {
    pub url: String,
    pub username: String,
    pub password: String,
    pub timeout_ms: u64,
}

/// What came back from one request: a status and body, or a failure of the
/// transport (connection, timeout, name lookup) described in words.
#[derive(Debug)]
pub enum Reply {
    Received { status: u16, body: String },
    Failed { reason: String },
}

/// The ways in which an operation on the camera fails.
#[derive(Debug, PartialEq, Eq)]
pub enum CameraError {
    /// The camera could not be reached, or did not answer in time.
    Transport(String),
    /// The camera refused the credentials (HTTP 401).
    Unauthorized,
    /// The camera answered with another status than 200; its body is kept.
    Device(String),
    /// The plate list did not have the indexed form that it should.
    MalformedResponse,
}

/// A `CameraError` with its texts as sequences of characters.
pub enum Fault {
    Transport(Seq<char>),
    Unauthorized,
    Device(Seq<char>),
    MalformedResponse,
}

impl View for CameraError {
    type V = Fault;

    open spec fn view(&self) -> Fault {
        match self {
            CameraError::Transport(s) => Fault::Transport(s@),
            CameraError::Unauthorized => Fault::Unauthorized,
            CameraError::Device(s) => Fault::Device(s@),
            CameraError::MalformedResponse => Fault::MalformedResponse,
        }
    }
}

/// HTTP 200.
pub const STATUS_OK: u16 = 200;

/// HTTP 401.
pub const STATUS_UNAUTHORIZED: u16 = 401;

/// What a reply means: the body where the status is 200, and otherwise the
/// failure that it stands for.
pub open spec fn reply_outcome(reply: Reply) -> Result<Seq<char>, Fault> {
    match reply {
        Reply::Received { status, body } => if status == STATUS_OK {
            Ok(body@)
        } else if status == STATUS_UNAUTHORIZED {
            Err(Fault::Unauthorized)
        } else {
            Err(Fault::Device(body@))
        },
        Reply::Failed { reason } => Err(Fault::Transport(reason@)),
    }
}

/// What a reply to a write (add, edit, remove) means: as `reply_outcome`,
/// with the body of a success trimmed of white space at both ends.
pub open spec fn write_outcome(reply: Reply) -> Result<Seq<char>, Fault> {
    match reply_outcome(reply) {
        Ok(body) => Ok(trimmed(body)),
        Err(f) => Err(f),
    }
}

/// A result whose texts are seen as sequences of characters.
pub open spec fn text_result(r: Result<String, CameraError>) -> Result<Seq<char>, Fault> {
    match r {
        Ok(s) => Ok(s@),
        Err(e) => Err(e@),
    }
}

/// Sorts a reply into the body of a success or the failure that it stands for.
pub fn classify(reply: Reply) -> (r: Result<String, CameraError>)
    ensures
        text_result(r) == reply_outcome(reply),
{
    match reply {
        Reply::Received { status, body } => {
            if status == STATUS_OK {
                Ok(body)
            } else if status == STATUS_UNAUTHORIZED {
                Err(CameraError::Unauthorized)
            } else {
                Err(CameraError::Device(body))
            }
        },
        Reply::Failed { reason } => Err(CameraError::Transport(reason)),
    }
}

/// The status text of a reply to a write: the trimmed body of a success
/// (`"OK"` where the camera took the change), or the failure.
pub fn write_status(reply: Reply) -> (r: Result<String, CameraError>)
    ensures
        text_result(r) == write_outcome(reply),
{
    match classify(reply) {
        Ok(body) => Ok(trim_text(body.as_str())),
        Err(e) => Err(e),
    }
}

} // verus!
