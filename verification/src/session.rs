//! The analysis session: request identifiers, response matching, and
//! the phases a session passes through.
//!
//! The session sends each request with a fixed identifier and then
//! reads messages from the analysis process, discarding everything —
//! notifications, unrelated responses — until the response carrying
//! the expected identifier and a `result` field arrives.

use vstd::prelude::*;

use crate::transport::{frame_spec, read_frame, TransportError};

verus! {

/// The identifier of the `initialize` request.
pub const INITIALIZE_REQUEST_ID: u64 = 1;

/// The identifier used for every `textDocument/documentSymbol`
/// request, reused across files.
pub const DOCUMENT_SYMBOL_REQUEST_ID: u64 = 2;

/// The identifier of the `shutdown` request.
pub const SHUTDOWN_REQUEST_ID: u64 = 9999;

/// What response matching reads from a message: its numeric `id`
/// field, if it has one, and whether it carries a `result` field.
#[derive(Clone, Copy, Debug, PartialEq, Eq, Structural)]
pub struct MessageMeta {
    pub id: Option<u64>,
    pub has_result: bool,
}

pub uninterp spec fn msg_meta_of(body: Seq<u8>) -> Option<MessageMeta>;

/// Relies on `serde_json::from_slice`, `Value::get` and
/// `Value::as_u64`: whether the bytes parse as JSON, the numeric `id`
/// field if any, and whether a `result` field is present are all
/// functions of the bytes alone.
#[verifier::external_body]
fn parse_meta(body: &Vec<u8>) -> (r: Option<MessageMeta>)
    ensures
        r == msg_meta_of(body@),
{
    match serde_json::from_slice::<serde_json::Value>(body) {
        Err(_) => None,
        Ok(v) => Some(
            MessageMeta {
                id: v.get("id").and_then(|i| i.as_u64()),
                has_result: v.get("result").is_some(),
            },
        ),
    }
}

/// Whether a message is the response the session is waiting for: its
/// identifier equals the expected one and a `result` field is
/// present.  Everything else is discarded.
pub fn is_matching_response(meta: &MessageMeta, want: u64) -> (r: bool)
    ensures
        r == (meta.id == Some(want) && meta.has_result),
{
    match meta.id {
        Some(i) => i == want && meta.has_result,
        None => false,
    }
}

/// Reading frames from `pos` until one holds a response with
/// identifier `want` and a present `result`: the body of that frame
/// and the position past it, or the first error the stream forces.
pub open spec fn find_matching(input: Seq<u8>, pos: int, want: u64) -> Result<
    (Seq<u8>, int),
    TransportError,
>
    decreases input.len() - pos,
    when 0 <= pos <= input.len()
    via find_matching_decreases
{
    match frame_spec(input, pos) {
        Err(e) => Err(e),
        Ok((body, next)) => match msg_meta_of(body) {
            None => Err(TransportError::InvalidBody),
            Some(meta) => if meta.id == Some(want) && meta.has_result {
                Ok((body, next))
            } else {
                find_matching(input, next, want)
            },
        },
    }
}

#[via_fn]
proof fn find_matching_decreases(input: Seq<u8>, pos: int, want: u64) {
    crate::transport::lemma_frame_spec_advances(input, pos);
}

/// Reads messages until the response with identifier `want` and a
/// present `result` field arrives, discarding everything else, as a
/// session does while waiting for an answer.
pub fn read_matching_response(input: &Vec<u8>, pos: usize, want: u64) -> (r: Result<
    (Vec<u8>, usize),
    TransportError,
>)
    requires
        pos <= input@.len(),
    ensures
        match (r, find_matching(input@, pos as int, want)) {
            (Ok((body, next)), Ok((sbody, snext))) => body@ == sbody && next == snext,
            (Err(e), Err(se)) => e == se,
            _ => false,
        },
{
    let mut cur = pos;
    loop
        invariant
            pos <= cur <= input@.len(),
            find_matching(input@, pos as int, want) == find_matching(input@, cur as int, want),
        decreases input@.len() - cur,
    {
        proof {
            crate::transport::lemma_frame_spec_advances(input@, cur as int);
        }
        match read_frame(input, cur) {
            Err(e) => {
                return Err(e);
            }
            Ok((body, next)) => {
                match parse_meta(&body) {
                    None => {
                        return Err(TransportError::InvalidBody);
                    }
                    Some(meta) => {
                        if is_matching_response(&meta, want) {
                            return Ok((body, next));
                        }
                        cur = next;
                    }
                }
            }
        }
    }
}

/// The phases of one analysis session, in the order the protocol
/// passes through them.
#[derive(Clone, Copy, Debug, PartialEq, Eq, Structural)]
pub enum SessionPhase {
    Uninitialized,
    Initializing,
    Ready,
    QueryingFile,
    ShuttingDown,
    Exited,
}

/// The protocol skeleton of one session: which phase it is in, and
/// which transitions the protocol allows.  The caller spawns the
/// process, sends the requests and reads the stream; this type pins
/// the order those steps may happen in and which response identifier
/// each phase waits for.
pub struct Session {
    pub phase: SessionPhase,
}

impl Session {
    /// A session starts before the analysis process is spawned.
    pub fn new() -> (r: Session)
        ensures
            r.phase == SessionPhase::Uninitialized,
    {
        Session { phase: SessionPhase::Uninitialized }
    }

    /// The analysis process has been spawned and the initialize
    /// request sent.
    pub fn initialize_sent(&mut self)
        requires
            old(self).phase == SessionPhase::Uninitialized,
        ensures
            final(self).phase == SessionPhase::Initializing,
    {
        self.phase = SessionPhase::Initializing;
    }

    /// The response matching the initialize request has arrived.
    pub fn initialized(&mut self)
        requires
            old(self).phase == SessionPhase::Initializing,
        ensures
            final(self).phase == SessionPhase::Ready,
    {
        self.phase = SessionPhase::Ready;
    }

    /// A document-opened notification and a symbol query for one file
    /// have been sent.
    pub fn query_sent(&mut self)
        requires
            old(self).phase == SessionPhase::Ready,
        ensures
            final(self).phase == SessionPhase::QueryingFile,
    {
        self.phase = SessionPhase::QueryingFile;
    }

    /// The symbol response for the current file has arrived.
    pub fn symbols_received(&mut self)
        requires
            old(self).phase == SessionPhase::QueryingFile,
        ensures
            final(self).phase == SessionPhase::Ready,
    {
        self.phase = SessionPhase::Ready;
    }

    /// All files are done and the shutdown request has been sent.
    pub fn shutdown_sent(&mut self)
        requires
            old(self).phase == SessionPhase::Ready,
        ensures
            final(self).phase == SessionPhase::ShuttingDown,
    {
        self.phase = SessionPhase::ShuttingDown;
    }

    /// The exit notification has been sent; the session is over.
    pub fn exit_sent(&mut self)
        requires
            old(self).phase == SessionPhase::ShuttingDown,
        ensures
            final(self).phase == SessionPhase::Exited,
    {
        self.phase = SessionPhase::Exited;
    }

    /// The response identifier the current phase waits for, if it
    /// waits for one.
    pub fn expected_response_id(&self) -> (r: Option<u64>)
        ensures
            r == match self.phase {
                SessionPhase::Initializing => Some(INITIALIZE_REQUEST_ID),
                SessionPhase::QueryingFile => Some(DOCUMENT_SYMBOL_REQUEST_ID),
                SessionPhase::ShuttingDown => Some(SHUTDOWN_REQUEST_ID),
                _ => None::<u64>,
            },
    {
        match self.phase {
            SessionPhase::Initializing => Some(INITIALIZE_REQUEST_ID),
            SessionPhase::QueryingFile => Some(DOCUMENT_SYMBOL_REQUEST_ID),
            SessionPhase::ShuttingDown => Some(SHUTDOWN_REQUEST_ID),
            _ => None,
        }
    }
}

} // verus!
