//! The framed protocol between the balancer and the scoring workers: a
//! request is a method byte, a big-endian `u32` length and the payload; an
//! answer is a status byte, a length and the payload. The server keeps a
//! handler per method and decides each answer from what the handler gave.
use vstd::prelude::*;

use crate::bytes::u32_be_at;

verus! {

/// Which handler a request is for.
pub type MethodId = u8;

/// Bytes before a request's payload.
pub const REQUEST_HEADER_LEN: usize = 5;
/// Bytes before an answer's payload.
pub const RESPONSE_HEADER_LEN: usize = 5;

/// How a request was answered.
#[derive(Debug, Clone, Copy, PartialEq, Eq, Structural)]
pub enum UmbralStatus {
    Success,
    MethodNotFound,
    PayloadTooLarge,
    HandlerError,
}

/// The byte that carries a status.
pub open spec fn spec_status_byte(status: UmbralStatus) -> u8 {
    match status {
        UmbralStatus::Success => 0,
        UmbralStatus::MethodNotFound => 1,
        UmbralStatus::PayloadTooLarge => 2,
        UmbralStatus::HandlerError => 3,
    }
}

/// The status a byte carries, if any.
pub open spec fn spec_status_from_byte(byte: u8) -> Option<UmbralStatus> {
    if byte == 0 {
        Some(UmbralStatus::Success)
    } else if byte == 1 {
        Some(UmbralStatus::MethodNotFound)
    } else if byte == 2 {
        Some(UmbralStatus::PayloadTooLarge)
    } else if byte == 3 {
        Some(UmbralStatus::HandlerError)
    } else {
        None
    }
}

impl UmbralStatus {
    pub fn to_byte(self) -> (r: u8)
        ensures
            r == spec_status_byte(self),
    {
        match self {
            UmbralStatus::Success => 0,
            UmbralStatus::MethodNotFound => 1,
            UmbralStatus::PayloadTooLarge => 2,
            UmbralStatus::HandlerError => 3,
        }
    }

    /// The status a byte carries; `None` for a byte no status uses.
    pub fn from_byte(byte: u8) -> (r: Option<UmbralStatus>)
        ensures
            r == spec_status_from_byte(byte),
    {
        if byte == 0 {
            Some(UmbralStatus::Success)
        } else if byte == 1 {
            Some(UmbralStatus::MethodNotFound)
        } else if byte == 2 {
            Some(UmbralStatus::PayloadTooLarge)
        } else if byte == 3 {
            Some(UmbralStatus::HandlerError)
        } else {
            None
        }
    }
}

/// Reading back the byte of a status gives the status.
pub proof fn lemma_status_roundtrip(status: UmbralStatus)
    ensures
        spec_status_from_byte(spec_status_byte(status)) == Some(status),
{
}

/// Limits and settings of a server or client.
#[derive(Debug, Clone, Copy, PartialEq, Eq, Structural)]
pub struct UmbralConfig {
    pub max_payload_len: usize,
    pub socket_permissions: u32,
    pub read_timeout_ms: u64,
    pub write_timeout_ms: u64,
}

impl UmbralConfig {
    /// 16 MiB payloads, a socket anyone may use, five-second timeouts.
    pub fn default_config() -> (r: UmbralConfig)
        ensures
            r.max_payload_len == 16_777_216,
            r.socket_permissions == 0o666,
            r.read_timeout_ms == 5000,
            r.write_timeout_ms == 5000,
    {
        UmbralConfig {
            max_payload_len: 16_777_216,
            socket_permissions: 0o666,
            read_timeout_ms: 5000,
            write_timeout_ms: 5000,
        }
    }
}

impl Default for UmbralConfig {
    fn default() -> (r: UmbralConfig)
        ensures
            r == (UmbralConfig {
                max_payload_len: 16_777_216,
                socket_permissions: 0o666,
                read_timeout_ms: 5000,
                write_timeout_ms: 5000,
            }),
    {
        UmbralConfig::default_config()
    }
}

/// What a handler asks to send back.
#[derive(Clone, Copy)]
pub enum UmbralResponse {
    /// Nothing.
    Empty,
    /// The request's own payload.
    RequestPayload,
    /// What the handler wrote into the response buffer.
    ResponseBuffer,
    /// Fixed bytes.
    Static(&'static [u8]),
}

/// The payload an answer carries.
#[derive(Clone, Copy)]
pub enum WritePayload {
    Empty,
    Request,
    Response,
    Static(&'static [u8]),
}

/// The length of a payload, given the request and response buffers' lengths.
pub open spec fn spec_payload_len(request_len: int, response_len: int, payload: WritePayload) -> int {
    match payload {
        WritePayload::Empty => 0,
        WritePayload::Request => request_len,
        WritePayload::Response => response_len,
        WritePayload::Static(bytes) => bytes@.len() as int,
    }
}

pub fn payload_len(request_len: usize, response_len: usize, payload: WritePayload) -> (r: usize)
    ensures
        r == spec_payload_len(request_len as int, response_len as int, payload),
{
    match payload {
        WritePayload::Empty => 0,
        WritePayload::Request => request_len,
        WritePayload::Response => response_len,
        WritePayload::Static(bytes) => bytes.len(),
    }
}

/// The payload that answers a handler's response.
pub open spec fn spec_write_payload(response: UmbralResponse) -> WritePayload {
    match response {
        UmbralResponse::Empty => WritePayload::Empty,
        UmbralResponse::RequestPayload => WritePayload::Request,
        UmbralResponse::ResponseBuffer => WritePayload::Response,
        UmbralResponse::Static(bytes) => WritePayload::Static(bytes),
    }
}

/// The status and payload of an answer.
#[derive(Clone, Copy)]
pub struct Reply {
    pub status: UmbralStatus,
    pub payload: WritePayload,
}

/// How a request is answered, from what its handler gave (`None`: no handler
/// for its method): a missing handler and a failed one give an empty answer
/// with their status; a payload longer than the limit is a handler error.
pub open spec fn spec_reply<E>(
    outcome: Option<Result<UmbralResponse, E>>,
    request_len: int,
    response_len: int,
    max_payload_len: int,
) -> Reply {
    match outcome {
        None => Reply { status: UmbralStatus::MethodNotFound, payload: WritePayload::Empty },
        Some(Err(_)) => Reply { status: UmbralStatus::HandlerError, payload: WritePayload::Empty },
        Some(Ok(response)) => {
            let payload = spec_write_payload(response);
            if spec_payload_len(request_len, response_len, payload) > max_payload_len {
                Reply { status: UmbralStatus::HandlerError, payload: WritePayload::Empty }
            } else {
                Reply { status: UmbralStatus::Success, payload }
            }
        },
    }
}

/// Decides the answer to a request from what its handler gave.
pub fn reply_for<E>(
    outcome: Option<Result<UmbralResponse, E>>,
    request_len: usize,
    response_len: usize,
    max_payload_len: usize,
) -> (r: Reply)
    ensures
        r == spec_reply(outcome, request_len as int, response_len as int, max_payload_len as int),
{
    match outcome {
        None => Reply { status: UmbralStatus::MethodNotFound, payload: WritePayload::Empty },
        Some(Err(_)) => Reply { status: UmbralStatus::HandlerError, payload: WritePayload::Empty },
        Some(Ok(response)) => {
            let payload = match response {
                UmbralResponse::Empty => WritePayload::Empty,
                UmbralResponse::RequestPayload => WritePayload::Request,
                UmbralResponse::ResponseBuffer => WritePayload::Response,
                UmbralResponse::Static(bytes) => WritePayload::Static(bytes),
            };
            if payload_len(request_len, response_len, payload) > max_payload_len {
                Reply { status: UmbralStatus::HandlerError, payload: WritePayload::Empty }
            } else {
                Reply { status: UmbralStatus::Success, payload }
            }
        },
    }
}

/// A frame header: the lead byte, then the length in big-endian order.
pub open spec fn spec_frame_header(lead: u8, len: u32) -> Seq<u8> {
    seq![
        lead,
        (len / 0x100_0000) as u8,
        ((len / 0x1_0000) % 256) as u8,
        ((len / 0x100) % 256) as u8,
        (len % 256) as u8,
    ]
}

/// The header of a frame.
pub fn frame_header(lead: u8, len: u32) -> (r: [u8; 5])
    ensures
        r@ == spec_frame_header(lead, len),
{
    let r: [u8; 5] = [
        lead,
        (len / 0x100_0000) as u8,
        ((len / 0x1_0000) % 256) as u8,
        ((len / 0x100) % 256) as u8,
        (len % 256) as u8,
    ];
    assert(r@ =~= spec_frame_header(lead, len));
    r
}

/// The length a frame header carries.
pub fn frame_len(header: &[u8; 5]) -> (r: u32)
    ensures
        r == u32_be_at(header@, 1),
{
    header[1] as u32 * 0x100_0000 + header[2] as u32 * 0x1_0000 + header[3] as u32 * 0x100 + header[4] as u32
}

/// A frame header reads back as it was written.
pub proof fn lemma_frame_header_roundtrip(lead: u8, len: u32)
    ensures
        spec_frame_header(lead, len)[0] == lead,
        u32_be_at(spec_frame_header(lead, len), 1) == len,
{
    let h = spec_frame_header(lead, len);
    assert(h[1] * 0x100_0000 + h[2] * 0x1_0000 + h[3] * 0x100 + h[4] == len) by (nonlinear_arith)
        requires
            h[1] == len / 0x100_0000,
            h[2] == (len / 0x1_0000) % 256,
            h[3] == (len / 0x100) % 256,
            h[4] == len % 256,
            len < 0x1_0000_0000,
    ;
}

/// Why a request frame was refused.
#[derive(Debug, Clone, Copy, PartialEq, Eq, Structural)]
pub enum FrameError {
    PayloadTooLarge,
}

/// The method and payload length of a request header, within the limit.
pub fn decode_request_header(header: &[u8; 5], max_payload_len: usize) -> (r: Result<(MethodId, usize), FrameError>)
    ensures
        u32_be_at(header@, 1) > max_payload_len ==> r == Err::<(MethodId, usize), FrameError>(
            FrameError::PayloadTooLarge,
        ),
        u32_be_at(header@, 1) <= max_payload_len ==> r == Ok::<(MethodId, usize), FrameError>(
            (header@[0], u32_be_at(header@, 1) as usize),
        ),
{
    let len = frame_len(header);
    if len as u64 > max_payload_len as u64 {
        return Err(FrameError::PayloadTooLarge);
    }
    Ok((header[0], len as usize))
}

/// Where a connection stands in reading a request: `filled` bytes of the
/// header, or of a body of `len` bytes for `method`.
#[derive(Debug, Clone, Copy, PartialEq, Eq, Structural)]
pub enum RequestRead {
    Header { filled: usize },
    Body { method: MethodId, len: usize, filled: usize },
}

/// What the server does after a read from a connection.
#[derive(Debug, Clone, Copy, PartialEq, Eq, Structural)]
pub enum RequestStep {
    /// Read again, from this state.
    ReadMore(RequestRead),
    /// Wait until the connection is readable, in this state.
    Wait(RequestRead),
    /// The request is complete: run `method`'s handler on the body.
    Handle { method: MethodId, len: usize },
    /// Answer `PayloadTooLarge` and close the connection.
    TooLarge,
    /// The peer went away: drop the connection.
    Gone,
    /// The read failed.
    Failed,
}

/// The read state is one a connection can be in.
pub open spec fn request_read_ok(state: RequestRead, max_payload_len: usize) -> bool {
    match state {
        RequestRead::Header { filled } => filled < 5,
        RequestRead::Body { len, filled, .. } => filled < len <= max_payload_len,
    }
}

/// Room left in the buffer the next read of `state` fills.
pub open spec fn request_read_room(state: RequestRead) -> int {
    match state {
        RequestRead::Header { filled } => 5 - filled,
        RequestRead::Body { len, filled, .. } => len - filled,
    }
}

/// The next step of reading a request, `header` holding the header bytes
/// read so far.
pub open spec fn spec_request_read_step(
    state: RequestRead,
    header: Seq<u8>,
    max_payload_len: usize,
    outcome: crate::http::ReadOutcome,
) -> RequestStep {
    match outcome {
        crate::http::ReadOutcome::Closed => RequestStep::Gone,
        crate::http::ReadOutcome::Failed => RequestStep::Failed,
        crate::http::ReadOutcome::WouldBlock => RequestStep::Wait(state),
        crate::http::ReadOutcome::Bytes(n) => match state {
            RequestRead::Header { filled } => if filled + n < 5 {
                RequestStep::ReadMore(RequestRead::Header { filled: (filled + n) as usize })
            } else if u32_be_at(header, 1) > max_payload_len {
                RequestStep::TooLarge
            } else if u32_be_at(header, 1) == 0 {
                RequestStep::Handle { method: header[0], len: 0 }
            } else {
                RequestStep::ReadMore(RequestRead::Body { method: header[0], len: u32_be_at(header, 1) as usize, filled: 0 })
            },
            RequestRead::Body { method, len, filled } => if filled + n == len {
                RequestStep::Handle { method, len }
            } else {
                RequestStep::ReadMore(RequestRead::Body { method, len, filled: (filled + n) as usize })
            },
        },
    }
}

/// One step of reading a request: a length over `max_payload_len` is
/// answered `PayloadTooLarge`, a closed connection is dropped, and the
/// request is handled once its body is complete.
pub fn request_read_step(
    state: RequestRead,
    header: &[u8; 5],
    max_payload_len: usize,
    outcome: crate::http::ReadOutcome,
) -> (r: RequestStep)
    requires
        request_read_ok(state, max_payload_len),
        outcome matches crate::http::ReadOutcome::Bytes(n) ==> 1 <= n <= request_read_room(state),
    ensures
        r == spec_request_read_step(state, header@, max_payload_len, outcome),
        r matches RequestStep::ReadMore(next) ==> request_read_ok(next, max_payload_len),
        r matches RequestStep::Wait(next) ==> request_read_ok(next, max_payload_len),
{
    match outcome {
        crate::http::ReadOutcome::Closed => RequestStep::Gone,
        crate::http::ReadOutcome::Failed => RequestStep::Failed,
        crate::http::ReadOutcome::WouldBlock => RequestStep::Wait(state),
        crate::http::ReadOutcome::Bytes(n) => match state {
            RequestRead::Header { filled } => {
                if filled + n < 5 {
                    return RequestStep::ReadMore(RequestRead::Header { filled: filled + n });
                }
                match decode_request_header(header, max_payload_len) {
                    Err(FrameError::PayloadTooLarge) => RequestStep::TooLarge,
                    Ok((method, len)) => {
                        if len == 0 {
                            RequestStep::Handle { method, len: 0 }
                        } else {
                            RequestStep::ReadMore(RequestRead::Body { method, len, filled: 0 })
                        }
                    },
                }
            },
            RequestRead::Body { method, len, filled } => {
                if filled + n == len {
                    RequestStep::Handle { method, len }
                } else {
                    RequestStep::ReadMore(RequestRead::Body { method, len, filled: filled + n })
                }
            },
        },
    }
}

/// The header of an answer, with the status and the payload's length.
pub fn response_header(status: UmbralStatus, payload_len: usize) -> (r: [u8; 5])
    requires
        payload_len <= u32::MAX,
    ensures
        r@ == spec_frame_header(spec_status_byte(status), payload_len as u32),
{
    frame_header(status.to_byte(), payload_len as u32)
}

/// Where writing stands after `written` more bytes of header then payload:
/// the header fills first, and the payload offset never passes its length.
pub open spec fn spec_advance(header_offset: int, payload_offset: int, payload_len: int, written: int) -> (int, int) {
    let remaining_header = 5 - header_offset;
    if written < remaining_header {
        (header_offset + written, payload_offset)
    } else {
        let p = payload_offset + written - remaining_header;
        (5, if p < payload_len { p } else { payload_len })
    }
}

/// Advances the write offsets of an answer by `written` bytes.
pub fn advance_write_offsets(header_offset: usize, payload_offset: usize, payload_len: usize, written: usize) -> (r: (
    usize,
    usize,
))
    requires
        header_offset <= 5,
        payload_offset <= payload_len,
    ensures
        r.0 == spec_advance(header_offset as int, payload_offset as int, payload_len as int, written as int).0,
        r.1 == spec_advance(header_offset as int, payload_offset as int, payload_len as int, written as int).1,
{
    let remaining_header = 5 - header_offset;
    if written < remaining_header {
        (header_offset + written, payload_offset)
    } else {
        let extra = written - remaining_header;
        let room = payload_len - payload_offset;
        let payload_offset = if extra < room { payload_offset + extra } else { payload_len };
        (5, payload_offset)
    }
}

/// Whether a client may send a payload of `payload_len` bytes.
pub fn request_fits(payload_len: usize, config: &UmbralConfig) -> (r: bool)
    ensures
        r == (payload_len <= config.max_payload_len),
{
    payload_len <= config.max_payload_len
}

/// Why a client refused an answer's header.
#[derive(Debug, Clone, Copy, PartialEq, Eq, Structural)]
pub enum ResponseHeaderError {
    /// The status byte names no status.
    UnknownStatus,
    /// The answer is longer than the client accepts.
    PayloadTooLarge,
}

/// The status and payload length of an answer's header, within the limit.
pub fn decode_response_header(header: &[u8; 5], max_payload_len: usize) -> (r: Result<
    (UmbralStatus, usize),
    ResponseHeaderError,
>)
    ensures
        spec_status_from_byte(header@[0]) is None ==> r == Err::<(UmbralStatus, usize), ResponseHeaderError>(
            ResponseHeaderError::UnknownStatus,
        ),
        spec_status_from_byte(header@[0]) matches Some(status) ==> if u32_be_at(header@, 1) > max_payload_len {
            r == Err::<(UmbralStatus, usize), ResponseHeaderError>(ResponseHeaderError::PayloadTooLarge)
        } else {
            r == Ok::<(UmbralStatus, usize), ResponseHeaderError>((status, u32_be_at(header@, 1) as usize))
        },
{
    let status = match UmbralStatus::from_byte(header[0]) {
        Some(status) => status,
        None => return Err(ResponseHeaderError::UnknownStatus),
    };
    let len = frame_len(header);
    if len as u64 > max_payload_len as u64 {
        return Err(ResponseHeaderError::PayloadTooLarge);
    }
    Ok((status, len as usize))
}

/// The request frame of a method and payload; the length is written as a
/// `u32`, keeping its low 32 bits.
pub fn request_frame(method: MethodId, payload: &[u8]) -> (r: Vec<u8>)
    ensures
        r@ == spec_frame_header(method, payload@.len() as u32) + payload@,
{
    let len = payload.len() as u32;
    let header = frame_header(method, len);
    let mut out: Vec<u8> = Vec::new();
    crate::http::push_bytes(&mut out, &header);
    crate::http::push_bytes(&mut out, payload);
    out
}

/// A server's state, its handlers (one slot per method) and its limits.
pub struct UmbralServer<S, H> {
    pub state: S,
    pub handlers: Vec<Option<H>>,
    pub config: UmbralConfig,
}

impl<S, H> UmbralServer<S, H> {
    pub open spec fn wf(&self) -> bool {
        self.handlers@.len() == 256
    }

    /// A server with no handlers and the default limits.
    pub fn new(state: S) -> (r: Self)
        ensures
            r.wf(),
            r.state == state,
            r.config == UmbralConfig::default_config_spec(),
            forall|m: int| 0 <= m < 256 ==> r.handlers@[m] is None,
    {
        Self::with_config(state, UmbralConfig::default_config())
    }

    /// A server with no handlers and the given limits.
    pub fn with_config(state: S, config: UmbralConfig) -> (r: Self)
        ensures
            r.wf(),
            r.state == state,
            r.config == config,
            forall|m: int| 0 <= m < 256 ==> r.handlers@[m] is None,
    {
        let mut handlers: Vec<Option<H>> = Vec::new();
        let mut i: usize = 0;
        while i < 256
            invariant
                i <= 256,
                handlers@.len() == i,
                forall|m: int| 0 <= m < i ==> handlers@[m] is None,
            decreases 256 - i,
        {
            handlers.push(None);
            i = i + 1;
        }
        UmbralServer { state, handlers, config }
    }

    /// Sets the handler of `method`; the other methods keep theirs.
    pub fn route(self, method: MethodId, handler: H) -> (r: Self)
        requires
            self.wf(),
        ensures
            r.wf(),
            r.state == self.state,
            r.config == self.config,
            r.handlers@ == self.handlers@.update(method as int, Some(handler)),
    {
        let mut server = self;
        server.handlers.set(method as usize, Some(handler));
        server
    }

    /// The handler of `method`, if one was set.
    pub fn handler(&self, method: MethodId) -> (r: Option<&H>)
        requires
            self.wf(),
        ensures
            match self.handlers@[method as int] {
                Some(h) => r == Some(&h),
                None => r is None,
            },
    {
        match &self.handlers[method as usize] {
            Some(h) => Some(h),
            None => None,
        }
    }
}

impl UmbralConfig {
    pub open spec fn default_config_spec() -> UmbralConfig {
        UmbralConfig {
            max_payload_len: 16_777_216,
            socket_permissions: 0o666,
            read_timeout_ms: 5000,
            write_timeout_ms: 5000,
        }
    }
}

/// The message of a request that came back with `status`.
pub open spec fn request_error_text(status: UmbralStatus) -> Seq<char> {
    "umbral request failed with status "@ + match status {
        UmbralStatus::Success => "Success"@,
        UmbralStatus::MethodNotFound => "MethodNotFound"@,
        UmbralStatus::PayloadTooLarge => "PayloadTooLarge"@,
        UmbralStatus::HandlerError => "HandlerError"@,
    }
}

/// The message of a request that came back with `status`.
pub fn request_error(status: UmbralStatus) -> (r: &'static str)
    ensures
        r@ == request_error_text(status),
{
    proof {
        reveal_strlit("umbral request failed with status ");
        reveal_strlit("Success");
        reveal_strlit("MethodNotFound");
        reveal_strlit("PayloadTooLarge");
        reveal_strlit("HandlerError");
    }
    match status {
        UmbralStatus::Success => {
            proof { reveal_strlit("umbral request failed with status Success"); }
            assert("umbral request failed with status Success"@ =~= request_error_text(status));
            "umbral request failed with status Success"
        },
        UmbralStatus::MethodNotFound => {
            proof { reveal_strlit("umbral request failed with status MethodNotFound"); }
            assert("umbral request failed with status MethodNotFound"@ =~= request_error_text(status));
            "umbral request failed with status MethodNotFound"
        },
        UmbralStatus::PayloadTooLarge => {
            proof { reveal_strlit("umbral request failed with status PayloadTooLarge"); }
            assert("umbral request failed with status PayloadTooLarge"@ =~= request_error_text(status));
            "umbral request failed with status PayloadTooLarge"
        },
        UmbralStatus::HandlerError => {
            proof { reveal_strlit("umbral request failed with status HandlerError"); }
            assert("umbral request failed with status HandlerError"@ =~= request_error_text(status));
            "umbral request failed with status HandlerError"
        },
    }
}

/// A request frame's header, read by the server whole: a payload within the
/// limit is read as the frame's method and length (handled at once when
/// empty), a longer one is answered `PayloadTooLarge`; once the body has
/// arrived, the method's handler runs on it.
pub proof fn lemma_request_frame_read(method: MethodId, len: u32, max_payload_len: usize)
    ensures
        ({
            let header = spec_frame_header(method, len);
            let first = spec_request_read_step(
                RequestRead::Header { filled: 0 },
                header,
                max_payload_len,
                crate::http::ReadOutcome::Bytes(5),
            );
            &&& len > max_payload_len ==> first == RequestStep::TooLarge
            &&& len == 0 ==> first == RequestStep::Handle { method, len: 0 }
            &&& 0 < len <= max_payload_len ==> first == RequestStep::ReadMore(
                RequestRead::Body { method, len: len as usize, filled: 0 },
            )
            &&& 0 < len <= max_payload_len ==> spec_request_read_step(
                RequestRead::Body { method, len: len as usize, filled: 0 },
                header,
                max_payload_len,
                crate::http::ReadOutcome::Bytes(len as usize),
            ) == RequestStep::Handle { method, len: len as usize }
        }),
{
    lemma_frame_header_roundtrip(method, len);
}

/// Where reading a frame of `len` body bytes stands after its first `t`
/// bytes: filling the header, then the body.
pub open spec fn frame_progress(method: MethodId, len: usize, t: int) -> RequestRead {
    if t < 5 {
        RequestRead::Header { filled: t as usize }
    } else {
        RequestRead::Body { method, len, filled: (t - 5) as usize }
    }
}

/// A frame read in pieces ends as one read whole: from wherever the reading
/// of a frame within the limit stands, a read that finds nothing waits in
/// the same place, and a read of `n` bytes moves on by `n`, the request being
/// complete exactly when the whole frame has arrived.
pub proof fn lemma_frame_read_in_pieces(
    method: MethodId,
    len: u32,
    max_payload_len: usize,
    t: int,
    outcome: crate::http::ReadOutcome,
)
    requires
        len <= max_payload_len,
        0 <= t < 5 + len,
        outcome matches crate::http::ReadOutcome::Bytes(n) ==> 1 <= n <= request_read_room(
            frame_progress(method, len as usize, t),
        ),
    ensures
        ({
            let step = spec_request_read_step(
                frame_progress(method, len as usize, t),
                spec_frame_header(method, len),
                max_payload_len,
                outcome,
            );
            &&& outcome == crate::http::ReadOutcome::WouldBlock ==> step == RequestStep::Wait(
                frame_progress(method, len as usize, t),
            )
            &&& outcome matches crate::http::ReadOutcome::Bytes(n) ==> if t + n == 5 + len {
                step == RequestStep::Handle { method, len: len as usize }
            } else {
                step == RequestStep::ReadMore(frame_progress(method, len as usize, t + n))
            }
        }),
{
    lemma_frame_header_roundtrip(method, len);
}

/// An answer's header as the server writes it, read by a client within its
/// limit, gives back the status and the payload's length.
pub proof fn lemma_response_header_read(status: UmbralStatus, payload_len: u32, max_payload_len: usize)
    requires
        payload_len <= max_payload_len,
    ensures
        ({
            let header = spec_frame_header(spec_status_byte(status), payload_len);
            &&& spec_status_from_byte(header[0]) == Some(status)
            &&& u32_be_at(header, 1) == payload_len
        }),
{
    lemma_frame_header_roundtrip(spec_status_byte(status), payload_len);
    lemma_status_roundtrip(status);
}

} // verus!
