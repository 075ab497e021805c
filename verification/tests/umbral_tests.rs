use rinha::http::ReadOutcome;
use rinha::umbral::{
    RequestRead, RequestStep, ResponseHeaderError, decode_response_header, request_fits, request_read_step,
    FrameError, UmbralConfig, UmbralResponse, UmbralServer, UmbralStatus, WritePayload,
    advance_write_offsets, decode_request_header, frame_header, frame_len, payload_len, reply_for,
    request_error, request_frame, response_header,
};

#[test]
fn status_bytes_read_back() {
    for status in [
        UmbralStatus::Success,
        UmbralStatus::MethodNotFound,
        UmbralStatus::PayloadTooLarge,
        UmbralStatus::HandlerError,
    ] {
        assert_eq!(UmbralStatus::from_byte(status.to_byte()), Some(status));
    }
    assert_eq!(UmbralStatus::from_byte(200), None);
}

#[test]
fn frame_headers_read_back() {
    let header = frame_header(7, 0x0102_0304);
    assert_eq!(header, [7, 1, 2, 3, 4]);
    assert_eq!(frame_len(&header), 0x0102_0304);
    assert_eq!(response_header(UmbralStatus::MethodNotFound, 0), [1, 0, 0, 0, 0]);
    assert_eq!(request_frame(2, b"hi"), vec![2, 0, 0, 0, 2, b'h', b'i']);
}

#[test]
fn request_headers_respect_the_limit() {
    assert_eq!(decode_request_header(&[1, 0, 0, 1, 0], 256), Ok((1, 256)));
    assert_eq!(decode_request_header(&[1, 0, 0, 1, 1], 256), Err(FrameError::PayloadTooLarge));
}

#[test]
fn write_offsets_fill_the_header_first() {
    assert_eq!(advance_write_offsets(0, 0, 10, 3), (3, 0));
    assert_eq!(advance_write_offsets(3, 0, 10, 4), (5, 2));
    assert_eq!(advance_write_offsets(5, 2, 10, 100), (5, 10));
    assert_eq!(advance_write_offsets(0, 0, 0, 5), (5, 0));
}

#[test]
fn answers_follow_the_handler() {
    let none: Option<Result<UmbralResponse, ()>> = None;
    let reply = reply_for(none, 0, 0, 10);
    assert_eq!(reply.status, UmbralStatus::MethodNotFound);
    let failed: Option<Result<UmbralResponse, ()>> = Some(Err(()));
    assert_eq!(reply_for(failed, 0, 0, 10).status, UmbralStatus::HandlerError);
    let echo: Option<Result<UmbralResponse, ()>> = Some(Ok(UmbralResponse::RequestPayload));
    let reply = reply_for(echo, 4, 0, 10);
    assert_eq!(reply.status, UmbralStatus::Success);
    assert!(matches!(reply.payload, WritePayload::Request));
    let big: Option<Result<UmbralResponse, ()>> = Some(Ok(UmbralResponse::Static(b"0123456789ab")));
    assert_eq!(reply_for(big, 0, 0, 10).status, UmbralStatus::HandlerError);
    assert_eq!(payload_len(3, 4, WritePayload::Response), 4);
    assert_eq!(payload_len(3, 4, WritePayload::Static(b"xy")), 2);
}

fn echo(_state: &u32, request: &[u8], _response: &mut Vec<u8>) -> Result<UmbralResponse, ()> {
    if request.is_empty() {
        Err(())
    } else {
        Ok(UmbralResponse::RequestPayload)
    }
}

#[test]
fn routes_a_handler_per_method() {
    type Handler = fn(&u32, &[u8], &mut Vec<u8>) -> Result<UmbralResponse, ()>;
    let server: UmbralServer<u32, Handler> = UmbralServer::new(9).route(3, echo as Handler);
    assert_eq!(server.state, 9);
    assert_eq!(server.config, UmbralConfig::default());
    assert!(server.handler(2).is_none());
    let handler = server.handler(3).unwrap();
    let mut response = Vec::new();
    assert!(handler(&server.state, b"x", &mut response).is_ok());
    let custom = UmbralConfig { max_payload_len: 8, socket_permissions: 0o600, read_timeout_ms: 1, write_timeout_ms: 2 };
    let server: UmbralServer<u32, Handler> = UmbralServer::with_config(1, custom);
    assert_eq!(server.config.max_payload_len, 8);
}

#[test]
fn request_errors_name_the_status() {
    assert_eq!(request_error(UmbralStatus::HandlerError), "umbral request failed with status HandlerError");
    assert_eq!(request_error(UmbralStatus::MethodNotFound), "umbral request failed with status MethodNotFound");
}

#[test]
fn request_reads_header_then_body() {
    let header = [7_u8, 0, 0, 0, 3];
    assert_eq!(
        request_read_step(RequestRead::Header { filled: 1 }, &header, 16, ReadOutcome::Bytes(2)),
        RequestStep::ReadMore(RequestRead::Header { filled: 3 })
    );
    let body = RequestRead::Body { method: 7, len: 3, filled: 0 };
    assert_eq!(request_read_step(RequestRead::Header { filled: 3 }, &header, 16, ReadOutcome::Bytes(2)), RequestStep::ReadMore(body));
    assert_eq!(
        request_read_step(body, &header, 16, ReadOutcome::Bytes(2)),
        RequestStep::ReadMore(RequestRead::Body { method: 7, len: 3, filled: 2 })
    );
    assert_eq!(
        request_read_step(RequestRead::Body { method: 7, len: 3, filled: 2 }, &header, 16, ReadOutcome::Bytes(1)),
        RequestStep::Handle { method: 7, len: 3 }
    );
}

#[test]
fn request_header_limits_and_empty_bodies() {
    assert_eq!(
        request_read_step(RequestRead::Header { filled: 0 }, &[2, 0, 0, 0, 0], 16, ReadOutcome::Bytes(5)),
        RequestStep::Handle { method: 2, len: 0 }
    );
    assert_eq!(
        request_read_step(RequestRead::Header { filled: 0 }, &[1, 0, 0, 0, 17], 16, ReadOutcome::Bytes(5)),
        RequestStep::TooLarge
    );
    let state = RequestRead::Header { filled: 2 };
    assert_eq!(request_read_step(state, &[0; 5], 16, ReadOutcome::Closed), RequestStep::Gone);
    assert_eq!(request_read_step(state, &[0; 5], 16, ReadOutcome::Failed), RequestStep::Failed);
    assert_eq!(request_read_step(state, &[0; 5], 16, ReadOutcome::WouldBlock), RequestStep::Wait(state));
}

#[test]
fn client_checks_sizes_and_answer_headers() {
    let config = UmbralConfig::default_config();
    assert!(request_fits(16 * 1024 * 1024, &config));
    assert!(!request_fits(16 * 1024 * 1024 + 1, &config));
    assert_eq!(decode_response_header(&[0, 0, 0, 1, 0], 256), Ok((UmbralStatus::Success, 256)));
    assert_eq!(decode_response_header(&[1, 0, 0, 1, 1], 256), Err(ResponseHeaderError::PayloadTooLarge));
    assert_eq!(decode_response_header(&[4, 0, 0, 0, 0], 256), Err(ResponseHeaderError::UnknownStatus));
}

#[test]
fn a_request_frame_is_read_back_by_the_server() {
    let frame = request_frame(9, b"abc");
    let header: [u8; 5] = frame[..5].try_into().unwrap();
    let step = request_read_step(RequestRead::Header { filled: 0 }, &header, 16, ReadOutcome::Bytes(5));
    assert_eq!(step, RequestStep::ReadMore(RequestRead::Body { method: 9, len: 3, filled: 0 }));
    let RequestStep::ReadMore(body) = step else { unreachable!() };
    assert_eq!(request_read_step(body, &header, 16, ReadOutcome::Bytes(3)), RequestStep::Handle { method: 9, len: 3 });
    assert_eq!(&frame[5..], b"abc");
}

#[test]
fn a_frame_read_in_pieces_completes_like_a_whole_read() {
    let frame = request_frame(1, b"abcdef");
    let header = [frame[0], frame[1], frame[2], frame[3], frame[4]];
    let whole = request_read_step(RequestRead::Header { filled: 0 }, &header, 16, ReadOutcome::Bytes(5));
    let body = RequestRead::Body { method: 1, len: 6, filled: 0 };
    assert_eq!(whole, RequestStep::ReadMore(body));
    assert_eq!(request_read_step(body, &header, 16, ReadOutcome::Bytes(6)), RequestStep::Handle { method: 1, len: 6 });

    let first = RequestRead::Header { filled: 0 };
    assert_eq!(request_read_step(first, &header, 16, ReadOutcome::Bytes(2)), RequestStep::ReadMore(RequestRead::Header { filled: 2 }));
    let second = RequestRead::Header { filled: 2 };
    assert_eq!(request_read_step(second, &header, 16, ReadOutcome::WouldBlock), RequestStep::Wait(second));
    assert_eq!(request_read_step(second, &header, 16, ReadOutcome::Bytes(3)), RequestStep::ReadMore(body));
    let partial = RequestRead::Body { method: 1, len: 6, filled: 4 };
    assert_eq!(request_read_step(body, &header, 16, ReadOutcome::Bytes(4)), RequestStep::ReadMore(partial));
    assert_eq!(request_read_step(partial, &header, 16, ReadOutcome::Bytes(2)), RequestStep::Handle { method: 1, len: 6 });
}
