use rinha::http::{
    ClientAction, DispatchAction, client_action, dispatch_step, may_read_request, reconnect_answer, unavailable_text, worker_answer,
    LaneRead, LaneStep, ReadOutcome, lane_read_step,
    HttpError, LaneHeaderError, MAX_HEADER_LEN, ParsedRequest, decode_lane_header, drain_request,
    find_header_end, header_value, lane_job_frame, parse_request, parse_request_head, parse_usize,
    push_usize, trim_spaces, write_json_response_bytes,
};
use rinha::umbral::{UmbralStatus, response_header};

#[test]
fn finds_the_blank_line() {
    assert_eq!(find_header_end(b"GET / HTTP/1.1\r\nA: b\r\n\r\nbody"), Some(20));
    assert_eq!(find_header_end(b"GET / HTTP/1.1\r\n"), None);
    assert_eq!(find_header_end(b"\r\n\r\n\r\n\r\n"), Some(0));
}

#[test]
fn trims_leading_spaces_and_tabs() {
    assert_eq!(trim_spaces(b" \t 42 "), b"42 ");
    assert_eq!(trim_spaces(b"   "), b"");
    assert_eq!(trim_spaces(b"x"), b"x");
}

#[test]
fn reads_a_header_value() {
    assert_eq!(header_value(b"Content-Length:  12", b"Content-Length:"), Some(&b"12"[..]));
    assert_eq!(header_value(b"Host: x", b"Content-Length:"), None);
    assert_eq!(header_value(b"Content", b"Content-Length:"), None);
}

#[test]
fn parses_content_lengths() {
    assert_eq!(parse_usize(b"0"), Ok(0));
    assert_eq!(parse_usize(b""), Ok(0));
    assert_eq!(parse_usize(b"12345"), Ok(12345));
    assert_eq!(parse_usize(b"12a"), Err(HttpError::InvalidContentLength));
    assert_eq!(parse_usize(b"99999999999999999999999"), Err(HttpError::ContentLengthOverflow));
    assert_eq!(parse_usize(b"99999999999999999999999x"), Err(HttpError::ContentLengthOverflow));
    assert_eq!(parse_usize(b"x99999999999999999999999"), Err(HttpError::InvalidContentLength));
}

#[test]
fn reads_request_heads() {
    let head = parse_request_head(b"POST /fraud-score HTTP/1.1\r\nHost: a\r\nContent-Length: 17").unwrap();
    assert!(head.is_fraud_score);
    assert!(!head.is_ready);
    assert_eq!(head.content_length, 17);
    let head = parse_request_head(b"GET /ready HTTP/1.1\r\ncontent-length: 3\r\n").unwrap();
    assert!(head.is_ready);
    assert_eq!(head.content_length, 3);
    let head = parse_request_head(b"GET /other HTTP/1.1\r\nHost: a").unwrap();
    assert!(!head.is_ready && !head.is_fraud_score);
    assert_eq!(head.content_length, 0);
    assert_eq!(parse_request_head(b"GET /ready HTTP/1.1").unwrap_err(), HttpError::InvalidRequestLine);
    assert_eq!(
        parse_request_head(b"GET / HTTP/1.1\r\nContent-Length: 1x").unwrap_err(),
        HttpError::InvalidContentLength
    );
    assert_eq!(parse_request_head(b"GET /ready\r\n").unwrap().is_ready, false);
}

#[test]
fn takes_requests_from_the_buffer() {
    let mut buffer = b"GET /ready HTTP/1.1\r\nHost: a\r\n\r\nGET /x HTTP/1.1\r\nHost: a\r\n\r\nPOST /fraud-score HTTP/1.1\r\nContent-Length: 2\r\n\r\n{}".to_vec();
    assert_eq!(parse_request(&mut buffer), Ok(ParsedRequest::Ready));
    assert_eq!(parse_request(&mut buffer), Ok(ParsedRequest::NotFound));
    let parsed = parse_request(&mut buffer).unwrap();
    assert_eq!(parsed, ParsedRequest::FraudScore { body_start: 49, body_len: 2, total_len: 51 });
    assert_eq!(buffer.len(), 51);
    assert_eq!(&buffer[49..51], b"{}");
}

#[test]
fn a_head_without_header_lines_has_no_request_line() {
    let mut buffer = b"GET /ready HTTP/1.1\r\n\r\n".to_vec();
    assert_eq!(parse_request(&mut buffer), Err(HttpError::InvalidRequestLine));
    assert_eq!(buffer.len(), 23);
}

#[test]
fn waits_for_the_rest_of_a_request() {
    let mut buffer = b"POST /fraud-score HTTP/1.1\r\nContent-Length: 10\r\n\r\n{}".to_vec();
    assert_eq!(parse_request(&mut buffer), Ok(ParsedRequest::Incomplete));
    assert_eq!(buffer.len(), 52);
    let mut partial = b"GET /ready HTTP/1.1\r\n".to_vec();
    assert_eq!(parse_request(&mut partial), Ok(ParsedRequest::Incomplete));
}

#[test]
fn refuses_overlong_heads_and_bodies() {
    let mut buffer = vec![b'a'; MAX_HEADER_LEN];
    assert_eq!(parse_request(&mut buffer), Ok(ParsedRequest::BadRequest));
    assert!(buffer.is_empty());
    let mut buffer = b"POST /fraud-score HTTP/1.1\r\nContent-Length: 70000\r\n\r\n".to_vec();
    assert_eq!(parse_request(&mut buffer), Ok(ParsedRequest::BadRequest));
    assert!(buffer.is_empty());
    let mut buffer = b"GET / HTTP/1.1\r\nContent-Length: x\r\n\r\n".to_vec();
    assert_eq!(parse_request(&mut buffer), Err(HttpError::InvalidContentLength));
    assert_eq!(buffer.len(), 37);
}

#[test]
fn drains_a_prefix() {
    let mut buffer = b"abcdef".to_vec();
    drain_request(&mut buffer, 2);
    assert_eq!(buffer, b"cdef");
    drain_request(&mut buffer, 4);
    assert!(buffer.is_empty());
}

#[test]
fn writes_decimal_numbers() {
    let mut out = Vec::new();
    push_usize(0, &mut out);
    push_usize(7, &mut out);
    push_usize(1234567890, &mut out);
    assert_eq!(out, b"071234567890");
    let mut out = Vec::new();
    push_usize(usize::MAX, &mut out);
    assert_eq!(out, usize::MAX.to_string().as_bytes());
}

#[test]
fn writes_a_json_answer_with_its_length() {
    let mut out = b"old".to_vec();
    write_json_response_bytes(b"{\"approved\":true}", &mut out);
    assert_eq!(
        out,
        b"HTTP/1.1 200 OK\r\nContent-Type: application/json\r\nContent-Length: 17\r\nConnection: keep-alive\r\n\r\n{\"approved\":true}"
    );
}

#[test]
fn decodes_worker_answer_headers() {
    assert_eq!(decode_lane_header(&[0, 0, 0, 0, 36]), Ok((UmbralStatus::Success, 36)));
    assert_eq!(decode_lane_header(&[3, 0, 0, 0, 0]), Ok((UmbralStatus::HandlerError, 0)));
    assert_eq!(decode_lane_header(&[0, 0, 0, 0, 65]), Err(LaneHeaderError::TooLong));
    assert_eq!(decode_lane_header(&[9, 0, 0, 0, 1]), Err(LaneHeaderError::UnknownStatus));
}

#[test]
fn frames_a_job_for_a_worker() {
    let buffer = b"HEADx{\"a\":1}rest";
    let frame = lane_job_frame(buffer, 1, 5, 7, 12).unwrap();
    assert_eq!(frame, b"\x01\x00\x00\x00\x07{\"a\":1}");
    assert!(lane_job_frame(buffer, 1, 5, 7, 40).is_none());
    assert!(lane_job_frame(buffer, 1, 10, 7, 12).is_none());
}

#[test]
fn lane_reads_header_then_body() {
    let header = [0_u8, 0, 0, 0, 4];
    assert_eq!(
        lane_read_step(LaneRead::Header { filled: 0 }, &header, ReadOutcome::Bytes(3)),
        LaneStep::ReadMore(LaneRead::Header { filled: 3 })
    );
    let body = LaneRead::Body { status: UmbralStatus::Success, len: 4, filled: 0 };
    assert_eq!(lane_read_step(LaneRead::Header { filled: 3 }, &header, ReadOutcome::Bytes(2)), LaneStep::ReadMore(body));
    assert_eq!(
        lane_read_step(body, &header, ReadOutcome::Bytes(1)),
        LaneStep::ReadMore(LaneRead::Body { status: UmbralStatus::Success, len: 4, filled: 1 })
    );
    assert_eq!(
        lane_read_step(LaneRead::Body { status: UmbralStatus::Success, len: 4, filled: 1 }, &header, ReadOutcome::Bytes(3)),
        LaneStep::Complete { status: UmbralStatus::Success, len: 4 }
    );
}

#[test]
fn lane_header_decides_the_answer() {
    assert_eq!(
        lane_read_step(LaneRead::Header { filled: 0 }, &[3, 0, 0, 0, 0], ReadOutcome::Bytes(5)),
        LaneStep::Complete { status: UmbralStatus::HandlerError, len: 0 }
    );
    assert_eq!(
        lane_read_step(LaneRead::Header { filled: 4 }, &[0, 0, 0, 0, 65], ReadOutcome::Bytes(1)),
        LaneStep::Reconnect
    );
    assert_eq!(
        lane_read_step(LaneRead::Header { filled: 4 }, &[9, 0, 0, 0, 1], ReadOutcome::Bytes(1)),
        LaneStep::Invalid
    );
}

#[test]
fn lane_reconnects_on_close_and_waits_on_would_block() {
    let state = LaneRead::Header { filled: 2 };
    assert_eq!(lane_read_step(state, &[0; 5], ReadOutcome::Closed), LaneStep::Reconnect);
    assert_eq!(lane_read_step(state, &[0; 5], ReadOutcome::Failed), LaneStep::Reconnect);
    assert_eq!(lane_read_step(state, &[0; 5], ReadOutcome::WouldBlock), LaneStep::Wait(state));
}

#[test]
fn a_worker_answer_is_read_back_by_the_balancer() {
    let header = response_header(UmbralStatus::PayloadTooLarge, 0);
    assert_eq!(
        lane_read_step(LaneRead::Header { filled: 0 }, &header, ReadOutcome::Bytes(5)),
        LaneStep::Complete { status: UmbralStatus::PayloadTooLarge, len: 0 }
    );
    let header = response_header(UmbralStatus::Success, 35);
    assert_eq!(
        lane_read_step(LaneRead::Header { filled: 0 }, &header, ReadOutcome::Bytes(5)),
        LaneStep::ReadMore(LaneRead::Body { status: UmbralStatus::Success, len: 35, filled: 0 })
    );
}

#[test]
fn the_balancer_answers_checks_and_unknown_paths_itself() {
    match client_action(ParsedRequest::Ready) {
        ClientAction::Answer { text, close } => {
            assert_eq!(text, "HTTP/1.1 200 OK\r\nContent-Length: 16\r\nConnection: keep-alive\r\n\r\nI was born ready");
            assert!(!close);
        }
        other => panic!("unexpected {other:?}"),
    }
    match client_action(ParsedRequest::NotFound) {
        ClientAction::Answer { text, close } => {
            assert!(text.starts_with("HTTP/1.1 404 Not Found\r\n"));
            assert!(!close);
        }
        other => panic!("unexpected {other:?}"),
    }
    match client_action(ParsedRequest::BadRequest) {
        ClientAction::Answer { text, close } => {
            assert!(text.starts_with("HTTP/1.1 400 Bad Request\r\n"));
            assert!(close);
        }
        other => panic!("unexpected {other:?}"),
    }
    assert!(matches!(client_action(ParsedRequest::Incomplete), ClientAction::Wait));
    assert!(matches!(
        client_action(ParsedRequest::FraudScore { body_start: 10, body_len: 4, total_len: 14 }),
        ClientAction::Dispatch { body_start: 10, body_len: 4, total_len: 14 }
    ));
}

#[test]
fn a_failed_worker_answer_becomes_service_unavailable() {
    let mut out = b"stale".to_vec();
    assert!(!worker_answer(UmbralStatus::Success, b"{}", &mut out));
    assert_eq!(
        out,
        b"HTTP/1.1 200 OK\r\nContent-Type: application/json\r\nContent-Length: 2\r\nConnection: keep-alive\r\n\r\n{}".to_vec()
    );
    assert!(worker_answer(UmbralStatus::HandlerError, b"{}", &mut out));
    assert_eq!(out, unavailable_text().as_bytes().to_vec());
    assert_eq!(
        unavailable_text(),
        "HTTP/1.1 503 Service Unavailable\r\nContent-Length: 0\r\nConnection: close\r\n\r\n"
    );
}

#[test]
fn a_lost_worker_connection_answers_service_unavailable() {
    let mut out = b"partial".to_vec();
    assert!(reconnect_answer(&mut out));
    assert_eq!(out, b"HTTP/1.1 503 Service Unavailable\r\nContent-Length: 0\r\nConnection: close\r\n\r\n".to_vec());
}

#[test]
fn requests_go_to_an_idle_lane_or_the_queue() {
    assert!(may_read_request(false, true));
    assert!(!may_read_request(true, true));
    assert!(!may_read_request(false, false));
    let parsed = ParsedRequest::FraudScore { body_start: 3, body_len: 7, total_len: 10 };
    assert!(matches!(
        dispatch_step(Some(2), parsed),
        DispatchAction::StartOnLane { lane: 2, body_start: 3, body_len: 7, total_len: 10 }
    ));
    assert!(matches!(
        dispatch_step(None, parsed),
        DispatchAction::Enqueue { body_start: 3, body_len: 7, total_len: 10 }
    ));
    assert!(matches!(dispatch_step(Some(1), ParsedRequest::Incomplete), DispatchAction::Wait));
    match dispatch_step(None, ParsedRequest::BadRequest) {
        DispatchAction::Answer { text, close } => {
            assert!(text.starts_with("HTTP/1.1 400 Bad Request\r\n"));
            assert!(close);
        }
        other => panic!("unexpected {other:?}"),
    }
}

#[test]
fn written_lengths_read_back() {
    for value in [0usize, 7, 10, 35, 65_536, usize::MAX] {
        let mut out = Vec::new();
        push_usize(value, &mut out);
        assert_eq!(parse_usize(&out), Ok(value));
    }
}
