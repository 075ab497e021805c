//! HTTP answers of the scoring service.
use vstd::prelude::*;

use crate::ReferenceVector;
use crate::dto::RequestInput;
use crate::parser::{parse, spec_request};
use crate::response::{decimal, fraud_json};
use crate::service::{FraudDecision, Service, decision_ok};

verus! {

/// The method that scores a request body.
pub const FRAUD_SCORE_METHOD: u8 = 1;
/// The method that answers a readiness probe.
pub const READY_METHOD: u8 = 2;

/// Why a request could not be answered.
#[derive(Debug, Clone, Copy, PartialEq, Eq, Structural)]
pub enum HandlerError {
    InvalidRequest,
}

/// A `200 OK` answer with a JSON body and its exact length.
pub open spec fn http_json(body: Seq<char>) -> Seq<char> {
    "HTTP/1.1 200 OK\r\nContent-Type: application/json\r\nContent-Length: "@ + decimal(body.len())
        + "\r\nConnection: keep-alive\r\n\r\n"@ + body
}

/// The readiness answer: a `200 OK` with a plain body and its exact length.
pub open spec fn ready_text() -> Seq<char> {
    "HTTP/1.1 200 OK\r\nContent-Length: "@ + decimal("I was born ready"@.len()) + "\r\nConnection: keep-alive\r\n\r\n"@
        + "I was born ready"@
}

/// Answers a readiness probe; the service and body are not read.
pub fn ready_handler(_service: &Service, _body: &[u8]) -> (r: Result<&'static str, HandlerError>)
    ensures
        r matches Ok(text) && text@ == ready_text(),
{
    proof {
        reveal_strlit("HTTP/1.1 200 OK\r\nContent-Length: ");
        reveal_strlit("\r\nConnection: keep-alive\r\n\r\n");
        reveal_strlit("I was born ready");
        reveal_strlit("HTTP/1.1 200 OK\r\nContent-Length: 16\r\nConnection: keep-alive\r\n\r\nI was born ready");
        reveal_with_fuel(decimal, 2);
    }
    let text = "HTTP/1.1 200 OK\r\nContent-Length: 16\r\nConnection: keep-alive\r\n\r\nI was born ready";
    assert(text@ =~= ready_text());
    Ok(text)
}

/// The full HTTP answer for a fraud level.
pub fn score_response(level: u8) -> (r: &'static str)
    requires
        level <= 5,
    ensures
        r@ == http_json(fraud_json(level as nat)),
{
    proof {
        reveal_strlit("HTTP/1.1 200 OK\r\nContent-Type: application/json\r\nContent-Length: ");
        reveal_strlit("\r\nConnection: keep-alive\r\n\r\n");
        reveal_strlit("{\"approved\":");
        reveal_strlit("true");
        reveal_strlit("false");
        reveal_strlit(",\"fraud_score\":");
        reveal_strlit("}");
        reveal_with_fuel(decimal, 2);
    }
    if level == 0 {
        let text = "HTTP/1.1 200 OK\r\nContent-Type: application/json\r\nContent-Length: 35\r\nConnection: keep-alive\r\n\r\n{\"approved\":true,\"fraud_score\":0.0}";
        proof { reveal_strlit("HTTP/1.1 200 OK\r\nContent-Type: application/json\r\nContent-Length: 35\r\nConnection: keep-alive\r\n\r\n{\"approved\":true,\"fraud_score\":0.0}"); }
        assert(text@ =~= http_json(fraud_json(0)));
        text
    } else if level == 1 {
        let text = "HTTP/1.1 200 OK\r\nContent-Type: application/json\r\nContent-Length: 35\r\nConnection: keep-alive\r\n\r\n{\"approved\":true,\"fraud_score\":0.2}";
        proof { reveal_strlit("HTTP/1.1 200 OK\r\nContent-Type: application/json\r\nContent-Length: 35\r\nConnection: keep-alive\r\n\r\n{\"approved\":true,\"fraud_score\":0.2}"); }
        assert(text@ =~= http_json(fraud_json(1)));
        text
    } else if level == 2 {
        let text = "HTTP/1.1 200 OK\r\nContent-Type: application/json\r\nContent-Length: 35\r\nConnection: keep-alive\r\n\r\n{\"approved\":true,\"fraud_score\":0.4}";
        proof { reveal_strlit("HTTP/1.1 200 OK\r\nContent-Type: application/json\r\nContent-Length: 35\r\nConnection: keep-alive\r\n\r\n{\"approved\":true,\"fraud_score\":0.4}"); }
        assert(text@ =~= http_json(fraud_json(2)));
        text
    } else if level == 3 {
        let text = "HTTP/1.1 200 OK\r\nContent-Type: application/json\r\nContent-Length: 36\r\nConnection: keep-alive\r\n\r\n{\"approved\":false,\"fraud_score\":0.6}";
        proof { reveal_strlit("HTTP/1.1 200 OK\r\nContent-Type: application/json\r\nContent-Length: 36\r\nConnection: keep-alive\r\n\r\n{\"approved\":false,\"fraud_score\":0.6}"); }
        assert(text@ =~= http_json(fraud_json(3)));
        text
    } else if level == 4 {
        let text = "HTTP/1.1 200 OK\r\nContent-Type: application/json\r\nContent-Length: 36\r\nConnection: keep-alive\r\n\r\n{\"approved\":false,\"fraud_score\":0.8}";
        proof { reveal_strlit("HTTP/1.1 200 OK\r\nContent-Type: application/json\r\nContent-Length: 36\r\nConnection: keep-alive\r\n\r\n{\"approved\":false,\"fraud_score\":0.8}"); }
        assert(text@ =~= http_json(fraud_json(4)));
        text
    } else {
        let text = "HTTP/1.1 200 OK\r\nContent-Type: application/json\r\nContent-Length: 36\r\nConnection: keep-alive\r\n\r\n{\"approved\":false,\"fraud_score\":1.0}";
        proof { reveal_strlit("HTTP/1.1 200 OK\r\nContent-Type: application/json\r\nContent-Length: 36\r\nConnection: keep-alive\r\n\r\n{\"approved\":false,\"fraud_score\":1.0}"); }
        assert(text@ =~= http_json(fraud_json(5)));
        text
    }
}

/// Scores a request body: parses it, turns it into a vector with
/// `vectorize`, and answers with the service's fraud level. A body that does
/// not parse is refused.
pub fn score_handler<'b, F: Fn(&RequestInput<'b>) -> ReferenceVector>(
    service: &Service,
    body: &'b [u8],
    vectorize: F,
) -> (r: Result<&'static str, HandlerError>)
    requires
        service.wf(),
        forall|request: &RequestInput<'b>| vectorize.requires((request,)),
    ensures
        spec_request(body@) is Err <==> r is Err,
        r is Err ==> r == Err::<&'static str, HandlerError>(HandlerError::InvalidRequest),
        r matches Ok(text) ==> exists|request: RequestInput<'b>, vector: ReferenceVector, decision: FraudDecision|
            request.models(body@, spec_request(body@)->Ok_0) && vectorize.ensures((&request,), vector)
                && decision_ok(*service, vector@, decision) && text@ == http_json(
                fraud_json(decision.fraud_level as nat),
            ),
{
    let request = match parse(body) {
        Ok(request) => request,
        Err(_) => return Err(HandlerError::InvalidRequest),
    };
    let vector = vectorize(&request);
    let decision = service.decide(&vector);
    Ok(score_response(decision.fraud_level))
}

} // verus!
