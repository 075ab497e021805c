//! A request parser for the one JSON layout the scorer accepts: keys in a
//! fixed order, values at fixed places.
use vstd::prelude::*;
use vstd::string::StringSliceAdditionalSpecFns;
use vstd::utf8::valid_utf8;

use crate::dto::{
    Customer, CustomerModel, LastTransaction, LastTransactionModel, Merchant, MerchantModel,
    RequestInput, RequestModel, Terminal, TerminalModel, TextSpan, Transaction, TransactionModel,
    text_is,
};
use crate::numtext::{float_text, is_float_text};
use crate::timestamp::{FastTimestamp, spec_parse_timestamp};

verus! {

broadcast use vstd::slice::group_slice_axioms;

/// Why a request was refused.
#[derive(Clone, Copy, Debug, PartialEq, Eq, Structural)]
pub enum ParseError {
    UnexpectedByte,
    UnterminatedString,
    UnterminatedArray,
    InvalidUtf8,
    EmptyNumber,
    InvalidNumber,
    InvalidFloat,
    InvalidBool,
    InvalidTimestamp,
    TrailingData,
}

pub open spec fn is_ws(c: u8) -> bool {
    c == 32 || c == 10 || c == 13 || c == 9
}

/// A byte that ends a number token.
pub open spec fn is_number_end(c: u8) -> bool {
    c == 44 || c == 125 || c == 93 || is_ws(c)
}

/// The first position at or after `p` that is not JSON whitespace.
pub open spec fn ws_end(b: Seq<u8>, p: int) -> int
    decreases b.len() - p,
{
    if 0 <= p < b.len() && is_ws(b[p]) { ws_end(b, p + 1) } else { p }
}

/// The first position at or after `p` that ends a number token.
pub open spec fn number_end(b: Seq<u8>, p: int) -> int
    decreases b.len() - p,
{
    if 0 <= p < b.len() && !is_number_end(b[p]) { number_end(b, p + 1) } else { p }
}

/// The first position at or after `p` that holds `c`.
pub open spec fn find_from(b: Seq<u8>, p: int, c: u8) -> Option<int>
    decreases b.len() - p,
{
    if p < 0 || p >= b.len() {
        None
    } else if b[p] == c {
        Some(p)
    } else {
        find_from(b, p + 1, c)
    }
}

/// `b` holds `lit` at `p`.
pub open spec fn has_literal(b: Seq<u8>, p: int, lit: Seq<u8>) -> bool {
    0 <= p && p + lit.len() <= b.len() && b.subrange(p, p + lit.len()) == lit
}

/// The byte at `p` is `c`; the position after it.
pub open spec fn spec_expect(b: Seq<u8>, p: int, c: u8) -> Result<int, ParseError> {
    if 0 <= p < b.len() && b[p] == c { Ok(p + 1) } else { Err(ParseError::UnexpectedByte) }
}

/// A quoted string after whitespace: its content span and the position after it.
pub open spec fn spec_string(b: Seq<u8>, p: int) -> Result<(TextSpan, int), ParseError> {
    match spec_expect(b, ws_end(b, p), 34) {
        Err(e) => Err(e),
        Ok(s) => match find_from(b, s, 34) {
            None => Err(ParseError::UnterminatedString),
            Some(e) => if valid_utf8(b.subrange(s, e)) {
                Ok((TextSpan { start: s, end: e }, e + 1))
            } else {
                Err(ParseError::InvalidUtf8)
            },
        },
    }
}

/// A key string followed by `:`.
pub open spec fn spec_key(b: Seq<u8>, p: int) -> Result<int, ParseError> {
    match spec_string(b, p) {
        Err(e) => Err(e),
        Ok((_, q)) => spec_expect(b, ws_end(b, q), 58),
    }
}

pub open spec fn spec_comma(b: Seq<u8>, p: int) -> Result<int, ParseError> {
    spec_expect(b, ws_end(b, p), 44)
}

/// `[` ... `]` after whitespace: the raw text between the brackets.
pub open spec fn spec_string_array(b: Seq<u8>, p: int) -> Result<(TextSpan, int), ParseError> {
    match spec_expect(b, ws_end(b, p), 91) {
        Err(e) => Err(e),
        Ok(s) => match find_from(b, s, 93) {
            None => Err(ParseError::UnterminatedArray),
            Some(e) => if valid_utf8(b.subrange(s, e)) {
                Ok((TextSpan { start: s, end: e }, e + 1))
            } else {
                Err(ParseError::InvalidUtf8)
            },
        },
    }
}

/// A number token after whitespace, checked against the `f64` syntax.
pub open spec fn spec_number(b: Seq<u8>, p: int) -> Result<(TextSpan, int), ParseError> {
    let q = ws_end(b, p);
    let e = number_end(b, q);
    if e == q {
        Err(ParseError::EmptyNumber)
    } else if !valid_utf8(b.subrange(q, e)) {
        Err(ParseError::InvalidNumber)
    } else if !float_text(b.subrange(q, e)) {
        Err(ParseError::InvalidFloat)
    } else {
        Ok((TextSpan { start: q, end: e }, e))
    }
}

pub open spec fn true_text() -> Seq<u8> {
    seq![116u8, 114, 117, 101]
}

pub open spec fn false_text() -> Seq<u8> {
    seq![102u8, 97, 108, 115, 101]
}

pub open spec fn null_text() -> Seq<u8> {
    seq![110u8, 117, 108, 108]
}

pub open spec fn spec_bool(b: Seq<u8>, p: int) -> Result<(bool, int), ParseError> {
    let q = ws_end(b, p);
    if has_literal(b, q, true_text()) {
        Ok((true, q + 4))
    } else if has_literal(b, q, false_text()) {
        Ok((false, q + 5))
    } else {
        Err(ParseError::InvalidBool)
    }
}

/// A string read as a timestamp.
pub open spec fn spec_timestamp(b: Seq<u8>, p: int) -> Result<(FastTimestamp, int), ParseError> {
    match spec_string(b, p) {
        Err(e) => Err(e),
        Ok((span, q)) => match spec_parse_timestamp(b.subrange(span.start, span.end)) {
            None => Err(ParseError::InvalidTimestamp),
            Some(t) => Ok((t, q)),
        },
    }
}

/// `{` after whitespace, then a key.
pub open spec fn spec_open(b: Seq<u8>, p: int) -> Result<int, ParseError> {
    match spec_expect(b, ws_end(b, p), 123) {
        Err(e) => Err(e),
        Ok(q) => spec_key(b, q),
    }
}

/// `,` then a key.
pub open spec fn spec_next_key(b: Seq<u8>, p: int) -> Result<int, ParseError> {
    match spec_comma(b, p) {
        Err(e) => Err(e),
        Ok(q) => spec_key(b, q),
    }
}

/// `}` after whitespace.
pub open spec fn spec_close(b: Seq<u8>, p: int) -> Result<int, ParseError> {
    spec_expect(b, ws_end(b, p), 125)
}

pub open spec fn spec_transaction(b: Seq<u8>, p: int) -> Result<(TransactionModel, int), ParseError> {
    match spec_open(b, p) {
        Err(e) => Err(e),
        Ok(p1) => match spec_number(b, p1) {
            Err(e) => Err(e),
            Ok((amount, p2)) => match spec_next_key(b, p2) {
                Err(e) => Err(e),
                Ok(p3) => match spec_number(b, p3) {
                    Err(e) => Err(e),
                    Ok((installments, p4)) => match spec_next_key(b, p4) {
                        Err(e) => Err(e),
                        Ok(p5) => match spec_timestamp(b, p5) {
                            Err(e) => Err(e),
                            Ok((requested_at, p6)) => match spec_close(b, p6) {
                                Err(e) => Err(e),
                                Ok(p7) => Ok(
                                    (TransactionModel { amount, installments, requested_at }, p7),
                                ),
                            },
                        },
                    },
                },
            },
        },
    }
}

pub open spec fn spec_customer(b: Seq<u8>, p: int) -> Result<(CustomerModel, int), ParseError> {
    match spec_open(b, p) {
        Err(e) => Err(e),
        Ok(p1) => match spec_number(b, p1) {
            Err(e) => Err(e),
            Ok((avg_amount, p2)) => match spec_next_key(b, p2) {
                Err(e) => Err(e),
                Ok(p3) => match spec_number(b, p3) {
                    Err(e) => Err(e),
                    Ok((tx_count_24h, p4)) => match spec_next_key(b, p4) {
                        Err(e) => Err(e),
                        Ok(p5) => match spec_string_array(b, p5) {
                            Err(e) => Err(e),
                            Ok((known_merchants, p6)) => match spec_close(b, p6) {
                                Err(e) => Err(e),
                                Ok(p7) => Ok(
                                    (CustomerModel { avg_amount, tx_count_24h, known_merchants }, p7),
                                ),
                            },
                        },
                    },
                },
            },
        },
    }
}

pub open spec fn spec_merchant(b: Seq<u8>, p: int) -> Result<(MerchantModel, int), ParseError> {
    match spec_open(b, p) {
        Err(e) => Err(e),
        Ok(p1) => match spec_string(b, p1) {
            Err(e) => Err(e),
            Ok((id, p2)) => match spec_next_key(b, p2) {
                Err(e) => Err(e),
                Ok(p3) => match spec_string(b, p3) {
                    Err(e) => Err(e),
                    Ok((mcc, p4)) => match spec_next_key(b, p4) {
                        Err(e) => Err(e),
                        Ok(p5) => match spec_number(b, p5) {
                            Err(e) => Err(e),
                            Ok((avg_amount, p6)) => match spec_close(b, p6) {
                                Err(e) => Err(e),
                                Ok(p7) => Ok((MerchantModel { id, mcc, avg_amount }, p7)),
                            },
                        },
                    },
                },
            },
        },
    }
}

pub open spec fn spec_terminal(b: Seq<u8>, p: int) -> Result<(TerminalModel, int), ParseError> {
    match spec_open(b, p) {
        Err(e) => Err(e),
        Ok(p1) => match spec_bool(b, p1) {
            Err(e) => Err(e),
            Ok((is_online, p2)) => match spec_next_key(b, p2) {
                Err(e) => Err(e),
                Ok(p3) => match spec_bool(b, p3) {
                    Err(e) => Err(e),
                    Ok((card_present, p4)) => match spec_next_key(b, p4) {
                        Err(e) => Err(e),
                        Ok(p5) => match spec_number(b, p5) {
                            Err(e) => Err(e),
                            Ok((km_from_home, p6)) => match spec_close(b, p6) {
                                Err(e) => Err(e),
                                Ok(p7) => Ok(
                                    (TerminalModel { is_online, card_present, km_from_home }, p7),
                                ),
                            },
                        },
                    },
                },
            },
        },
    }
}

pub open spec fn spec_last_transaction(b: Seq<u8>, p: int) -> Result<
    (Option<LastTransactionModel>, int),
    ParseError,
> {
    let q = ws_end(b, p);
    if has_literal(b, q, null_text()) {
        Ok((None, q + 4))
    } else {
        match spec_expect(b, q, 123) {
            Err(e) => Err(e),
            Ok(p0) => match spec_key(b, p0) {
                Err(e) => Err(e),
                Ok(p1) => match spec_timestamp(b, p1) {
                    Err(e) => Err(e),
                    Ok((timestamp, p2)) => match spec_next_key(b, p2) {
                        Err(e) => Err(e),
                        Ok(p3) => match spec_number(b, p3) {
                            Err(e) => Err(e),
                            Ok((km_from_current, p4)) => match spec_close(b, p4) {
                                Err(e) => Err(e),
                                Ok(p5) => Ok(
                                    (Some(LastTransactionModel { timestamp, km_from_current }), p5),
                                ),
                            },
                        },
                    },
                },
            },
        }
    }
}

/// The end of a request: `}`, optional whitespace, and nothing more.
pub open spec fn spec_finish(b: Seq<u8>, p: int) -> Result<int, ParseError> {
    match spec_close(b, p) {
        Err(e) => Err(e),
        Ok(q) => if ws_end(b, q) == b.len() { Ok(b.len() as int) } else { Err(ParseError::TrailingData) },
    }
}

/// What a request in `b` reads as: an id string, then the transaction, customer,
/// merchant, terminal and last transaction objects, each under some key, in this order.
pub open spec fn spec_request(b: Seq<u8>) -> Result<RequestModel, ParseError> {
    match spec_open(b, 0) {
        Err(e) => Err(e),
        Ok(p1) => match spec_string(b, p1) {
            Err(e) => Err(e),
            Ok((_, p2)) => match spec_next_key(b, p2) {
                Err(e) => Err(e),
                Ok(p3) => match spec_transaction(b, p3) {
                    Err(e) => Err(e),
                    Ok((transaction, p4)) => match spec_next_key(b, p4) {
                        Err(e) => Err(e),
                        Ok(p5) => match spec_customer(b, p5) {
                            Err(e) => Err(e),
                            Ok((customer, p6)) => match spec_next_key(b, p6) {
                                Err(e) => Err(e),
                                Ok(p7) => match spec_merchant(b, p7) {
                                    Err(e) => Err(e),
                                    Ok((merchant, p8)) => match spec_next_key(b, p8) {
                                        Err(e) => Err(e),
                                        Ok(p9) => match spec_terminal(b, p9) {
                                            Err(e) => Err(e),
                                            Ok((terminal, p10)) => match spec_next_key(b, p10) {
                                                Err(e) => Err(e),
                                                Ok(p11) => match spec_last_transaction(b, p11) {
                                                    Err(e) => Err(e),
                                                    Ok((last_transaction, p12)) => match spec_finish(
                                                        b,
                                                        p12,
                                                    ) {
                                                        Err(e) => Err(e),
                                                        Ok(_) => Ok(
                                                            RequestModel {
                                                                transaction,
                                                                customer,
                                                                merchant,
                                                                terminal,
                                                                last_transaction,
                                                            },
                                                        ),
                                                    },
                                                },
                                            },
                                        },
                                    },
                                },
                            },
                        },
                    },
                },
            },
        },
    }
}

/// `std::str::from_utf8`: a string exactly when the bytes are valid UTF-8, and then
/// one whose bytes are the input.
#[verifier::external_body]
fn utf8_str<'a>(bytes: &'a [u8]) -> (r: Option<&'a str>)
    ensures
        r is Some <==> valid_utf8(bytes@),
        r matches Some(s) ==> s.spec_bytes() == bytes@,
{
    std::str::from_utf8(bytes).ok()
}

/// Parses a scoring request.
pub fn parse<'a>(bytes: &'a [u8]) -> (r: Result<RequestInput<'a>, ParseError>)
    ensures
        match spec_request(bytes@) {
            Ok(m) => r matches Ok(req) && req.models(bytes@, m),
            Err(e) => r == Err::<RequestInput<'a>, ParseError>(e),
        },
{
    let mut parser = JsonParser::new(bytes);
    parser.parse_request()
}

struct JsonParser<'a> {
    bytes: &'a [u8],
    position: usize,
}

impl<'a> JsonParser<'a> {
    spec fn wf(&self) -> bool {
        self.position <= self.bytes@.len() <= usize::MAX
    }

    fn new(bytes: &'a [u8]) -> (r: Self)
        ensures
            r.bytes == bytes,
            r.position == 0,
            r.wf(),
    {
        assert(bytes@.len() == bytes.len());
        JsonParser { bytes, position: 0 }
    }

    fn parse_request(&mut self) -> (r: Result<RequestInput<'a>, ParseError>)
        requires
            old(self).wf(),
            old(self).position == 0,
        ensures
            match spec_request(old(self).bytes@) {
                Ok(m) => r matches Ok(req) && req.models(old(self).bytes@, m),
                Err(e) => r == Err::<RequestInput<'a>, ParseError>(e),
            },
    {
        self.skip_whitespace();
        if let Err(e) = self.byte(123) {
            return Err(e);
        }
        if let Err(e) = self.key() {
            return Err(e);
        }
        if let Err(e) = self.string() {
            return Err(e);
        }
        if let Err(e) = self.comma() {
            return Err(e);
        }
        if let Err(e) = self.key() {
            return Err(e);
        }
        let transaction = match self.parse_transaction() {
            Ok(t) => t,
            Err(e) => return Err(e),
        };
        if let Err(e) = self.comma() {
            return Err(e);
        }
        if let Err(e) = self.key() {
            return Err(e);
        }
        let customer = match self.parse_customer() {
            Ok(t) => t,
            Err(e) => return Err(e),
        };
        if let Err(e) = self.comma() {
            return Err(e);
        }
        if let Err(e) = self.key() {
            return Err(e);
        }
        let merchant = match self.parse_merchant() {
            Ok(t) => t,
            Err(e) => return Err(e),
        };
        if let Err(e) = self.comma() {
            return Err(e);
        }
        if let Err(e) = self.key() {
            return Err(e);
        }
        let terminal = match self.parse_terminal() {
            Ok(t) => t,
            Err(e) => return Err(e),
        };
        if let Err(e) = self.comma() {
            return Err(e);
        }
        if let Err(e) = self.key() {
            return Err(e);
        }
        let last_transaction = match self.parse_last_transaction() {
            Ok(t) => t,
            Err(e) => return Err(e),
        };
        self.skip_whitespace();
        if let Err(e) = self.byte(125) {
            return Err(e);
        }
        self.skip_whitespace();
        if !self.is_finished() {
            return Err(ParseError::TrailingData);
        }
        Ok(RequestInput { transaction, customer, merchant, terminal, last_transaction })
    }
    fn parse_transaction(&mut self) -> (r: Result<Transaction<'a>, ParseError>)
        requires
            old(self).wf(),
        ensures
            final(self).bytes == old(self).bytes,
            final(self).wf(),
            match spec_transaction(old(self).bytes@, old(self).position as int) {
                Ok((m, q)) => r matches Ok(t) && t.models(old(self).bytes@, m) && final(self).position == q,
                Err(e) => r == Err::<Transaction<'a>, ParseError>(e),
            },
    {
        self.skip_whitespace();
        if let Err(e) = self.byte(123) {
            return Err(e);
        }
        if let Err(e) = self.key() {
            return Err(e);
        }
        let amount = match self.number() {
            Ok(v) => v,
            Err(e) => return Err(e),
        };
        if let Err(e) = self.comma() {
            return Err(e);
        }
        if let Err(e) = self.key() {
            return Err(e);
        }
        let installments = match self.number() {
            Ok(v) => v,
            Err(e) => return Err(e),
        };
        if let Err(e) = self.comma() {
            return Err(e);
        }
        if let Err(e) = self.key() {
            return Err(e);
        }
        let requested_at = match self.timestamp() {
            Ok(v) => v,
            Err(e) => return Err(e),
        };
        self.skip_whitespace();
        if let Err(e) = self.byte(125) {
            return Err(e);
        }
        Ok(Transaction { amount, installments, requested_at })
    }

    fn parse_customer(&mut self) -> (r: Result<Customer<'a>, ParseError>)
        requires
            old(self).wf(),
        ensures
            final(self).bytes == old(self).bytes,
            final(self).wf(),
            match spec_customer(old(self).bytes@, old(self).position as int) {
                Ok((m, q)) => r matches Ok(t) && t.models(old(self).bytes@, m) && final(self).position == q,
                Err(e) => r == Err::<Customer<'a>, ParseError>(e),
            },
    {
        self.skip_whitespace();
        if let Err(e) = self.byte(123) {
            return Err(e);
        }
        if let Err(e) = self.key() {
            return Err(e);
        }
        let avg_amount = match self.number() {
            Ok(v) => v,
            Err(e) => return Err(e),
        };
        if let Err(e) = self.comma() {
            return Err(e);
        }
        if let Err(e) = self.key() {
            return Err(e);
        }
        let tx_count_24h = match self.number() {
            Ok(v) => v,
            Err(e) => return Err(e),
        };
        if let Err(e) = self.comma() {
            return Err(e);
        }
        if let Err(e) = self.key() {
            return Err(e);
        }
        let known_merchants = match self.string_array() {
            Ok(v) => v,
            Err(e) => return Err(e),
        };
        self.skip_whitespace();
        if let Err(e) = self.byte(125) {
            return Err(e);
        }
        Ok(Customer { avg_amount, tx_count_24h, known_merchants })
    }

    fn parse_merchant(&mut self) -> (r: Result<Merchant<'a>, ParseError>)
        requires
            old(self).wf(),
        ensures
            final(self).bytes == old(self).bytes,
            final(self).wf(),
            match spec_merchant(old(self).bytes@, old(self).position as int) {
                Ok((m, q)) => r matches Ok(t) && t.models(old(self).bytes@, m) && final(self).position == q,
                Err(e) => r == Err::<Merchant<'a>, ParseError>(e),
            },
    {
        self.skip_whitespace();
        if let Err(e) = self.byte(123) {
            return Err(e);
        }
        if let Err(e) = self.key() {
            return Err(e);
        }
        let id = match self.string() {
            Ok(v) => v,
            Err(e) => return Err(e),
        };
        if let Err(e) = self.comma() {
            return Err(e);
        }
        if let Err(e) = self.key() {
            return Err(e);
        }
        let mcc = match self.string() {
            Ok(v) => v,
            Err(e) => return Err(e),
        };
        if let Err(e) = self.comma() {
            return Err(e);
        }
        if let Err(e) = self.key() {
            return Err(e);
        }
        let avg_amount = match self.number() {
            Ok(v) => v,
            Err(e) => return Err(e),
        };
        self.skip_whitespace();
        if let Err(e) = self.byte(125) {
            return Err(e);
        }
        Ok(Merchant { id, mcc, avg_amount })
    }

    fn parse_terminal(&mut self) -> (r: Result<Terminal<'a>, ParseError>)
        requires
            old(self).wf(),
        ensures
            final(self).bytes == old(self).bytes,
            final(self).wf(),
            match spec_terminal(old(self).bytes@, old(self).position as int) {
                Ok((m, q)) => r matches Ok(t) && t.models(old(self).bytes@, m) && final(self).position == q,
                Err(e) => r == Err::<Terminal<'a>, ParseError>(e),
            },
    {
        self.skip_whitespace();
        if let Err(e) = self.byte(123) {
            return Err(e);
        }
        if let Err(e) = self.key() {
            return Err(e);
        }
        let is_online = match self.bool() {
            Ok(v) => v,
            Err(e) => return Err(e),
        };
        if let Err(e) = self.comma() {
            return Err(e);
        }
        if let Err(e) = self.key() {
            return Err(e);
        }
        let card_present = match self.bool() {
            Ok(v) => v,
            Err(e) => return Err(e),
        };
        if let Err(e) = self.comma() {
            return Err(e);
        }
        if let Err(e) = self.key() {
            return Err(e);
        }
        let km_from_home = match self.number() {
            Ok(v) => v,
            Err(e) => return Err(e),
        };
        self.skip_whitespace();
        if let Err(e) = self.byte(125) {
            return Err(e);
        }
        Ok(Terminal { is_online, card_present, km_from_home })
    }

    fn parse_last_transaction(&mut self) -> (r: Result<Option<LastTransaction<'a>>, ParseError>)
        requires
            old(self).wf(),
        ensures
            final(self).bytes == old(self).bytes,
            final(self).wf(),
            match spec_last_transaction(old(self).bytes@, old(self).position as int) {
                Ok((m, q)) => final(self).position == q && match (r, m) {
                    (Ok(None), None) => true,
                    (Ok(Some(t)), Some(lm)) => t.models(old(self).bytes@, lm),
                    _ => false,
                },
                Err(e) => r == Err::<Option<LastTransaction<'a>>, ParseError>(e),
            },
    {
        self.skip_whitespace();
        let null: [u8; 4] = [110, 117, 108, 108];
        assert(null@ == null_text());
        if self.literal(null.as_slice()) {
            return Ok(None);
        }
        if let Err(e) = self.byte(123) {
            return Err(e);
        }
        if let Err(e) = self.key() {
            return Err(e);
        }
        let timestamp = match self.timestamp() {
            Ok(v) => v,
            Err(e) => return Err(e),
        };
        if let Err(e) = self.comma() {
            return Err(e);
        }
        if let Err(e) = self.key() {
            return Err(e);
        }
        let km_from_current = match self.number() {
            Ok(v) => v,
            Err(e) => return Err(e),
        };
        self.skip_whitespace();
        if let Err(e) = self.byte(125) {
            return Err(e);
        }
        Ok(Some(LastTransaction { timestamp, km_from_current }))
    }

    /// A string read as a timestamp.
    fn timestamp(&mut self) -> (r: Result<FastTimestamp, ParseError>)
        requires
            old(self).wf(),
        ensures
            final(self).bytes == old(self).bytes,
            final(self).wf(),
            match spec_timestamp(old(self).bytes@, old(self).position as int) {
                Ok((t, q)) => r == Ok::<FastTimestamp, ParseError>(t) && final(self).position == q,
                Err(e) => r == Err::<FastTimestamp, ParseError>(e),
            },
    {
        let text = match self.string() {
            Ok(v) => v,
            Err(e) => return Err(e),
        };
        match FastTimestamp::parse(text) {
            Some(t) => Ok(t),
            None => Err(ParseError::InvalidTimestamp),
        }
    }

    fn key(&mut self) -> (r: Result<(), ParseError>)
        requires
            old(self).wf(),
        ensures
            final(self).bytes == old(self).bytes,
            final(self).wf(),
            match spec_key(old(self).bytes@, old(self).position as int) {
                Ok(q) => r is Ok && final(self).position == q,
                Err(e) => r == Err::<(), ParseError>(e),
            },
    {
        if let Err(e) = self.string() {
            return Err(e);
        }
        self.skip_whitespace();
        self.byte(58)
    }

    fn comma(&mut self) -> (r: Result<(), ParseError>)
        requires
            old(self).wf(),
        ensures
            final(self).bytes == old(self).bytes,
            final(self).wf(),
            match spec_comma(old(self).bytes@, old(self).position as int) {
                Ok(q) => r is Ok && final(self).position == q,
                Err(e) => r == Err::<(), ParseError>(e),
            },
    {
        self.skip_whitespace();
        self.byte(44)
    }

    fn string_array(&mut self) -> (r: Result<&'a str, ParseError>)
        requires
            old(self).wf(),
        ensures
            final(self).bytes == old(self).bytes,
            final(self).wf(),
            match spec_string_array(old(self).bytes@, old(self).position as int) {
                Ok((span, q)) => r matches Ok(s) && text_is(s, old(self).bytes@, span)
                    && final(self).position == q,
                Err(e) => r == Err::<&'a str, ParseError>(e),
            },
    {
        self.skip_whitespace();
        if let Err(e) = self.byte(91) {
            return Err(e);
        }
        let start = self.position;
        match find_byte(self.bytes, start, 93) {
            None => Err(ParseError::UnterminatedArray),
            Some(end) => {
                self.position = end + 1;
                match utf8_str(vstd::slice::slice_subrange(self.bytes, start, end)) {
                    Some(s) => Ok(s),
                    None => Err(ParseError::InvalidUtf8),
                }
            },
        }
    }

    fn string(&mut self) -> (r: Result<&'a str, ParseError>)
        requires
            old(self).wf(),
        ensures
            final(self).bytes == old(self).bytes,
            final(self).wf(),
            match spec_string(old(self).bytes@, old(self).position as int) {
                Ok((span, q)) => r matches Ok(s) && text_is(s, old(self).bytes@, span)
                    && final(self).position == q,
                Err(e) => r == Err::<&'a str, ParseError>(e),
            },
    {
        self.skip_whitespace();
        if let Err(e) = self.byte(34) {
            return Err(e);
        }
        let start = self.position;
        match find_byte(self.bytes, start, 34) {
            None => Err(ParseError::UnterminatedString),
            Some(end) => {
                self.position = end + 1;
                match utf8_str(vstd::slice::slice_subrange(self.bytes, start, end)) {
                    Some(s) => Ok(s),
                    None => Err(ParseError::InvalidUtf8),
                }
            },
        }
    }

    /// A number token, returned as text that `f64::from_str` accepts.
    fn number(&mut self) -> (r: Result<&'a str, ParseError>)
        requires
            old(self).wf(),
        ensures
            final(self).bytes == old(self).bytes,
            final(self).wf(),
            match spec_number(old(self).bytes@, old(self).position as int) {
                Ok((span, q)) => r matches Ok(s) && text_is(s, old(self).bytes@, span)
                    && final(self).position == q,
                Err(e) => r == Err::<&'a str, ParseError>(e),
            },
    {
        self.skip_whitespace();
        let start = self.position;
        if let Err(e) = self.skip_number() {
            return Err(e);
        }
        let text = vstd::slice::slice_subrange(self.bytes, start, self.position);
        match utf8_str(text) {
            None => Err(ParseError::InvalidNumber),
            Some(s) => if is_float_text(text) {
                Ok(s)
            } else {
                Err(ParseError::InvalidFloat)
            },
        }
    }

    fn bool(&mut self) -> (r: Result<bool, ParseError>)
        requires
            old(self).wf(),
        ensures
            final(self).bytes == old(self).bytes,
            final(self).wf(),
            match spec_bool(old(self).bytes@, old(self).position as int) {
                Ok((v, q)) => r == Ok::<bool, ParseError>(v) && final(self).position == q,
                Err(e) => r == Err::<bool, ParseError>(e),
            },
    {
        self.skip_whitespace();
        let t: [u8; 4] = [116, 114, 117, 101];
        let f: [u8; 5] = [102, 97, 108, 115, 101];
        assert(t@ == true_text());
        assert(f@ == false_text());
        if self.literal(t.as_slice()) {
            return Ok(true);
        }
        if self.literal(f.as_slice()) {
            return Ok(false);
        }
        Err(ParseError::InvalidBool)
    }

    fn skip_number(&mut self) -> (r: Result<(), ParseError>)
        requires
            old(self).wf(),
        ensures
            final(self).bytes == old(self).bytes,
            final(self).wf(),
            final(self).position == number_end(old(self).bytes@, old(self).position as int),
            old(self).position <= final(self).position,
            r is Ok <==> final(self).position != old(self).position,
            r is Err ==> r == Err::<(), ParseError>(ParseError::EmptyNumber),
    {
        let start = self.position;
        while self.position < self.bytes.len() && !ends_number(self.bytes[self.position])
            invariant
                self.bytes == old(self).bytes,
                self.wf(),
                start == old(self).position,
                start <= self.position,
                number_end(self.bytes@, self.position as int) == number_end(
                    self.bytes@,
                    start as int,
                ),
            decreases self.bytes@.len() - self.position,
        {
            self.position = self.position + 1;
        }
        if self.position == start {
            return Err(ParseError::EmptyNumber);
        }
        Ok(())
    }

    fn literal(&mut self, value: &[u8]) -> (r: bool)
        requires
            old(self).wf(),
        ensures
            final(self).bytes == old(self).bytes,
            final(self).wf(),
            r == has_literal(old(self).bytes@, old(self).position as int, value@),
            r ==> final(self).position == old(self).position + value@.len(),
            !r ==> final(self).position == old(self).position,
    {
        let p = self.position;
        if value.len() > self.bytes.len() - p {
            return false;
        }
        let mut i: usize = 0;
        while i < value.len()
            invariant
                self.bytes == old(self).bytes,
                self.wf(),
                p == old(self).position,
                self.position == p,
                p + value@.len() <= self.bytes@.len(),
                i <= value@.len(),
                forall|j: int| 0 <= j < i ==> self.bytes@[p + j] == value@[j],
            decreases value@.len() - i,
        {
            if self.bytes[p + i] != value[i] {
                assert(self.bytes@.subrange(p as int, p + value@.len())[i as int] != value@[i as int]);
                return false;
            }
            i = i + 1;
        }
        assert(self.bytes@.subrange(p as int, p + value@.len()) =~= value@);
        self.position = p + value.len();
        true
    }

    fn byte(&mut self, expected: u8) -> (r: Result<(), ParseError>)
        requires
            old(self).wf(),
        ensures
            final(self).bytes == old(self).bytes,
            final(self).wf(),
            match spec_expect(old(self).bytes@, old(self).position as int, expected) {
                Ok(q) => r is Ok && final(self).position == q,
                Err(e) => r == Err::<(), ParseError>(e),
            },
    {
        match self.next() {
            Some(b) => if b == expected {
                Ok(())
            } else {
                Err(ParseError::UnexpectedByte)
            },
            None => Err(ParseError::UnexpectedByte),
        }
    }

    fn skip_whitespace(&mut self)
        requires
            old(self).wf(),
        ensures
            final(self).bytes == old(self).bytes,
            final(self).wf(),
            final(self).position == ws_end(old(self).bytes@, old(self).position as int),
    {
        while self.position < self.bytes.len() && is_whitespace(self.bytes[self.position])
            invariant
                self.bytes == old(self).bytes,
                self.wf(),
                ws_end(self.bytes@, self.position as int) == ws_end(
                    self.bytes@,
                    old(self).position as int,
                ),
            decreases self.bytes@.len() - self.position,
        {
            self.position = self.position + 1;
        }
    }

    fn is_finished(&self) -> (r: bool)
        ensures
            r == (self.position == self.bytes@.len()),
    {
        self.position == self.bytes.len()
    }

    fn peek(&self) -> (r: Option<u8>)
        ensures
            self.position < self.bytes@.len() ==> r == Some(self.bytes@[self.position as int]),
            self.position >= self.bytes@.len() ==> r is None,
    {
        if self.position < self.bytes.len() {
            Some(self.bytes[self.position])
        } else {
            None
        }
    }

    fn next(&mut self) -> (r: Option<u8>)
        requires
            old(self).wf(),
        ensures
            final(self).bytes == old(self).bytes,
            final(self).wf(),
            old(self).position < old(self).bytes@.len() ==> r == Some(
                old(self).bytes@[old(self).position as int],
            ) && final(self).position == old(self).position + 1,
            old(self).position >= old(self).bytes@.len() ==> r is None,
    {
        match self.peek() {
            None => None,
            Some(b) => {
                self.position = self.position + 1;
                Some(b)
            },
        }
    }
}

fn is_whitespace(c: u8) -> (r: bool)
    ensures
        r == is_ws(c),
{
    c == 32 || c == 10 || c == 13 || c == 9
}

fn ends_number(c: u8) -> (r: bool)
    ensures
        r == is_number_end(c),
{
    c == 44 || c == 125 || c == 93 || is_whitespace(c)
}

/// The first position at or after `start` that holds `c`.
fn find_byte(bytes: &[u8], start: usize, c: u8) -> (r: Option<usize>)
    requires
        start <= bytes@.len(),
    ensures
        match r {
            Some(i) => find_from(bytes@, start as int, c) == Some(i as int) && start <= i < bytes@.len(),
            None => find_from(bytes@, start as int, c) is None,
        },
{
    let mut i = start;
    while i < bytes.len()
        invariant
            start <= i <= bytes@.len(),
            find_from(bytes@, i as int, c) == find_from(bytes@, start as int, c),
        decreases bytes@.len() - i,
    {
        if bytes[i] == c {
            return Some(i);
        }
        i = i + 1;
    }
    None
}

/// The bytes JSON counts as whitespace between tokens: space, tab, line feed
/// and carriage return.
pub open spec fn json_whitespace(c: u8) -> bool {
    c == 0x20u8 || c == 0x09u8 || c == 0x0au8 || c == 0x0du8
}

/// Skipping whitespace from `p` passes over every space, tab, line feed and
/// carriage return, and stops at the first other byte or at the end.
pub proof fn lemma_ws_end_skips_json_whitespace(b: Seq<u8>, p: int)
    requires
        0 <= p <= b.len(),
    ensures
        p <= ws_end(b, p) <= b.len(),
        forall|i: int| p <= i < ws_end(b, p) ==> json_whitespace(#[trigger] b[i]),
        ws_end(b, p) < b.len() ==> !json_whitespace(b[ws_end(b, p)]),
    decreases b.len() - p,
{
    if p < b.len() && is_ws(b[p]) {
        lemma_ws_end_skips_json_whitespace(b, p + 1);
    }
}

/// Whitespace is interchangeable: two inputs that differ only where both hold
/// JSON whitespace (any of space, tab, line feed, carriage return) skip to the
/// same place.
pub proof fn lemma_ws_end_any_whitespace(b: Seq<u8>, c: Seq<u8>, p: int)
    requires
        b.len() == c.len(),
        0 <= p <= b.len(),
        forall|i: int|
            0 <= i < b.len() ==> b[i] == c[i] || (json_whitespace(#[trigger] b[i]) && json_whitespace(c[i])),
    ensures
        ws_end(b, p) == ws_end(c, p),
    decreases b.len() - p,
{
    if p < b.len() {
        lemma_ws_end_any_whitespace(b, c, p + 1);
    }
}

/// A `,` or `}` after any run of spaces, tabs, line feeds and carriage
/// returns is read as that token, ending just after it.
pub proof fn lemma_token_after_whitespace(b: Seq<u8>, p: int, q: int)
    requires
        0 <= p <= q < b.len(),
        forall|i: int| p <= i < q ==> json_whitespace(#[trigger] b[i]),
    ensures
        ws_end(b, p) == q || json_whitespace(b[q]),
        b[q] == 44 ==> spec_comma(b, p) == Ok::<int, ParseError>(q + 1),
        b[q] == 125 ==> spec_close(b, p) == Ok::<int, ParseError>(q + 1),
    decreases q - p,
{
    if p < q {
        lemma_token_after_whitespace(b, p + 1, q);
    }
}

} // verus!
