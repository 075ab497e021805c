//! A scoring request as the parser hands it out. Numbers are kept as their
//! decimal text, which `f64::from_str` is known to accept.
use vstd::prelude::*;
use vstd::string::StringSliceAdditionalSpecFns;

use crate::timestamp::FastTimestamp;

verus! {

pub struct RequestInput<'a> {
    pub transaction: Transaction<'a>,
    pub customer: Customer<'a>,
    pub merchant: Merchant<'a>,
    pub terminal: Terminal<'a>,
    pub last_transaction: Option<LastTransaction<'a>>,
}

#[derive(Clone, Copy)]
pub struct Transaction<'a> {
    pub amount: &'a str,
    pub installments: &'a str,
    pub requested_at: FastTimestamp,
}

pub struct Customer<'a> {
    pub avg_amount: &'a str,
    pub tx_count_24h: &'a str,
    /// The raw text between the brackets of the `known_merchants` array.
    pub known_merchants: &'a str,
}

pub struct Merchant<'a> {
    pub id: &'a str,
    pub mcc: &'a str,
    pub avg_amount: &'a str,
}

#[derive(Clone, Copy)]
pub struct Terminal<'a> {
    pub is_online: bool,
    pub card_present: bool,
    pub km_from_home: &'a str,
}

#[derive(Clone, Copy)]
pub struct LastTransaction<'a> {
    pub timestamp: FastTimestamp,
    pub km_from_current: &'a str,
}

/// A range `start..end` of the input bytes.
pub struct TextSpan {
    pub start: int,
    pub end: int,
}

pub struct TransactionModel {
    pub amount: TextSpan,
    pub installments: TextSpan,
    pub requested_at: FastTimestamp,
}

pub struct CustomerModel {
    pub avg_amount: TextSpan,
    pub tx_count_24h: TextSpan,
    pub known_merchants: TextSpan,
}

pub struct MerchantModel {
    pub id: TextSpan,
    pub mcc: TextSpan,
    pub avg_amount: TextSpan,
}

pub struct TerminalModel {
    pub is_online: bool,
    pub card_present: bool,
    pub km_from_home: TextSpan,
}

pub struct LastTransactionModel {
    pub timestamp: FastTimestamp,
    pub km_from_current: TextSpan,
}

/// Where each field of a request lies in the input, and the values read from it.
pub struct RequestModel {
    pub transaction: TransactionModel,
    pub customer: CustomerModel,
    pub merchant: MerchantModel,
    pub terminal: TerminalModel,
    pub last_transaction: Option<LastTransactionModel>,
}

/// The string holds exactly the bytes of `span` in `b`.
pub open spec fn text_is(s: &str, b: Seq<u8>, span: TextSpan) -> bool {
    s.spec_bytes() == b.subrange(span.start, span.end)
}

impl<'a> Transaction<'a> {
    pub open spec fn models(&self, b: Seq<u8>, m: TransactionModel) -> bool {
        &&& text_is(self.amount, b, m.amount)
        &&& text_is(self.installments, b, m.installments)
        &&& self.requested_at == m.requested_at
    }
}

impl<'a> Customer<'a> {
    pub open spec fn models(&self, b: Seq<u8>, m: CustomerModel) -> bool {
        &&& text_is(self.avg_amount, b, m.avg_amount)
        &&& text_is(self.tx_count_24h, b, m.tx_count_24h)
        &&& text_is(self.known_merchants, b, m.known_merchants)
    }
}

impl<'a> Merchant<'a> {
    pub open spec fn models(&self, b: Seq<u8>, m: MerchantModel) -> bool {
        &&& text_is(self.id, b, m.id)
        &&& text_is(self.mcc, b, m.mcc)
        &&& text_is(self.avg_amount, b, m.avg_amount)
    }
}

impl<'a> Terminal<'a> {
    pub open spec fn models(&self, b: Seq<u8>, m: TerminalModel) -> bool {
        &&& self.is_online == m.is_online
        &&& self.card_present == m.card_present
        &&& text_is(self.km_from_home, b, m.km_from_home)
    }
}

impl<'a> LastTransaction<'a> {
    pub open spec fn models(&self, b: Seq<u8>, m: LastTransactionModel) -> bool {
        &&& self.timestamp == m.timestamp
        &&& text_is(self.km_from_current, b, m.km_from_current)
    }
}

impl<'a> RequestInput<'a> {
    pub open spec fn models(&self, b: Seq<u8>, m: RequestModel) -> bool {
        &&& self.transaction.models(b, m.transaction)
        &&& self.customer.models(b, m.customer)
        &&& self.merchant.models(b, m.merchant)
        &&& self.terminal.models(b, m.terminal)
        &&& match (self.last_transaction, m.last_transaction) {
            (None, None) => true,
            (Some(l), Some(lm)) => l.models(b, lm),
            _ => false,
        }
    }
}

} // verus!
