use rinha::VECTOR_DIMENSIONS;
use rinha::controller::{HandlerError, ready_handler, score_handler, score_response};
use rinha::dto::RequestInput;
use rinha::encoding::{contains_text, merchant_is_known, minutes_since_last};
use rinha::morton::{Morton, encode_morton, entry};
use rinha::parser::parse;
use rinha::reference::{JsonLabel, ReferenceDataset};
use rinha::response::{approved, fraud_response};
use rinha::kdtree::{KdTree, KdTreeBuilder};
use rinha::morton::MortonEntry;
use rinha::service::{DecisionSource, DecisionTally, FraudDecision, Service};
use rinha::timestamp::FastTimestamp;

const SAMPLE: &[u8] = br#"{
    "id": "tx-3576980410",
    "transaction": {"amount": 384.88, "installments": 3, "requested_at": "2026-03-11T20:23:35Z"},
    "customer": {"avg_amount": 769.76, "tx_count_24h": 3, "known_merchants": ["MERC-009", "MERC-001"]},
    "merchant": {"id": "MERC-001", "mcc": "5912", "avg_amount": 298.95},
    "terminal": {"is_online": false, "card_present": true, "km_from_home": 13.7090520965},
    "last_transaction": {"timestamp": "2026-03-11T14:58:35Z", "km_from_current": 18.8626479774}
}"#;

#[test]
fn answers_carry_their_level() {
    assert_eq!(fraud_response(0), "{\"approved\":true,\"fraud_score\":0.0}");
    assert_eq!(fraud_response(2), "{\"approved\":true,\"fraud_score\":0.4}");
    assert_eq!(fraud_response(3), "{\"approved\":false,\"fraud_score\":0.6}");
    assert_eq!(fraud_response(5), "{\"approved\":false,\"fraud_score\":1.0}");
}

#[test]
fn http_answers_declare_their_body_length() {
    for level in 0..=5u8 {
        let text = score_response(level);
        let body = fraud_response(level);
        assert!(text.ends_with(body));
        assert!(text.contains(&format!("Content-Length: {}\r\n", body.len())));
    }
}

fn kd_bytes(entries: &[MortonEntry]) -> Vec<u8> {
    KdTreeBuilder::build(entries).unwrap().encode()
}

#[test]
fn ready_answer() {
    let empty = encode_morton(&[]);
    let kd = kd_bytes(&[]);
    let service = Service::new(Morton::from_bytes(&empty, 8).unwrap(), KdTree::from_bytes(&kd).unwrap());
    assert!(service.is_consistent());
    assert_eq!(
        ready_handler(&service, b"").unwrap(),
        "HTTP/1.1 200 OK\r\nContent-Length: 16\r\nConnection: keep-alive\r\n\r\nI was born ready"
    );
}

/// Eleven legit references near the origin and five far away, the first
/// three of those fraud.
fn two_clusters() -> Vec<MortonEntry> {
    let mut entries = Vec::new();
    for i in 0..11 {
        let mut vector = [0_i16; VECTOR_DIMENSIONS];
        vector[0] = i as i16;
        entries.push(entry(vector, 0));
    }
    for i in 0..5 {
        let mut vector = [10_000_i16; VECTOR_DIMENSIONS];
        vector[0] = 10_000 - i as i16;
        entries.push(entry(vector, (i < 3) as u8));
    }
    entries.sort_unstable_by_key(|e| e.key);
    entries
}

#[test]
fn undecided_cases_go_to_the_kd_tree() {
    let entries = two_clusters();
    let morton_bytes = encode_morton(&entries);
    let kd = kd_bytes(&entries);
    let service = Service::new(Morton::from_bytes(&morton_bytes, 512).unwrap(), KdTree::from_bytes(&kd).unwrap());
    assert!(service.is_consistent());
    let near = service.decide(&[0; VECTOR_DIMENSIONS]);
    assert_eq!(near, FraudDecision { fraud_level: 0, source: DecisionSource::Morton });
    let far = service.decide(&[10_000; VECTOR_DIMENSIONS]);
    assert_eq!(far, FraudDecision { fraud_level: 3, source: DecisionSource::KdTree });
    assert_eq!(service.fraud_score(&[10_000; VECTOR_DIMENSIONS]), 3);
}

#[test]
fn scores_a_request_end_to_end() {
    let entries = two_clusters();
    let morton_bytes = encode_morton(&entries);
    let kd = kd_bytes(&entries);
    let service = Service::new(Morton::from_bytes(&morton_bytes, 512).unwrap(), KdTree::from_bytes(&kd).unwrap());
    let near = |_: &RequestInput| [0_i16; VECTOR_DIMENSIONS];
    let answer = score_handler(&service, SAMPLE, near).unwrap();
    assert!(answer.ends_with("{\"approved\":true,\"fraud_score\":0.0}"));
    let far = |_: &RequestInput| [10_000_i16; VECTOR_DIMENSIONS];
    let answer = score_handler(&service, SAMPLE, far).unwrap();
    assert!(answer.ends_with("{\"approved\":false,\"fraud_score\":0.6}"));
    assert_eq!(score_handler(&service, b"{", near), Err(HandlerError::InvalidRequest));
    assert_eq!(service.fraud_score(&[0; VECTOR_DIMENSIONS]), 0);
}

#[test]
fn searches_text() {
    assert!(contains_text("\"MERC-009\", \"MERC-001\"", "MERC-001"));
    assert!(!contains_text("\"MERC-009\"", "MERC-001"));
    assert!(contains_text("abc", ""));
    assert!(!contains_text("ab", "abc"));
    let request = parse(SAMPLE).unwrap();
    assert!(merchant_is_known(&request.customer, &request.merchant));
}

#[test]
fn calculates_minutes_since_last_transaction() {
    let request = parse(SAMPLE).unwrap();
    assert_eq!(
        minutes_since_last(request.transaction.requested_at, request.last_transaction),
        Some(325)
    );
    assert_eq!(minutes_since_last(request.transaction.requested_at, None), None);
    let later = rinha::dto::LastTransaction {
        timestamp: FastTimestamp::parse("2026-03-11T21:23:35Z").unwrap(),
        km_from_current: "0",
    };
    assert_eq!(minutes_since_last(request.transaction.requested_at, Some(later)), Some(0));
}

#[test]
fn packs_one_fraud_bit_per_reference() {
    let labels = [JsonLabel::Fraud, JsonLabel::Legit, JsonLabel::Legit, JsonLabel::Fraud, JsonLabel::Legit, JsonLabel::Legit, JsonLabel::Legit, JsonLabel::Legit, JsonLabel::Fraud];
    let vectors = vec![[0_i16; VECTOR_DIMENSIONS]; labels.len()];
    let dataset = ReferenceDataset::from_labelled(vectors, &labels);
    assert_eq!(dataset.fraud_bits, vec![0b0000_1001, 0b1]);
    assert_eq!(dataset.len(), 9);
    assert!(!dataset.is_empty());
    for (i, label) in labels.iter().enumerate() {
        assert_eq!(dataset.label_at(i), (*label == JsonLabel::Fraud) as u8);
    }
    assert_eq!(dataset.vector_at(8), [0; VECTOR_DIMENSIONS]);
}

#[test]
fn approval_stops_at_three_fifths() {
    assert!(approved(0));
    assert!(approved(2));
    assert!(!approved(3));
    assert!(!approved(5));
}

#[test]
fn the_tally_counts_decisions_and_mismatches_by_source() {
    let morton = |fraud_level| FraudDecision { fraud_level, source: DecisionSource::Morton };
    let kdtree = |fraud_level| FraudDecision { fraud_level, source: DecisionSource::KdTree };
    let mut tally = DecisionTally::new();
    tally.record(morton(1), true);
    tally.record(morton(4), true);
    tally.record(kdtree(5), false);
    tally.record(kdtree(2), false);
    tally.record(morton(3), false);
    assert_eq!(tally.morton_cases, 3);
    assert_eq!(tally.morton_mismatches, 1);
    assert_eq!(tally.kdtree_cases, 2);
    assert_eq!(tally.kdtree_mismatches, 1);
}
