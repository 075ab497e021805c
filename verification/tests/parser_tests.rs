use rinha::parser::parse;
use rinha::timestamp::FastTimestamp;

fn sample_json() -> &'static [u8] {
    br#"{
            "id": "tx-3576980410",
            "transaction": {
                "amount": 384.88,
                "installments": 3,
                "requested_at": "2026-03-11T20:23:35Z"
            },
            "customer": {
                "avg_amount": 769.76,
                "tx_count_24h": 3,
                "known_merchants": ["MERC-009", "MERC-009", "MERC-001", "MERC-001"]
            },
            "merchant": {
                "id": "MERC-001",
                "mcc": "5912",
                "avg_amount": 298.95
            },
            "terminal": {
                "is_online": false,
                "card_present": true,
                "km_from_home": 13.7090520965
            },
            "last_transaction": {
                "timestamp": "2026-03-11T14:58:35Z",
                "km_from_current": 18.8626479774
            }
        }"#
}

#[test]
fn parses_request() {
    let request = parse(sample_json()).unwrap();

    assert_eq!(request.transaction.amount.parse::<f64>().unwrap(), 384.88);
    assert!(request.customer.known_merchants.contains("MERC-001"));
    assert_eq!(request.merchant.id, "MERC-001");
    assert!(request.last_transaction.is_some());
}

#[test]
fn parses_null_last_transaction() {
    let json = br#"{
            "id": "tx-1",
            "transaction": {
                "amount": 384.88,
                "installments": 3,
                "requested_at": "2026-03-11T20:23:35Z"
            },
            "customer": {
                "avg_amount": 769.76,
                "tx_count_24h": 3,
                "known_merchants": ["MERC-001"]
            },
            "merchant": {
                "id": "MERC-001",
                "mcc": "5912",
                "avg_amount": 298.95
            },
            "terminal": {
                "is_online": false,
                "card_present": true,
                "km_from_home": 13.7
            },
            "last_transaction": null
        }"#;

    let request = parse(json).unwrap();
    assert!(request.last_transaction.is_none());
}

#[test]
fn parses_fast_timestamp_components() {
    let timestamp = FastTimestamp::parse("2026-03-11T20:23:35Z").unwrap();

    assert_eq!(timestamp.hour, 20);
    assert_eq!(timestamp.weekday_from_monday, 2);
    assert_eq!(timestamp.total_seconds(), 1_773_260_615);
}

#[test]
fn returns_error_for_structurally_invalid_json() {
    assert!(parse(br#"{"transaction":"#).is_err());
}

#[test]
fn parses_all_fields_of_the_sample() {
    let request = parse(sample_json()).unwrap();

    assert_eq!(request.transaction.installments, "3");
    assert_eq!(request.customer.avg_amount, "769.76");
    assert_eq!(request.customer.tx_count_24h, "3");
    assert_eq!(request.merchant.mcc, "5912");
    assert_eq!(request.merchant.avg_amount, "298.95");
    assert!(!request.terminal.is_online);
    assert!(request.terminal.card_present);
    assert_eq!(request.terminal.km_from_home, "13.7090520965");
    let last = request.last_transaction.unwrap();
    assert_eq!(last.km_from_current, "18.8626479774");
    assert_eq!(last.timestamp.hour, 14);
}

#[test]
fn refuses_a_number_that_is_not_a_number() {
    let json = br#"{"id":"x","transaction":{"amount":abc,"installments":3,"requested_at":"2026-03-11T20:23:35Z"}}"#;
    assert!(parse(json).is_err());
}

#[test]
fn timestamp_needs_nineteen_bytes() {
    assert!(FastTimestamp::parse("2026-03-11T20:23:3").is_none());
    let epoch = FastTimestamp::parse("1970-01-01T00:00:00Z").unwrap();
    assert_eq!(epoch.total_seconds(), 0);
    assert_eq!(epoch.weekday_from_monday, 3);
}
