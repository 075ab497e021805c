use rinha::consts::{DEFAULT_MCC_RISK, mcc_risk, mcc_risk_table, parse_u16};

fn risk(mcc: &str) -> f32 {
    mcc_risk(mcc) as f32 / 10_000.0
}

#[test]
fn consts_mcc_risk_is_sorted_for_binary_search() {
    let table = mcc_risk_table();
    assert!(table.windows(2).all(|pair| pair[0].0 < pair[1].0));
}

#[test]
fn encoding_mcc_risk_is_sorted_for_binary_search() {
    let codes: Vec<u16> = mcc_risk_table().iter().map(|(code, _)| *code).collect();
    assert!(codes.windows(2).all(|pair| pair[0] < pair[1]));
}

#[test]
fn consts_finds_known_mcc_risk() {
    assert_eq!(risk("7995"), 0.85);
    assert_eq!(risk("5411"), 0.15);
}

#[test]
fn consts_uses_default_for_unknown_or_invalid_mcc() {
    assert_eq!(mcc_risk("0000"), DEFAULT_MCC_RISK);
    assert_eq!(mcc_risk("invalid"), DEFAULT_MCC_RISK);
}

#[test]
fn encoding_finds_known_mcc_risk() {
    assert_eq!(risk("7995"), 0.85);
    assert_eq!(risk("5411"), 0.15);
}

#[test]
fn encoding_uses_default_for_unknown_or_invalid_mcc() {
    assert_eq!(risk("0000"), 0.5);
    assert_eq!(risk("invalid"), 0.5);
}

#[test]
fn every_table_entry_is_found() {
    for (code, value) in mcc_risk_table() {
        assert_eq!(mcc_risk(&code.to_string()), value);
    }
    assert_eq!(mcc_risk("+5912"), 2000);
    assert_eq!(mcc_risk("05912"), 2000);
}

#[test]
fn parses_u16_as_from_str_does() {
    for text in ["", "+", "-", "-5", "+5", "5", "0005", "65535", "65536", "99999", "12a", " 1", "1 "] {
        assert_eq!(parse_u16(text), text.parse::<u16>().ok(), "{text}");
    }
}
