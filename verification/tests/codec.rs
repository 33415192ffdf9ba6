use licenses_core::composite_key::key_of;
use licenses_core::decimal::{dec_to_u8, u8_to_dec};
use licenses_core::item::{item_to_license, license_to_item, Attr, Item};
use licenses_core::{License, RuntimeError};

fn sample(count: Option<u8>, expires_at: Option<&str>) -> License {
    License {
        customer_id: "00000000-0000-0000-0000-000000000000".to_string(),
        vessel_id: "00000000-0000-0000-0000-000000000001".to_string(),
        license_key: "weather.2022".to_string(),
        count,
        expires_at: expires_at.map(|s| s.to_string()),
    }
}

#[test]
fn key_of_joins_with_separator() {
    assert_eq!("a:b", key_of("a", "b"));
    assert_eq!(
        "00000000-0000-0000-0000-000000000000:00000000-0000-0000-0000-000000000001",
        key_of(
            "00000000-0000-0000-0000-000000000000",
            "00000000-0000-0000-0000-000000000001"
        )
    );
}

#[test]
fn count_renders_as_decimal_text() {
    assert_eq!("0", u8_to_dec(0));
    assert_eq!("7", u8_to_dec(7));
    assert_eq!("42", u8_to_dec(42));
    assert_eq!("100", u8_to_dec(100));
    assert_eq!("255", u8_to_dec(255));
}

#[test]
fn count_parses_exactly() {
    assert_eq!(Some(0), dec_to_u8("0"));
    assert_eq!(Some(42), dec_to_u8("42"));
    assert_eq!(Some(255), dec_to_u8("255"));
    assert_eq!(Some(7), dec_to_u8("007"));
    assert_eq!(None, dec_to_u8(""));
    assert_eq!(None, dec_to_u8("256"));
    assert_eq!(None, dec_to_u8("999999999999"));
    assert_eq!(None, dec_to_u8("4a"));
    assert_eq!(None, dec_to_u8("-1"));
}

#[test]
fn encoded_item_carries_the_wire_attributes() {
    let item = license_to_item(&sample(Some(2), Some("2011-01-30T14:58:00+01:00")));
    match item.get("customerAndVesselId") {
        Some(Attr::S(s)) => assert_eq!(
            "00000000-0000-0000-0000-000000000000:00000000-0000-0000-0000-000000000001",
            s.as_str()
        ),
        _ => panic!("partition attribute missing"),
    }
    match item.get("licenseKey") {
        Some(Attr::S(s)) => assert_eq!("weather.2022", s.as_str()),
        _ => panic!("sort attribute missing"),
    }
    match item.get("count") {
        Some(Attr::N(n)) => assert_eq!("2", n.as_str()),
        _ => panic!("count must be a numeric attribute"),
    }
    match item.get("expiresAt") {
        Some(Attr::S(s)) => assert_eq!("2011-01-30T14:58:00+01:00", s.as_str()),
        _ => panic!("expiry must be a string attribute"),
    }
}

#[test]
fn absent_optionals_are_omitted() {
    let item = license_to_item(&sample(None, None));
    assert!(item.get("count").is_none());
    assert!(item.get("expiresAt").is_none());
}

#[test]
fn item_round_trips() {
    let original = sample(Some(255), Some("2011-01-30T14:58:00+01:00"));
    let decoded = item_to_license(&license_to_item(&original)).unwrap();
    assert_eq!(original.customer_id, decoded.customer_id);
    assert_eq!(original.vessel_id, decoded.vessel_id);
    assert_eq!(original.license_key, decoded.license_key);
    assert_eq!(original.count, decoded.count);
    assert_eq!(original.expires_at, decoded.expires_at);
}

#[test]
fn missing_required_attribute_is_a_serialization_error() {
    let mut item = Item::new();
    item.push_string("customerId", "c".to_string());
    item.push_string("vesselId", "v".to_string());
    let err = item_to_license(&item).unwrap_err();
    assert!(matches!(err, RuntimeError::SerializationError(_)));
}

#[test]
fn wrongly_typed_count_is_a_serialization_error() {
    let mut item = Item::new();
    item.push_string("customerId", "c".to_string());
    item.push_string("vesselId", "v".to_string());
    item.push_string("licenseKey", "k".to_string());
    item.push_string("count", "2".to_string());
    assert!(item_to_license(&item).is_err());

    let mut too_big = Item::new();
    too_big.push_string("customerId", "c".to_string());
    too_big.push_string("vesselId", "v".to_string());
    too_big.push_string("licenseKey", "k".to_string());
    too_big.push_number("count", "256".to_string());
    assert!(item_to_license(&too_big).is_err());
}
