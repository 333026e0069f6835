use endpoint_bindings::ident::{DeviceId, ValidationError, generate};

#[test]
fn generate_device_id() {
    assert_eq!(DeviceId::new().as_str().len(), 8);
}

#[test]
fn generated_id_parses_unchanged() {
    let id = DeviceId::generate_random(8);
    let text = String::from(id.as_str());
    assert_eq!(text.len(), 8);
    assert!(text.bytes().all(|b| b.is_ascii_alphanumeric()));
    let back = DeviceId::parse(&text).unwrap();
    assert_eq!(back.as_str(), text.as_str());
}

#[test]
fn generate_free_function() {
    assert_eq!(generate().as_str().len(), 8);
}

#[test]
fn parse_rejects_empty() {
    assert!(matches!(DeviceId::parse(""), Err(ValidationError::Empty)));
}

#[test]
fn parse_rejects_invalid_character_with_position() {
    assert!(matches!(
        DeviceId::parse("ab cd"),
        Err(ValidationError::InvalidCharacter { position: 2 })
    ));
}

#[test]
fn parse_is_deterministic() {
    let a = DeviceId::parse("HELLOabc123").unwrap();
    let b = DeviceId::parse("HELLOabc123").unwrap();
    assert_eq!(a.as_str(), b.as_str());
    assert!(DeviceId::parse("\u{7f}").is_err());
    assert!(DeviceId::parse("\u{7f}").is_err());
}

#[test]
fn borrowed_and_owned_compare_equal() {
    let borrowed = DeviceId::parse("DEVICE01").unwrap();
    let owned = DeviceId::parse_owned(String::from("DEVICE01")).unwrap();
    assert!(borrowed == owned);
    let other = DeviceId::parse("DEVICE02").unwrap();
    assert!(!(borrowed == other));
    let promoted = borrowed.into_owned();
    assert_eq!(promoted.as_str(), "DEVICE01");
}
