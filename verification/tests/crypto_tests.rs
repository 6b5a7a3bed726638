use agentic_data::crypto::base64::{base64_decode, base64_encode};
use agentic_data::crypto::redaction::{
    apply_redaction, detect_pii_in_string, luhn_check, PiiType, RedactionMethod,
};
use agentic_data::crypto::{FieldEncryptor, KeyManager, RedactionEngine, RedactionPolicy};
use agentic_data::types::{DataRecord, FieldMap, JsonValue};

fn fields(pairs: Vec<(&str, JsonValue)>) -> FieldMap {
    let mut m = FieldMap::new();
    for (k, v) in pairs {
        m.insert(k.to_string(), v);
    }
    m
}

fn text(s: &str) -> JsonValue {
    JsonValue::Str(s.to_string())
}

fn record_with(field: &str, value: &str) -> DataRecord {
    DataRecord::new("s", "n", fields(vec![(field, text(value))]))
}

// ── field encryption ──

#[test]
fn test_encrypt_decrypt_field() {
    let enc = FieldEncryptor::new("secret-key");
    let encrypted = enc.encrypt_field("email", "alice@example.com");
    assert!(FieldEncryptor::is_encrypted(&encrypted));
    let decrypted = enc.decrypt_field("email", &encrypted).unwrap();
    assert_eq!(decrypted, "alice@example.com");
}

#[test]
fn test_encrypt_record() {
    let enc = FieldEncryptor::new("key");
    let f = fields(vec![("name", text("Alice")), ("ssn", text("123-45-6789"))]);
    let mut record = DataRecord::new("s", "n", f);

    enc.encrypt_record(&mut record, &["ssn"]);
    assert!(FieldEncryptor::is_encrypted(record.get_str("ssn").unwrap()));
    assert_eq!(record.get_str("name"), Some("Alice"));

    enc.decrypt_record(&mut record, &["ssn"]).unwrap();
    assert_eq!(record.get_str("ssn"), Some("123-45-6789"));
}

#[test]
fn test_same_key_deterministic() {
    let enc = FieldEncryptor::new("key1");
    let a = enc.encrypt_field("f", "secret");
    let b = enc.encrypt_field("f", "secret");
    assert_eq!(a, b);
}

#[test]
fn test_base64_roundtrip() {
    let data = b"Hello, World!";
    let encoded = base64_encode(data);
    let decoded = base64_decode(&encoded).unwrap();
    assert_eq!(decoded, data);
}

#[test]
fn base64_exact_values() {
    assert_eq!(base64_encode(b""), "");
    assert_eq!(base64_encode(b"f"), "Zg==");
    assert_eq!(base64_encode(b"fo"), "Zm8=");
    assert_eq!(base64_encode(b"foo"), "Zm9v");
    assert_eq!(base64_encode(b"Hello, World!"), "SGVsbG8sIFdvcmxkIQ==");
    assert_eq!(base64_decode("Zm9vYmFy").unwrap(), b"foobar");
    assert_eq!(base64_decode("Zm9v!").unwrap(), b"foo");
    assert!(base64_decode("Z\u{e9}").is_err());
}

#[test]
fn encrypted_text_shape() {
    let enc = FieldEncryptor::new("key");
    let e = enc.encrypt_field("f", "abc");
    assert!(e.starts_with("ENC:"));
    // Three bytes of plain text give four base64 characters.
    assert_eq!(e.len(), 8);
    assert_ne!(&e[4..], "YWJj");
    let other = FieldEncryptor::new("other");
    assert_ne!(other.encrypt_field("f", "abc"), e);
    assert!(!FieldEncryptor::is_encrypted("enc:abc"));
}

#[test]
fn decrypt_errors() {
    let enc = FieldEncryptor::new("key");
    assert!(enc.decrypt_field("f", "plain").is_err());
    assert!(enc.decrypt_field("f", "ENC:!!!!").is_err());
    let from_key = FieldEncryptor::from_key([7u8; 32]);
    let e = from_key.encrypt_field("x", "v");
    assert_eq!(from_key.decrypt_field("x", &e).unwrap(), "v");
}

// ── key management ──

#[test]
fn test_create_key() {
    let mut km = KeyManager::new();
    let key = km.create_key("master", "my-secret");
    assert_eq!(key.len(), 32);
    assert!(km.is_active("master"));
    assert_eq!(km.key_count(), 1);
    assert_eq!(km.audit_log().len(), 1);
}

#[test]
fn test_rotate_key() {
    let mut km = KeyManager::new();
    km.create_key("k1", "old-pass");
    let new_key = km.rotate_key("k1", "new-pass").unwrap();
    assert_eq!(new_key.len(), 32);
    let keys = km.list_keys();
    assert_eq!(keys[0].2, 2);
    assert_eq!(km.audit_log().len(), 2);
}

#[test]
fn test_deactivate() {
    let mut km = KeyManager::new();
    km.create_key("temp", "pass");
    assert!(km.is_active("temp"));
    km.deactivate_key("temp").unwrap();
    assert!(!km.is_active("temp"));
}

#[test]
fn test_rotate_missing() {
    let mut km = KeyManager::new();
    assert!(km.rotate_key("missing", "pass").is_err());
}

#[test]
fn key_manager_details() {
    let mut km = KeyManager::new();
    let a = km.create_key("a", "pass");
    let b = km.create_key("b", "pass");
    assert_eq!(a, b);
    let r = km.rotate_key("a", "other").unwrap();
    assert_ne!(r, a);
    assert!(km.deactivate_key("missing").is_err());
    let keys = km.list_keys();
    assert_eq!(keys.len(), 2);
    assert_eq!(keys[0].0, "a");
    assert!(keys[1].1);
    assert_eq!(keys[1].2, 1);
    let log = km.audit_log();
    assert_eq!(log.len(), 3);
    assert_eq!(log[0].operation, "create");
    assert_eq!(log[2].operation, "rotate");
    assert_eq!(log[2].key_name, "a");
    // Creating a key under an existing name replaces it with version 1.
    km.create_key("a", "again");
    assert_eq!(km.key_count(), 2);
    assert_eq!(km.list_keys()[0].2, 1);
}

// ── redaction ──

#[test]
fn redaction_test_detect_email() {
    let rec = record_with("email", "alice@example.com");
    let detections = RedactionEngine::detect(&rec);
    assert!(detections.iter().any(|d| d.pii_type == PiiType::Email));
}

#[test]
fn test_detect_ssn() {
    let rec = record_with("ssn", "123-45-6789");
    let detections = RedactionEngine::detect(&rec);
    assert!(detections.iter().any(|d| d.pii_type == PiiType::Ssn));
}

#[test]
fn test_detect_ip() {
    let rec = record_with("ip", "192.168.1.1");
    let detections = RedactionEngine::detect(&rec);
    assert!(detections.iter().any(|d| d.pii_type == PiiType::IpAddress));
}

#[test]
fn test_redact_mask() {
    let f = fields(vec![("email", text("alice@example.com")), ("name", text("Alice"))]);
    let rec = DataRecord::new("s", "n", f);
    let policy = RedactionPolicy::default();
    let redacted = RedactionEngine::redact(&rec, &policy);
    assert_eq!(redacted.get_str("email"), Some("[REDACTED]"));
    assert_eq!(redacted.get_str("name"), Some("Alice"));
}

#[test]
fn test_redact_placeholder() {
    let rec = record_with("ssn", "123-45-6789");
    let policy = RedactionPolicy {
        types: vec![PiiType::Ssn],
        method: RedactionMethod::Placeholder,
        ..Default::default()
    };
    let redacted = RedactionEngine::redact(&rec, &policy);
    assert_eq!(redacted.get_str("ssn"), Some("XXX-XX-XXXX"));
}

#[test]
fn redact_remove_deletes_field() {
    let f = fields(vec![("email", text("alice@example.com")), ("name", text("Alice"))]);
    let rec = DataRecord::new("s", "n", f);
    let policy = RedactionPolicy {
        types: vec![PiiType::Email],
        method: RedactionMethod::Remove,
        ..Default::default()
    };
    let redacted = RedactionEngine::redact(&rec, &policy);
    assert!(redacted.get("email").is_none());
    assert_eq!(redacted.get_str("name"), Some("Alice"));
    assert_eq!(redacted.fields.len(), 1);
}

#[test]
fn test_luhn() {
    assert!(luhn_check("4111111111111111"));
    assert!(!luhn_check("1234567890123456"));
}

#[test]
fn test_no_false_positives() {
    let rec = record_with("note", "Just a normal note");
    let detections = RedactionEngine::detect(&rec);
    assert!(detections.is_empty());
}

#[test]
fn luhn_edge_cases() {
    assert!(luhn_check("0"));
    assert!(luhn_check("79927398713"));
    assert!(!luhn_check("79927398710"));
    assert!(!luhn_check("12a4"));
}

#[test]
fn pii_detection_details() {
    let d = detect_pii_in_string("contact", "alice@example.com");
    assert_eq!(d.len(), 1);
    assert_eq!(d[0].field, "contact");
    assert_eq!(d[0].pii_type, PiiType::Email);
    assert!(d[0].confidence > 0 && d[0].confidence <= 1000);
    assert!(detect_pii_in_string("x", "not@email").is_empty());
    assert!(detect_pii_in_string("x", "42").is_empty());
    assert!(detect_pii_in_string("x", "2026-03-13").is_empty());
}

#[test]
fn redaction_methods() {
    assert_eq!(apply_redaction("alice@example.com", &PiiType::Email, &RedactionMethod::Mask), "[REDACTED]");
    assert_eq!(apply_redaction("alice@example.com", &PiiType::Email, &RedactionMethod::Placeholder), "redacted@example.com");
    assert_eq!(apply_redaction("4111111111111111", &PiiType::CreditCard, &RedactionMethod::Placeholder), "XXXX-XXXX-XXXX-XXXX");
    let h = apply_redaction("secret", &PiiType::Ssn, &RedactionMethod::Hash);
    assert_eq!(h.len(), "HASH:".len() + 16);
    assert!(h.starts_with("HASH:"));
    assert_eq!(apply_redaction("secret", &PiiType::Ssn, &RedactionMethod::Hash), h);
    assert_eq!(apply_redaction("x", &PiiType::Custom("c".to_string()), &RedactionMethod::Remove), "");
}

#[test]
fn scan_batch_reports_each_record() {
    let a = record_with("email", "a@b.co");
    let b = record_with("note", "hello");
    let recs = vec![a, b];
    let found = RedactionEngine::scan_batch(&recs);
    assert_eq!(found.len(), 1);
    assert_eq!(found[0].0, recs[0].id);
}

#[test]
fn key_lifecycle_law() {
    let mut km = KeyManager::new();
    assert!(!km.is_active("prod"));
    km.create_key("prod", "p1");
    assert!(km.is_active("prod"));
    km.rotate_key("prod", "p2").unwrap();
    assert!(km.is_active("prod"));
    assert!(km.rotate_key("missing", "x").is_err());
    assert!(km.deactivate_key("missing").is_err());
    km.deactivate_key("prod").unwrap();
    assert!(!km.is_active("prod"));
    km.rotate_key("prod", "p3").unwrap();
    assert!(!km.is_active("prod"));
    km.create_key("prod", "p4");
    assert!(km.is_active("prod"));
    let ops: Vec<&str> = km.audit_log().iter().map(|e| e.operation.as_str()).collect();
    assert_eq!(ops, vec!["create", "rotate", "deactivate", "rotate", "create"]);
    assert!(km.audit_log().iter().all(|e| e.key_name == "prod"));
}
