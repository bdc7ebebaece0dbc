use quiz_rooms::fingerprint::{digest_hex, fingerprint_material, generate_unique_id};

#[test]
fn material_joins_fields_with_unknown_for_absent() {
    assert_eq!(fingerprint_material(None, None, None, "s3cret"), "unknown:unknown:unknown:s3cret");
    assert_eq!(
        fingerprint_material(Some("10.0.0.1"), Some("Mozilla/5.0"), Some("tag-7"), "s3cret"),
        "10.0.0.1:Mozilla/5.0:tag-7:s3cret"
    );
}

#[test]
fn fingerprint_is_hex_sha256_of_material() {
    assert_eq!(
        generate_unique_id(None, None, None, "s3cret"),
        "03b6c5c42685cd90011da904c8baeedb391789688ca50620b4ce7c6dce890a31"
    );
    assert_eq!(
        generate_unique_id(Some("10.0.0.1"), Some("Mozilla/5.0"), Some("tag-7"), "s3cret"),
        "a2c6e70e4968a992797485af4893343adcdd447bfe11035132ac1f3135dca4b2"
    );
}

#[test]
fn fingerprint_is_stable_and_input_sensitive() {
    let a = generate_unique_id(Some("1.2.3.4"), Some("ua"), None, "k");
    let b = generate_unique_id(Some("1.2.3.4"), Some("ua"), None, "k");
    let c = generate_unique_id(Some("1.2.3.5"), Some("ua"), None, "k");
    assert_eq!(a, b);
    assert_ne!(a, c);
    assert_eq!(a.len(), 64);
}

#[test]
fn digest_hex_writes_two_lower_case_digits_per_byte() {
    assert_eq!(digest_hex(&[0x00, 0xab, 0xff, 0x10]), "00abff10");
    assert_eq!(digest_hex(&[]), "");
}
