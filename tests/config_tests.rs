use quiz_rooms::config::{parse_decimal, parse_unsigned, user_from_claims, AppConfig, ConfigError};

#[test]
fn defaults_apply_to_missing_settings() {
    let c = AppConfig::from_settings(None, None, None).unwrap();
    assert_eq!(c.app_host, "0.0.0.0");
    assert_eq!(c.app_port, 8080);
    assert_eq!(c.worker_count, 1);
}

#[test]
fn settings_are_read() {
    let c = AppConfig::from_settings(Some("127.0.0.1".into()), Some("65535".into()), Some("8".into()))
        .unwrap();
    assert_eq!(c.app_host, "127.0.0.1");
    assert_eq!(c.app_port, 65535);
    assert_eq!(c.worker_count, 8);
}

#[test]
fn bad_numbers_are_rejected() {
    assert_eq!(
        AppConfig::from_settings(None, Some("65536".into()), None).err(),
        Some(ConfigError::InvalidPort)
    );
    assert_eq!(
        AppConfig::from_settings(None, Some("80a".into()), None).err(),
        Some(ConfigError::InvalidPort)
    );
    assert_eq!(
        AppConfig::from_settings(None, None, Some("".into())).err(),
        Some(ConfigError::InvalidWorkerCount)
    );
}

#[test]
fn a_leading_plus_is_read_as_std_reads_it() {
    let c = AppConfig::from_settings(None, Some("+8080".into()), Some("+4".into())).unwrap();
    assert_eq!(c.app_port, 8080);
    assert_eq!(c.worker_count, 4);
    assert_eq!(
        AppConfig::from_settings(None, Some("+".into()), None).err(),
        Some(ConfigError::InvalidPort)
    );
    assert_eq!(
        AppConfig::from_settings(None, Some("++80".into()), None).err(),
        Some(ConfigError::InvalidPort)
    );
    assert_eq!(parse_unsigned("+0", 10), Some(0));
    assert_eq!(parse_unsigned("-0", 10), None);
    assert_eq!(parse_unsigned("7", 10), Some(7));
}

#[test]
fn decimal_parsing_bounds() {
    assert_eq!(parse_decimal("0", 10), Some(0));
    assert_eq!(parse_decimal("010", 10), Some(10));
    assert_eq!(parse_decimal("11", 10), None);
    assert_eq!(parse_decimal("18446744073709551615", u64::MAX), Some(u64::MAX));
    assert_eq!(parse_decimal("18446744073709551616", u64::MAX), None);
    assert_eq!(parse_decimal("-1", 10), None);
    assert_eq!(parse_decimal("", 10), None);
}

#[test]
fn claims_subject_loses_its_prefix() {
    let u = user_from_claims("0x65f0c0ffee", "google").unwrap();
    assert_eq!(u.user_id, "65f0c0ffee");
    assert_eq!(u.method, "google");
    assert!(user_from_claims("0", "google").is_none());
}
