//! Client settings and the memory cap.

use vesper::config::Config;
use vesper::install_memory_backstop;
use vesper::memory::parse_number;

#[test]
fn sent_settings_are_kept() {
    let config = Config::from_value(Some(Config { dusk_home: Some("/opt/dusk".to_string()) }));
    assert_eq!(config.dusk_home.as_deref(), Some("/opt/dusk"));
    assert_eq!(config.apply(), Some(("DUSK_HOME".to_string(), "/opt/dusk".to_string())));
}

#[test]
fn missing_settings_fall_back_to_the_defaults() {
    let config = Config::from_value(None);
    assert_eq!(config, Config::default());
    assert_eq!(config.dusk_home, None);
    assert_eq!(config.apply(), None);
}

#[test]
fn the_default_cap_is_eight_gibibytes() {
    assert_eq!(install_memory_backstop(None, None, None), Some(8_589_934_592));
}

#[test]
fn the_setting_moves_the_cap() {
    assert_eq!(install_memory_backstop(Some("1"), None, None), Some(1_048_576));
    assert_eq!(install_memory_backstop(Some("512"), None, None), Some(536_870_912));
    assert_eq!(install_memory_backstop(Some("+2"), None, None), Some(2_097_152));
}

#[test]
fn zero_lifts_the_cap() {
    assert_eq!(install_memory_backstop(Some("0"), None, None), None);
    assert_eq!(install_memory_backstop(Some("000"), None, Some(5)), None);
}

#[test]
fn a_malformed_setting_falls_back_to_the_default() {
    for bad in ["", "+", "-1", "1.5", "8k", " 1", "18446744073709551616"] {
        assert_eq!(install_memory_backstop(Some(bad), None, None), Some(8_589_934_592), "{bad}");
    }
}

#[test]
fn the_cap_saturates() {
    assert_eq!(install_memory_backstop(Some("18446744073709551615"), None, None), Some(u64::MAX));
    assert_eq!(install_memory_backstop(Some("17592186044415"), None, None), Some(18_446_744_073_708_503_040));
    assert_eq!(install_memory_backstop(Some("17592186044416"), None, None), Some(u64::MAX));
}

#[test]
fn the_hard_limit_is_never_passed() {
    assert_eq!(install_memory_backstop(Some("4"), None, Some(1000)), Some(1000));
    assert_eq!(install_memory_backstop(Some("4"), None, Some(4_194_304)), Some(4_194_304));
    assert_eq!(install_memory_backstop(Some("4"), None, Some(u64::MAX)), Some(4_194_304));
}

#[test]
fn the_soft_limit_is_only_ever_lowered() {
    let mib = 1_048_576;
    // A soft limit above the target comes down to it.
    assert_eq!(install_memory_backstop(Some("4"), Some(5 * mib), None), Some(4 * mib));
    assert_eq!(install_memory_backstop(Some("4"), Some(5 * mib), Some(3 * mib)), Some(3 * mib));
    assert_eq!(install_memory_backstop(None, Some(u64::MAX), Some(u64::MAX)), Some(8192 * mib));
    // One at or below the target stays.
    assert_eq!(install_memory_backstop(Some("4"), Some(4 * mib), None), None);
    assert_eq!(install_memory_backstop(Some("4"), Some(2 * mib), Some(8 * mib)), None);
    assert_eq!(install_memory_backstop(None, Some(1), None), None);
    assert_eq!(install_memory_backstop(Some("4"), Some(3 * mib), Some(3 * mib)), None);
    // A lifted cap touches nothing.
    assert_eq!(install_memory_backstop(Some("0"), Some(u64::MAX), None), None);
}

#[test]
fn numbers_are_read_as_std_reads_them() {
    for text in [
        "", "+", "-", "0", "7", "+7", "-7", "++7", "007", "12345678901234567890",
        "18446744073709551615", "18446744073709551616", "99999999999999999999", "1_000", "１",
        "5 ", "+0",
    ] {
        assert_eq!(parse_number(text), text.parse::<u64>().ok(), "{text}");
    }
}
