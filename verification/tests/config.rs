use idrac_fan_controller::config::{parse_entry, EntryError};
use idrac_fan_controller::controller::setting_or_default;
use idrac_fan_controller::curve::{FanSpeed, Temperature};

#[test]
fn entry_parses_max_temperature_and_speed() {
    assert_eq!(parse_entry("50:10"), Ok((Temperature(50), FanSpeed::new(10))));
    assert_eq!(parse_entry("+60:+100"), Ok((Temperature(60), FanSpeed::new(100))));
    assert_eq!(parse_entry("0:0"), Ok((Temperature(0), FanSpeed::new(0))));
    assert_eq!(parse_entry("4294967295:007"), Ok((Temperature(4294967295), FanSpeed::new(7))));
}

#[test]
fn entry_needs_exactly_two_parts() {
    assert_eq!(parse_entry("50"), Err(EntryError::WrongPartCount));
    assert_eq!(parse_entry("50:10:1"), Err(EntryError::WrongPartCount));
    assert_eq!(parse_entry(""), Err(EntryError::WrongPartCount));
}

#[test]
fn entry_rejects_bad_max_temperature() {
    assert_eq!(parse_entry(":10"), Err(EntryError::BadMaxTemperature));
    assert_eq!(parse_entry("4294967296:10"), Err(EntryError::BadMaxTemperature));
    assert_eq!(parse_entry("-5:10"), Err(EntryError::BadMaxTemperature));
    assert_eq!(parse_entry(" 50:10"), Err(EntryError::BadMaxTemperature));
    assert_eq!(parse_entry("+:10"), Err(EntryError::BadMaxTemperature));
}

#[test]
fn entry_rejects_bad_fan_speed() {
    assert_eq!(parse_entry("50:"), Err(EntryError::BadFanSpeed));
    assert_eq!(parse_entry("50:256"), Err(EntryError::BadFanSpeed));
    assert_eq!(parse_entry("50:1a"), Err(EntryError::BadFanSpeed));
    // A bad fan speed is only reported once the maximum temperature parsed.
    assert_eq!(parse_entry("x:y"), Err(EntryError::BadMaxTemperature));
}

#[test]
fn entry_rejects_speed_above_full() {
    assert_eq!(parse_entry("50:101"), Err(EntryError::FanSpeedTooHigh));
    assert_eq!(parse_entry("50:255"), Err(EntryError::FanSpeedTooHigh));
}

#[test]
fn settings_default_and_parse() {
    assert_eq!(setting_or_default(None, 10, u64::MAX), Some(10));
    assert_eq!(setting_or_default(Some("30"), 10, u64::MAX), Some(30));
    assert_eq!(setting_or_default(Some("18446744073709551615"), 10, u64::MAX), Some(u64::MAX));
    assert_eq!(setting_or_default(Some("18446744073709551616"), 10, u64::MAX), None);
    assert_eq!(setting_or_default(Some("ten"), 10, u64::MAX), None);
    assert_eq!(setting_or_default(Some(""), 3, u64::MAX), None);
}
