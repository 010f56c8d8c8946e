use idrac_fan_controller::curve::FanSpeed;
use idrac_fan_controller::idrac::{Idrac, IpmiCommand};

#[test]
fn new_idrac_has_manual_control_off() {
    assert_eq!(Idrac::new().fan_speed(), None);
}

#[test]
fn setting_a_speed_enables_manual_control_first() {
    let mut idrac = Idrac::new();
    let commands = idrac.set_manual_fan_speed(FanSpeed::new(10));
    assert_eq!(
        commands,
        vec![IpmiCommand::EnableManualFanControl, IpmiCommand::SetManualFanSpeed(FanSpeed::new(10))]
    );
    for command in commands {
        idrac.command_succeeded(command);
    }
    assert_eq!(idrac.fan_speed(), Some(FanSpeed::new(10)));
    // The same speed again sends nothing; another speed only sets it.
    assert!(idrac.set_manual_fan_speed(FanSpeed::new(10)).is_empty());
    assert_eq!(
        idrac.set_manual_fan_speed(FanSpeed::new(20)),
        vec![IpmiCommand::SetManualFanSpeed(FanSpeed::new(20))]
    );
}

#[test]
fn disabling_hands_back_control() {
    let mut idrac = Idrac::new();
    idrac.command_succeeded(IpmiCommand::SetManualFanSpeed(FanSpeed::new(30)));
    let commands = idrac.disable_manual_fan_control();
    assert_eq!(commands, vec![IpmiCommand::DisableManualFanControl]);
    idrac.command_succeeded(commands[0]);
    assert_eq!(idrac.fan_speed(), None);
}

#[test]
fn enabling_alone_keeps_state() {
    let mut idrac = Idrac::new();
    idrac.command_succeeded(IpmiCommand::EnableManualFanControl);
    assert_eq!(idrac.fan_speed(), None);
}

#[test]
fn raw_command_arguments() {
    assert_eq!(
        IpmiCommand::EnableManualFanControl.arguments(),
        vec!["-I", "open", "raw", "0x30", "0x30", "0x01", "0x00"]
    );
    assert_eq!(
        IpmiCommand::DisableManualFanControl.arguments(),
        vec!["-I", "open", "raw", "0x30", "0x30", "0x01", "0x01"]
    );
    assert_eq!(
        IpmiCommand::SetManualFanSpeed(FanSpeed::new(10)).arguments(),
        vec!["-I", "open", "raw", "0x30", "0x30", "0x02", "0xff", "0x0a"]
    );
    assert_eq!(
        IpmiCommand::SetManualFanSpeed(FanSpeed::new(100)).arguments(),
        vec!["-I", "open", "raw", "0x30", "0x30", "0x02", "0xff", "0x64"]
    );
    assert_eq!(
        IpmiCommand::SetManualFanSpeed(FanSpeed::new(0)).arguments().last().unwrap(),
        &format!("{:#04x}", 0u8)
    );
    assert_eq!(
        IpmiCommand::SetManualFanSpeed(FanSpeed::new(79)).arguments().last().unwrap(),
        &format!("{:#04x}", 79u8)
    );
}

#[test]
fn messages() {
    assert_eq!(IpmiCommand::EnableManualFanControl.announcement(), "Enabling manual fan control");
    assert_eq!(IpmiCommand::DisableManualFanControl.announcement(), "Disabling manual fan control");
    assert_eq!(
        IpmiCommand::SetManualFanSpeed(FanSpeed::new(20)).announcement(),
        "Setting manual fan speed to 20%"
    );
    assert_eq!(
        IpmiCommand::SetManualFanSpeed(FanSpeed::new(20)).failure_message("insufficient privilege level"),
        "couldn't set manual fan speed: insufficient privilege level"
    );
    assert_eq!(
        IpmiCommand::EnableManualFanControl.failure_message("x"),
        "couldn't enable manual fan control: x"
    );
    assert_eq!(
        IpmiCommand::DisableManualFanControl.failure_message(""),
        "couldn't disable manual fan control: "
    );
}

#[test]
fn failed_command_leaves_state_and_stops() {
    let mut idrac = Idrac::new();
    assert!(!idrac.record_outcome(IpmiCommand::SetManualFanSpeed(FanSpeed::new(40)), false));
    assert_eq!(idrac.fan_speed(), None);
    assert!(idrac.record_outcome(IpmiCommand::SetManualFanSpeed(FanSpeed::new(40)), true));
    assert_eq!(idrac.fan_speed(), Some(FanSpeed::new(40)));
    assert!(!idrac.record_outcome(IpmiCommand::DisableManualFanControl, false));
    assert_eq!(idrac.fan_speed(), Some(FanSpeed::new(40)));
}
