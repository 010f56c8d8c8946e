use idrac_fan_controller::controller::{Action, Controller, RollingAverage};
use idrac_fan_controller::curve::{FanCurve, FanSpeed, Temperature};

fn curve() -> FanCurve {
    FanCurve::new(&[(Temperature(50), FanSpeed::new(10)), (Temperature(60), FanSpeed::new(20))])
}

#[test]
fn rolling_average_over_last_five() {
    let mut window = RollingAverage::new();
    assert_eq!(window.average(), None);
    for t in [10, 20, 30, 40, 50] {
        window.push(t);
    }
    assert_eq!(window.average(), Some(30));
    window.push(100);
    // 20 + 30 + 40 + 50 + 100 = 240
    assert_eq!(window.average(), Some(48));
    let mut window = RollingAverage::new();
    window.push(7);
    window.push(8);
    assert_eq!(window.average(), Some(7));
}

#[test]
fn rolling_average_overflow_is_reported() {
    let mut window = RollingAverage::new();
    window.push(u32::MAX);
    assert_eq!(window.average(), Some(u32::MAX));
    window.push(1);
    assert_eq!(window.average(), None);
}

#[test]
fn failed_reading_disables_manual_control() {
    let mut c = Controller::new(curve(), 3);
    assert_eq!(c.step(None, Some(FanSpeed::new(10))), Some(Action::DisableManualFanControl));
}

#[test]
fn step_follows_curve_with_hysteresis() {
    let mut c = Controller::new(curve(), 3);
    assert_eq!(c.step(Some(55), None), Some(Action::SetManualFanSpeed(FanSpeed::new(20))));
    // The average falls to (55 + 41) / 2 = 48: not yet 3 below 50.
    assert_eq!(c.step(Some(41), Some(FanSpeed::new(20))), Some(Action::SetManualFanSpeed(FanSpeed::new(20))));
    // (55 + 41 + 35) / 3 = 43.
    assert_eq!(c.step(Some(35), Some(FanSpeed::new(20))), Some(Action::SetManualFanSpeed(FanSpeed::new(10))));
}

#[test]
fn too_hot_hands_back_to_idrac() {
    let mut c = Controller::new(curve(), 3);
    assert_eq!(c.step(Some(70), Some(FanSpeed::new(20))), Some(Action::DisableManualFanControl));
}
