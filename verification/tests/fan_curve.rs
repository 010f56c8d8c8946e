use idrac_fan_controller::curve::{FanCurve, FanSpeed, Temperature};
use idrac_fan_controller::metrics::render_metrics;

#[test]
fn test_fan_config_from_empty_iter() {
    let config = FanCurve::from_iter(Vec::<String>::new());
    assert_eq!(Vec::<(Temperature, FanSpeed)>::new(), config.config)
}

#[test]
fn test_fan_config_from_iter() {
    let config = FanCurve::from_iter(vec!["50:10".to_owned(), "60:20".to_owned()]);
    assert_eq!(
        vec![
            (Temperature(50), FanSpeed::new(10)),
            (Temperature(60), FanSpeed::new(20))
        ],
        config.config
    )
}

#[test]
fn test_fan_config_from_unsorted_iter() {
    let config = FanCurve::from_iter(vec!["60:20".to_owned(), "50:10".to_owned()]);
    assert_eq!(
        vec![
            (Temperature(50), FanSpeed::new(10)),
            (Temperature(60), FanSpeed::new(20))
        ],
        config.config
    )
}

#[test]
fn test_empty_fan_config() {
    let config = FanCurve::new(&[]);
    assert_eq!(config.fan_speed(Temperature(0)), None);
    assert_eq!(config.fan_speed(Temperature(100)), None);
}

#[test]
fn test_simple_fan_config() {
    let config = FanCurve::new(&[(Temperature(50), FanSpeed::new(10))]);
    assert_eq!(config.fan_speed(Temperature(45)), Some(FanSpeed::new(10)));
    assert_eq!(config.fan_speed(Temperature(50)), None);
    assert_eq!(config.fan_speed(Temperature(55)), None);
}

#[test]
fn test_fan_config() {
    let config = FanCurve::new(&[
        (Temperature(50), FanSpeed::new(10)),
        (Temperature(60), FanSpeed::new(20)),
    ]);
    assert_eq!(config.fan_speed(Temperature(45)), Some(FanSpeed::new(10)));
    assert_eq!(config.fan_speed(Temperature(50)), Some(FanSpeed::new(20)));
    assert_eq!(config.fan_speed(Temperature(55)), Some(FanSpeed::new(20)));
    assert_eq!(config.fan_speed(Temperature(60)), None);
    assert_eq!(config.fan_speed(Temperature(65)), None);
}

#[test]
fn test_unsorted_fan_config() {
    let config = FanCurve::new(&[
        (Temperature(60), FanSpeed::new(20)),
        (Temperature(50), FanSpeed::new(10)),
    ]);
    assert_eq!(config.fan_speed(Temperature(45)), Some(FanSpeed::new(10)));
    assert_eq!(config.fan_speed(Temperature(50)), Some(FanSpeed::new(20)));
    assert_eq!(config.fan_speed(Temperature(55)), Some(FanSpeed::new(20)));
    assert_eq!(config.fan_speed(Temperature(60)), None);
    assert_eq!(config.fan_speed(Temperature(65)), None);
}

#[test]
fn test_hysteresis_ramp_up_instant() {
    let config = FanCurve::new(&[
        (Temperature(50), FanSpeed::new(10)),
        (Temperature(60), FanSpeed::new(20)),
    ]);

    // The fan speed should increase immediately.
    let target = config.gradual_fan_speed(Temperature(50), Some(FanSpeed::new(10)), 3);
    assert_eq!(target, Some(FanSpeed::new(20)));
}

#[test]
fn test_hysteresis_ramp_down_delayed() {
    let config = FanCurve::new(&[
        (Temperature(50), FanSpeed::new(10)),
        (Temperature(60), FanSpeed::new(20)),
    ]);

    // The fan speed should not decrease, since the new temperature is not 3 below the
    // specified temperature (50 - 3 = 47).
    let target = config.gradual_fan_speed(Temperature(48), Some(FanSpeed::new(20)), 3);
    assert_eq!(target, Some(FanSpeed::new(20)));

    // The temperature drops to 46 (4 below), the fan speed should now decrease.
    let target_cooled = config.gradual_fan_speed(Temperature(46), Some(FanSpeed::new(20)), 3);
    assert_eq!(target_cooled, Some(FanSpeed::new(10)));
}

#[test]
fn test_render_metrics_when_manual_fan_control_is_disabled() {
    assert_eq!(
        render_metrics(None),
        "# HELP idrac_fan_controller_speed Fan speed as a percent from 0 or 100, or -1 if manual fan speed is disabled.\n\
         # TYPE idrac_fan_controller_speed gauge\n\
         idrac_fan_controller_speed -1\n\
         # HELP idrac_fan_controller_status Is manual fan speed enabled (1 = yes, 0 = no).\n\
         # TYPE idrac_fan_controller_status gauge\n\
         idrac_fan_controller_status 0\n"
    );
}

#[test]
fn test_render_metrics_when_manual_fan_control_is_enabled() {
    assert_eq!(
        render_metrics(Some(FanSpeed::new(20))),
        "# HELP idrac_fan_controller_speed Fan speed as a percent from 0 or 100, or -1 if manual fan speed is disabled.\n\
         # TYPE idrac_fan_controller_speed gauge\n\
         idrac_fan_controller_speed 20\n\
         # HELP idrac_fan_controller_status Is manual fan speed enabled (1 = yes, 0 = no).\n\
         # TYPE idrac_fan_controller_status gauge\n\
         idrac_fan_controller_status 1\n"
    );
}

#[test]
fn hysteresis_decrease_at_exactly_the_offset() {
    let config = FanCurve::new(&[
        (Temperature(50), FanSpeed::new(10)),
        (Temperature(60), FanSpeed::new(20)),
    ]);
    // To drop to 50:10 from 60:20 the temperature must be at or below 50 - 3 = 47.
    assert_eq!(config.gradual_fan_speed(Temperature(48), Some(FanSpeed::new(20)), 3), Some(FanSpeed::new(20)));
    assert_eq!(config.gradual_fan_speed(Temperature(47), Some(FanSpeed::new(20)), 3), Some(FanSpeed::new(10)));
}

#[test]
fn hysteresis_without_manual_control_follows_curve() {
    let config = FanCurve::new(&[
        (Temperature(50), FanSpeed::new(10)),
        (Temperature(60), FanSpeed::new(20)),
    ]);
    assert_eq!(config.gradual_fan_speed(Temperature(48), None, 3), Some(FanSpeed::new(10)));
    assert_eq!(config.gradual_fan_speed(Temperature(65), Some(FanSpeed::new(20)), 3), None);
}

#[test]
fn hysteresis_keeps_current_when_no_lowered_entry_fits() {
    // Only one entry: lowered by the offset, 50 - 3 = 47 is below 48, so the current
    // speed, above the curve's, is kept.
    let config = FanCurve::new(&[(Temperature(50), FanSpeed::new(10))]);
    assert_eq!(config.gradual_fan_speed(Temperature(48), Some(FanSpeed::new(30)), 3), Some(FanSpeed::new(30)));
    // With an offset above the maximum, no temperature is far enough below it.
    assert_eq!(config.gradual_fan_speed(Temperature(1), Some(FanSpeed::new(30)), 80), Some(FanSpeed::new(30)));
    assert_eq!(config.gradual_fan_speed(Temperature(0), Some(FanSpeed::new(30)), 80), Some(FanSpeed::new(30)));
}

#[test]
fn hysteresis_skips_entries_below_the_offset() {
    let config = FanCurve::new(&[(Temperature(2), FanSpeed::new(10)), (Temperature(60), FanSpeed::new(20))]);
    assert_eq!(config.gradual_fan_speed(Temperature(0), Some(FanSpeed::new(20)), 3), Some(FanSpeed::new(20)));
    let config = FanCurve::new(&[(Temperature(0), FanSpeed::new(5)), (Temperature(10), FanSpeed::new(20))]);
    assert_eq!(config.gradual_fan_speed(Temperature(0), Some(FanSpeed::new(30)), 3), Some(FanSpeed::new(20)));
}

#[test]
fn curve_sort_is_stable() {
    let config = FanCurve::new(&[
        (Temperature(60), FanSpeed::new(30)),
        (Temperature(50), FanSpeed::new(10)),
        (Temperature(60), FanSpeed::new(20)),
        (Temperature(40), FanSpeed::new(5)),
    ]);
    assert_eq!(
        config.config,
        vec![
            (Temperature(40), FanSpeed::new(5)),
            (Temperature(50), FanSpeed::new(10)),
            (Temperature(60), FanSpeed::new(30)),
            (Temperature(60), FanSpeed::new(20)),
        ]
    );
    // Of two entries with the same maximum, the first given wins.
    assert_eq!(config.fan_speed(Temperature(55)), Some(FanSpeed::new(30)));
}

#[test]
fn fan_speed_percentage_and_text() {
    assert_eq!(FanSpeed::new(100).percentage(), 100);
    assert_eq!(FanSpeed::new(0).to_string(), "0%");
    assert_eq!(FanSpeed::new(20).to_string(), "20%");
    assert_eq!(Temperature(47).to_string(), "47˚C");
    assert_eq!(Temperature(4294967295).to_string(), "4294967295˚C");
}

#[test]
fn hysteresis_offset_is_a_whole_number() {
    let config = FanCurve::new(&[
        (Temperature(50), FanSpeed::new(10)),
        (Temperature(60), FanSpeed::new(20)),
        (Temperature(70), FanSpeed::new(30)),
    ]);
    // No maximum lies that far above 50, so the current speed is kept.
    let huge = (u32::MAX as usize).wrapping_add(1);
    if huge != 0 {
        assert_eq!(config.gradual_fan_speed(Temperature(50), Some(FanSpeed::new(30)), huge), Some(FanSpeed::new(30)));
    }
    assert_eq!(config.gradual_fan_speed(Temperature(50), Some(FanSpeed::new(30)), usize::MAX), Some(FanSpeed::new(30)));
    assert_eq!(config.gradual_fan_speed(Temperature(50), Some(FanSpeed::new(30)), 10), Some(FanSpeed::new(20)));
}
