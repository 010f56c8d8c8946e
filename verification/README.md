# idrac_fan_controller

The verified core of a fan controller for PowerEdge servers: it polls iDRAC for the
system temperature through `ipmitool` and either sets the fans by hand or hands them back
to iDRAC's own controller.

- `src/curve.rs`: temperatures, fan speeds and the fan curve (stable ordering by maximum
  temperature, lookup, hysteresis) with the laws they obey.
- `src/config.rs`: the `<max temperature>:<fan speed>` command-line arguments.
- `src/sensors.rs`: reading `ipmitool sdr type temperature` output; the hottest sensor.
- `src/idrac.rs`: the raw IPMI commands and iDRAC's known fan state.
- `src/controller.rs`: the rolling average, settings, and the control loop's decision.
- `src/metrics.rs`: the Prometheus metrics page and its HTTP response.
- `src/text.rs`: whitespace, trimming, words, unsigned decimal numbers.
- `app/main.rs`: the program: environment, `ipmitool` processes, sleeping, the exporter.
