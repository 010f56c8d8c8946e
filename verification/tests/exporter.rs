use idrac_fan_controller::curve::FanSpeed;
use idrac_fan_controller::metrics::{exporter_response, http_response, is_metrics_request, render_metrics};

#[test]
fn metrics_request_is_recognised() {
    assert!(is_metrics_request("GET /metrics HTTP/1.1\r\nHost: x\r\n\r\n"));
    assert!(is_metrics_request("  GET\t/metrics"));
    assert!(!is_metrics_request("GET /metrics/ HTTP/1.1\r\n"));
    assert!(!is_metrics_request("GET / HTTP/1.1\r\n"));
    assert!(!is_metrics_request("GET"));
    assert!(!is_metrics_request(""));
    assert!(!is_metrics_request("\nGET /metrics HTTP/1.1"));
}

#[test]
fn response_carries_length_and_body() {
    assert_eq!(
        http_response("404 Not Found", "text/plain", "Not Found\n"),
        "HTTP/1.1 404 Not Found\r\nContent-Type: text/plain\r\nContent-Length: 10\r\nConnection: close\r\n\r\nNot Found\n"
    );
    assert_eq!(
        http_response("200 OK", "text/plain", "˚"),
        "HTTP/1.1 200 OK\r\nContent-Type: text/plain\r\nContent-Length: 2\r\nConnection: close\r\n\r\n˚"
    );
}

#[test]
fn exporter_serves_metrics_and_not_found() {
    let body = render_metrics(Some(FanSpeed::new(35)));
    assert!(body.contains("idrac_fan_controller_speed 35\n"));
    let expected = format!(
        "HTTP/1.1 200 OK\r\nContent-Type: text/plain; version=0.0.4\r\nContent-Length: {}\r\nConnection: close\r\n\r\n{}",
        body.len(),
        body
    );
    assert_eq!(exporter_response("GET /metrics HTTP/1.1\r\n\r\n", Some(FanSpeed::new(35))), expected);
    assert_eq!(
        exporter_response("GET /other HTTP/1.1\r\n\r\n", None),
        "HTTP/1.1 404 Not Found\r\nContent-Type: text/plain\r\nContent-Length: 10\r\nConnection: close\r\n\r\nNot Found\n"
    );
}

#[test]
fn metrics_for_full_and_zero_speed() {
    assert!(render_metrics(Some(FanSpeed::new(100))).contains("idrac_fan_controller_speed 100\n"));
    assert!(render_metrics(Some(FanSpeed::new(0))).contains("idrac_fan_controller_speed 0\n# HELP"));
    assert!(render_metrics(Some(FanSpeed::new(0))).ends_with("idrac_fan_controller_status 1\n"));
}
