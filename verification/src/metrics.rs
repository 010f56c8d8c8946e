//! The Prometheus metrics page and the small HTTP exchange that serves it.

use vstd::prelude::*;
use vstd::string::*;
use crate::curve::FanSpeed;
use crate::sensors::{lemma_last_line, lemma_next_line, lines};
use crate::text::{
    chars_of, decimal, find_char, push_decimal, range_equals, skip_white_space, word_end, words,
};

verus! {

/// The metrics page's text before the fan speed.
pub open spec fn speed_preamble() -> Seq<char> {
    "# HELP idrac_fan_controller_speed Fan speed as a percent from 0 or 100, or -1 if manual fan speed is disabled.\n# TYPE idrac_fan_controller_speed gauge\nidrac_fan_controller_speed "@
}

/// The metrics page's text between the fan speed and the status.
pub open spec fn status_preamble() -> Seq<char> {
    "\n# HELP idrac_fan_controller_status Is manual fan speed enabled (1 = yes, 0 = no).\n# TYPE idrac_fan_controller_status gauge\nidrac_fan_controller_status "@
}

/// The metrics page for fan speed `fan_speed` (`None`: manual fan control is off): the
/// speed in percent, or -1, and the status 1 or 0.
pub open spec fn metrics_text(fan_speed: Option<FanSpeed>) -> Seq<char> {
    let (speed, status) = match fan_speed {
        Some(s) => (decimal(s@ as nat), "1"@),
        None => ("-1"@, "0"@),
    };
    speed_preamble() + speed + status_preamble() + status + "\n"@
}

/// The Prometheus metrics page for fan speed `fan_speed`.
pub fn render_metrics(fan_speed: Option<FanSpeed>) -> (page: String)
    ensures
        page@ == metrics_text(fan_speed),
{
    let mut page = "# HELP idrac_fan_controller_speed Fan speed as a percent from 0 or 100, or -1 if manual fan speed is disabled.\n# TYPE idrac_fan_controller_speed gauge\nidrac_fan_controller_speed ".to_owned();
    match fan_speed {
        Some(s) => push_decimal(&mut page, s.percentage() as u64),
        None => page.append("-1"),
    }
    page.append(
        "\n# HELP idrac_fan_controller_status Is manual fan speed enabled (1 = yes, 0 = no).\n# TYPE idrac_fan_controller_status gauge\nidrac_fan_controller_status ",
    );
    match fan_speed {
        Some(_) => page.append("1"),
        None => page.append("0"),
    }
    page.append("\n");
    page
}

/// An HTTP/1.1 response with status line `status`, header `Content-Type: content_type`,
/// the length of `body` in bytes (as `str::len` gives it), `Connection: close` and then `body`.
pub open spec fn http_text(status: Seq<char>, content_type: Seq<char>, body: Seq<char>) -> Seq<char> {
    "HTTP/1.1 "@ + status + "\r\nContent-Type: "@ + content_type + "\r\nContent-Length: "@
        + decimal((vstd::utf8::encode_utf8(body).len() as usize) as nat) + "\r\nConnection: close\r\n\r\n"@ + body
}

/// The HTTP response with status `status`, content type `content_type` and body `body`.
pub fn http_response(status: &str, content_type: &str, body: &str) -> (response: String)
    ensures
        response@ == http_text(status@, content_type@, body@),
{
    let mut response = "HTTP/1.1 ".to_owned();
    response.append(status);
    response.append("\r\nContent-Type: ");
    response.append(content_type);
    response.append("\r\nContent-Length: ");
    push_decimal(&mut response, body.len() as u64);
    response.append("\r\nConnection: close\r\n\r\n");
    response.append(body);
    assert(response@ =~= http_text(status@, content_type@, body@));
    response
}


/// The path that an HTTP request asks for: the second word of its first line.
pub open spec fn request_path(request: Seq<char>) -> Option<Seq<char>> {
    let request_lines = lines(request);
    if request_lines.len() > 0 && words(request_lines[0]).len() > 1 {
        Some(words(request_lines[0])[1])
    } else {
        None
    }
}

/// Whether `request` asks for the path `/metrics`.
pub fn is_metrics_request(request: &str) -> (b: bool)
    ensures
        b == (request_path(request@) == Some("/metrics"@)),
{
    let chars = chars_of(request);
    let n = chars.len();
    if n == 0 {
        return false;
    }
    let e = find_char(&chars, 0, n, '\n');
    let end = if e < n && e > 0 && chars[e - 1] == '\r' {
        e - 1
    } else {
        e
    };
    proof {
        let s = chars@;
        assert(s.skip(0) =~= s);
        if e < n {
            lemma_next_line(s, 0, e as int);
            assert(lines(s)[0] =~= s.subrange(0, end as int));
        } else {
            lemma_last_line(s, 0);
            assert(lines(s)[0] =~= s.subrange(0, end as int));
        }
    }
    let a = skip_white_space(&chars, 0, end);
    if a == end {
        assert(chars@.subrange(a as int, end as int).len() == 0);
        return false;
    }
    let first_end = word_end(&chars, a, end);
    let c = skip_white_space(&chars, first_end, end);
    if c == end {
        assert(chars@.subrange(c as int, end as int).len() == 0);
        return false;
    }
    let d = word_end(&chars, c, end);
    let metrics_path = chars_of("/metrics");
    range_equals(&chars, c, d, &metrics_path)
}

/// The response to the HTTP request `request` while the fans run at `fan_speed`.
pub open spec fn exporter_text(request: Seq<char>, fan_speed: Option<FanSpeed>) -> Seq<char> {
    if request_path(request) == Some("/metrics"@) {
        http_text("200 OK"@, "text/plain; version=0.0.4"@, metrics_text(fan_speed))
    } else {
        http_text("404 Not Found"@, "text/plain"@, "Not Found\n"@)
    }
}

/// The response to the HTTP request `request` while the fans run at `fan_speed`
/// (`None`: manual fan control is off): the metrics page for `/metrics`, else Not Found.
pub fn exporter_response(request: &str, fan_speed: Option<FanSpeed>) -> (response: String)
    ensures
        response@ == exporter_text(request@, fan_speed),
{
    if is_metrics_request(request) {
        let body = render_metrics(fan_speed);
        http_response("200 OK", "text/plain; version=0.0.4", body.as_str())
    } else {
        http_response("404 Not Found", "text/plain", "Not Found\n")
    }
}

} // verus!
