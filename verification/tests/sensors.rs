use idrac_fan_controller::sensors::{get_max_temperature, read_sensors, temperatures_from_output};

const SAMPLE: &str = "Temp             | 01h | ok  |  3.1 | 50 degrees C
Temp             | 02h | ok  |  3.2 | 50 degrees C
Inlet Temp       | 05h | ok  |  7.1 | 31 degrees C
GPU1 Temp        | 89h | ns  |  7.1 | Disabled
GPU2 Temp        | 8Ah | ns  |  7.1 | Disabled
Exhaust Temp     | 06h | ok  |  7.1 | 40 degrees C
";

#[test]
fn readme_sample_highest_temperature() {
    let sensors = read_sensors(SAMPLE);
    assert_eq!(get_max_temperature(&sensors), Ok(50));
}

#[test]
fn later_reading_of_a_sensor_replaces_earlier() {
    let output = "Temp | 01h | ok | 3.1 | 70 degrees C\nTemp | 02h | ok | 3.2 | 45 degrees C\nInlet Temp | 05h | ok | 7.1 | 31 degrees C\n";
    assert_eq!(get_max_temperature(&read_sensors(output)), Ok(45));
}

#[test]
fn no_readings_is_an_error() {
    assert_eq!(get_max_temperature(&read_sensors("")), Err("couldn't find temperature".to_owned()));
    let output = "GPU1 Temp | 89h | ns | 7.1 | Disabled\nCPU | 01h | ns | 3.1 | No Reading\n";
    assert_eq!(get_max_temperature(&read_sensors(output)), Err("couldn't find temperature".to_owned()));
}

#[test]
fn lines_need_exactly_five_fields() {
    let output = "A | 1 | 2 | 3 | 4 | 90 degrees C\nB | 1 | 2 | 60 degrees C\nC | 1 | 2 | 3 | 35 degrees C";
    assert_eq!(get_max_temperature(&read_sensors(output)), Ok(35));
}

#[test]
fn crlf_lines_and_trailing_text() {
    let output = "A | 1 | 2 | 3 | 42\r\nB | 1 | 2 | 3 |\t\u{a0}43 degrees C \r\n";
    assert_eq!(get_max_temperature(&read_sensors(output)), Ok(43));
    // The reading must start with digits right after trimming.
    let output = "A | 1 | 2 | 3 | x42\n";
    assert_eq!(get_max_temperature(&read_sensors(output)), Err("couldn't find temperature".to_owned()));
}

#[test]
fn raw_output_must_be_utf8() {
    let sensors = temperatures_from_output(b"A | 1 | 2 | 3 | 42 degrees C\n".to_vec()).ok().unwrap();
    assert_eq!(get_max_temperature(&sensors), Ok(42));
    match temperatures_from_output(vec![0x41, 0xff, 0x0a]) {
        Ok(_) => panic!("invalid UTF-8 accepted"),
        Err(message) => {
            assert_eq!(message, "couldn't parse ipmitool output: invalid utf-8 sequence of 1 bytes from index 1");
            let decoded = String::from_utf8(vec![0x41, 0xff, 0x0a]).unwrap_err();
            assert_eq!(message, format!("couldn't parse ipmitool output: {}", decoded));
        }
    }
    match temperatures_from_output(vec![0x41, 0xe2, 0x82]) {
        Ok(_) => panic!("truncated UTF-8 accepted"),
        Err(message) => {
            assert_eq!(message, "couldn't parse ipmitool output: incomplete utf-8 byte sequence from index 1")
        }
    }
}
