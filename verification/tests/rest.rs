use samsungtv::rest::{
    after_failure, device_info_text, device_summary, status_lines, DeviceSummary, InfoError, Retry,
    RETRIES,
};

#[test]
fn retries_twice_with_growing_waits_then_gives_up() {
    assert_eq!(RETRIES, 3);
    assert_eq!(after_failure(1), Retry::After { next_attempt: 2, delay_ms: 500 });
    assert_eq!(after_failure(2), Retry::After { next_attempt: 3, delay_ms: 1000 });
    assert_eq!(after_failure(3), Retry::GiveUp);
    assert_eq!(after_failure(u32::MAX), Retry::GiveUp);
}

#[test]
fn waits_add_up_to_one_and_a_half_seconds() {
    let mut attempt = 1;
    let mut attempts = 1;
    let mut waited = 0;
    while let Retry::After { next_attempt, delay_ms } = after_failure(attempt) {
        attempt = next_attempt;
        attempts += 1;
        waited += delay_ms;
    }
    assert_eq!(attempts, 3);
    assert_eq!(waited, 1500);
}

#[test]
fn device_info_needs_success_and_json() {
    assert_eq!(
        device_info_text(404, "nope"),
        Err(InfoError::Http { status: 404, body: "nope".to_string() })
    );
    assert_eq!(
        device_info_text(199, "{}"),
        Err(InfoError::Http { status: 199, body: "{}".to_string() })
    );
    assert_eq!(device_info_text(200, "<html>"), Err(InfoError::NotJson("<html>".to_string())));
    assert_eq!(
        device_info_text(200, "{\"device\":{\"name\":\"TV\"}}").unwrap(),
        "{\n  \"device\": {\n    \"name\": \"TV\"\n  }\n}"
    );
    assert!(device_info_text(299, "[]").is_ok());
}

#[test]
fn status_shows_power_then_present_fields() {
    let info = "{\"device\":{\"name\":\"[TV] Samsung\",\"modelName\":\"UN65KU6300\",\"ip\":\"192.168.1.42\",\"wifiMac\":7}}";
    let device = device_summary(info);
    let lines = status_lines("on", &device);
    assert_eq!(
        lines,
        vec![
            "power    on",
            "name     [TV] Samsung",
            "model    UN65KU6300",
            "ip       192.168.1.42",
        ]
    );
    assert_eq!(status_lines("unreachable", &None), vec!["power    unreachable"]);
    assert!(device_summary("nope").is_none());
    let empty = DeviceSummary { name: None, model: None, ip: None, mac: Some("aa".to_string()) };
    assert_eq!(status_lines("standby", &Some(empty)), vec!["power    standby", "mac      aa"]);
}
