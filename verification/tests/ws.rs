use samsungtv::ws::{
    authorizes, check_event, drain_step, handshake_step, key_payload, power_from_probe,
    power_label, raw_payload, Event, Power, WsError,
};

fn event(name: &str, message: Option<&str>) -> Event {
    Event { event: Some(name.to_string()), message: message.map(|m| m.to_string()) }
}

#[test]
fn channel_timeout_maps_to_subnet_hint() {
    let event = event("ms.channel.timeOut", None);
    let err = check_event(&event).unwrap_err().message();
    assert!(err.contains("another subnet"), "got: {err}");
}

#[test]
fn no_authorized_maps_to_popup_hint() {
    let event = event("ms.error", Some("No Authorized"));
    let err = check_event(&event).unwrap_err().message();
    assert!(err.contains("popup"), "got: {err}");
}

#[test]
fn connect_event_is_ok() {
    let event = event("ms.channel.connect", None);
    assert!(check_event(&event).is_ok());
}

#[test]
fn other_tv_errors_carry_their_message() {
    let err = check_event(&event("ms.error", Some("Busy"))).unwrap_err();
    assert_eq!(err, WsError::Tv("Busy".to_string()));
    assert_eq!(err.message(), "TV error: Busy");
    let err = check_event(&event("ms.error", None)).unwrap_err();
    assert_eq!(err.message(), "TV error: unknown error");
    let err = check_event(&event("ms.error", Some("401 No Authorized!"))).unwrap_err();
    assert_eq!(err, WsError::NotAuthorized);
    assert!(check_event(&Event { event: None, message: Some("No Authorized".to_string()) }).is_ok());
    assert!(check_event(&event("ms.channel.ready", None)).is_ok());
}

#[test]
fn authorization_comes_with_connect() {
    assert_eq!(authorizes(&event("ms.channel.connect", None)), Ok(true));
    assert_eq!(authorizes(&event("ms.channel.clientConnect", None)), Ok(false));
    assert_eq!(authorizes(&event("ms.channel.timeOut", None)), Err(WsError::ChannelTimeout));
}

#[test]
fn handshake_reads_json_events() {
    assert_eq!(handshake_step(r#"{"event": "ms.channel.connect", "data": {}}"#), Ok(true));
    assert_eq!(handshake_step(r#"{"event": "ms.channel.timeOut"}"#), Err(WsError::ChannelTimeout));
    assert_eq!(
        handshake_step(r#"{"event": "ms.error", "data": {"message": "No Authorized"}}"#),
        Err(WsError::NotAuthorized)
    );
    assert_eq!(handshake_step(r#"{"event": 7}"#), Ok(false));
    assert_eq!(handshake_step("[1, 2]"), Ok(false));
    assert_eq!(handshake_step("not json"), Err(WsError::BadEvent));
}

#[test]
fn draining_passes_unknown_events() {
    assert_eq!(drain_step(r#"{"event": "ed.installedApp.get"}"#), Ok(()));
    assert_eq!(
        drain_step(r#"{"event": "ms.error", "data": {"message": "oops"}}"#),
        Err(WsError::Tv("oops".to_string()))
    );
    assert_eq!(drain_step("{"), Err(WsError::BadEvent));
}

#[test]
fn power_words() {
    assert_eq!(power_label(None), "unreachable");
    assert_eq!(power_label(Some(Power::On)), "on");
    assert_eq!(power_label(Some(Power::Standby)), "standby");
    assert_eq!(power_from_probe(true), Power::On);
    assert_eq!(power_from_probe(false), Power::Standby);
}

#[test]
fn raw_payload_is_compact_json_or_refused() {
    assert_eq!(
        raw_payload("{ \"method\" : \"ms.remote.control\" ,\n \"params\": [1, 2] }").as_deref(),
        Some("{\"method\":\"ms.remote.control\",\"params\":[1,2]}")
    );
    assert_eq!(raw_payload(" 7 ").as_deref(), Some("7"));
    assert_eq!(raw_payload("{not json"), None);
    assert_eq!(raw_payload(""), None);
}

#[test]
fn key_payload_presses_one_key() {
    assert_eq!(
        key_payload("KEY_POWER"),
        "{\"method\":\"ms.remote.control\",\"params\":{\"Cmd\":\"Click\",\"DataOfCmd\":\"KEY_POWER\",\"Option\":\"false\",\"TypeOfRemote\":\"SendRemoteKey\"}}"
    );
    assert!(key_payload("KEY_\"X\\").contains("\"DataOfCmd\":\"KEY_\\\"X\\\\\""));
}
