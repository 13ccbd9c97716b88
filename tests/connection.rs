use cast_connection::channel::{response_for_type, ChannelError, ConnectionChannel, ConnectionResponse};
use cast_connection::frame::{
    request_body_text, request_frame, Frame, FramePayload, CHANNEL_NAMESPACE,
};

fn text_frame(body: &str) -> Frame {
    Frame {
        namespace: CHANNEL_NAMESPACE.to_string(),
        source: "receiver-0".to_string(),
        destination: "sender-0".to_string(),
        payload: FramePayload::Text(body.to_string()),
    }
}

fn assert_request(frame: &Frame, destination: &str, kind: &str) {
    assert_eq!(frame.namespace, "urn:x-cast:com.google.cast.tp.connection");
    assert_eq!(frame.source, "sender-0");
    assert_eq!(frame.destination, destination);
    let expected = format!("{{\"type\":\"{}\",\"userAgent\":\"RustCast\"}}", kind);
    assert_eq!(frame.payload, FramePayload::Text(expected));
}

#[test]
fn connect_twice_sends_one_frame() {
    let mut channel = ConnectionChannel::new("sender-0");
    let first = channel.connect("receiver-0").expect("first connect sends");
    assert_request(&first, "receiver-0", "CONNECT");
    channel.connect_result("receiver-0", true);
    assert!(channel.is_connected("receiver-0"));
    assert!(channel.connect("receiver-0").is_none());
    assert!(channel.is_connected("receiver-0"));
}

#[test]
fn connect_while_pending_sends_nothing() {
    let mut channel = ConnectionChannel::new("sender-0");
    assert!(channel.connect("receiver-0").is_some());
    assert!(channel.connect("receiver-0").is_none());
    assert!(channel.connect("receiver-0").is_none());
    assert!(!channel.is_connected("receiver-0"));
    channel.connect_result("receiver-0", true);
    assert!(channel.is_connected("receiver-0"));
    assert!(channel.connect("receiver-0").is_none());
}

#[test]
fn failed_send_leaves_destination_unconnected() {
    let mut channel = ConnectionChannel::new("sender-0");
    assert!(channel.connect("receiver-0").is_some());
    channel.connect_result("receiver-0", false);
    assert!(!channel.is_connected("receiver-0"));
    let retry = channel.connect("receiver-0").expect("a failed send can be retried");
    assert_request(&retry, "receiver-0", "CONNECT");
}

#[test]
fn connect_two_destinations() {
    let mut channel = ConnectionChannel::new("sender-0");
    let a = channel.connect("receiver-0").expect("sends to the first");
    channel.connect_result("receiver-0", true);
    let b = channel.connect("web-1").expect("sends to the second");
    channel.connect_result("web-1", true);
    assert_request(&a, "receiver-0", "CONNECT");
    assert_request(&b, "web-1", "CONNECT");
    assert!(channel.is_connected("receiver-0"));
    assert!(channel.is_connected("web-1"));
    assert!(channel.connect("receiver-0").is_none());
    assert!(channel.connect("web-1").is_none());
}

#[test]
fn can_handle_exact_namespace_only() {
    let channel = ConnectionChannel::new("sender-0");
    let mut frame = text_frame("{}");
    assert!(channel.can_handle(&frame));
    for other in [
        "urn:x-cast:com.google.cast.tp.connection2",
        "urn:x-cast:com.google.cast.tp.connectio",
        "urn:x-cast:com.google.cast.tp.Connection",
        "urn:x-cast:com.google.cast.tp.heartbeat",
        "",
        " urn:x-cast:com.google.cast.tp.connection",
    ] {
        frame.namespace = other.to_string();
        assert!(!channel.can_handle(&frame), "{}", other);
    }
}

#[test]
fn parse_connect() {
    let channel = ConnectionChannel::new("sender-0");
    let r = channel.parse(&text_frame("{\"type\":\"CONNECT\"}"));
    assert!(matches!(r, Ok(ConnectionResponse::Connect)));
}

#[test]
fn parse_close() {
    let channel = ConnectionChannel::new("sender-0");
    let r = channel.parse(&text_frame("{\"type\":\"CLOSE\"}"));
    assert!(matches!(r, Ok(ConnectionResponse::Close)));
}

#[test]
fn parse_unrecognized_keeps_body() {
    let channel = ConnectionChannel::new("sender-0");
    let body = "{\"type\":\"PING\",\"extra\":1}";
    match channel.parse(&text_frame(body)) {
        Ok(ConnectionResponse::NotImplemented(t, raw)) => {
            assert_eq!(t, "PING");
            let expected: serde_json::Value = serde_json::from_str(body).unwrap();
            assert_eq!(raw, expected);
            assert_eq!(raw.get("extra").and_then(|v| v.as_i64()), Some(1));
        }
        other => panic!("unexpected {:?}", other),
    }
}

#[test]
fn parse_without_string_type_is_unrecognized() {
    let channel = ConnectionChannel::new("sender-0");
    for body in ["{}", "{\"foo\":1}", "{\"type\":5}", "{\"type\":7}", "{\"type\":null}", "[\"CONNECT\"]", "\"CONNECT\"", "{\"kind\":\"CLOSE\"}"] {
        match channel.parse(&text_frame(body)) {
            Ok(ConnectionResponse::NotImplemented(t, raw)) => {
                assert_eq!(t, "");
                let expected: serde_json::Value = serde_json::from_str(body).unwrap();
                assert_eq!(raw, expected);
            }
            other => panic!("unexpected {:?} for {}", other, body),
        }
    }
}

#[test]
fn parse_type_is_case_sensitive() {
    let channel = ConnectionChannel::new("sender-0");
    match channel.parse(&text_frame("{\"type\":\"connect\"}")) {
        Ok(ConnectionResponse::NotImplemented(t, _)) => assert_eq!(t, "connect"),
        other => panic!("unexpected {:?}", other),
    }
}

#[test]
fn parse_binary_is_internal_error() {
    let channel = ConnectionChannel::new("sender-0");
    let mut frame = text_frame("");
    frame.payload = FramePayload::Binary(vec![0x7b, 0x7d]);
    match channel.parse(&frame) {
        Err(ChannelError::Internal(m)) => assert_eq!(m, "Binary payload is not supported!"),
        other => panic!("unexpected {:?}", other),
    }
    frame.payload = FramePayload::Binary(vec![]);
    assert!(matches!(channel.parse(&frame), Err(ChannelError::Internal(_))));
}

#[test]
fn parse_malformed_text_is_serialization_error() {
    let channel = ConnectionChannel::new("sender-0");
    for body in ["", "{", "{\"type\":\"CONNECT\"", "CONNECT", "{\"type\":\"CLOSE\"} x"] {
        assert!(
            matches!(channel.parse(&text_frame(body)), Err(ChannelError::Serialization(_))),
            "{}",
            body
        );
    }
}

#[test]
fn disconnect_sends_close_without_connect() {
    let channel = ConnectionChannel::new("sender-0");
    let frame = channel.disconnect("receiver-0");
    assert_request(&frame, "receiver-0", "CLOSE");
    assert!(!channel.is_connected("receiver-0"));
}

#[test]
fn disconnect_keeps_connected_destination() {
    let mut channel = ConnectionChannel::new("sender-0");
    assert!(channel.connect("receiver-0").is_some());
    channel.connect_result("receiver-0", true);
    let frame = channel.disconnect("receiver-0");
    assert_request(&frame, "receiver-0", "CLOSE");
    assert!(channel.is_connected("receiver-0"));
    assert!(channel.connect("receiver-0").is_none());
}

#[test]
fn request_body_is_exact_json() {
    assert_eq!(request_body_text("CONNECT"), "{\"type\":\"CONNECT\",\"userAgent\":\"RustCast\"}");
    assert_eq!(request_body_text("CLOSE"), "{\"type\":\"CLOSE\",\"userAgent\":\"RustCast\"}");
    let v: serde_json::Value = serde_json::from_str(&request_body_text("CLOSE")).unwrap();
    assert_eq!(v.get("type").and_then(|t| t.as_str()), Some("CLOSE"));
    assert_eq!(v.get("userAgent").and_then(|t| t.as_str()), Some("RustCast"));
}

#[test]
fn request_frame_fields() {
    let f = request_frame("sender-0", "receiver-0", "CONNECT");
    assert_request(&f, "receiver-0", "CONNECT");
}

#[test]
fn response_for_each_type() {
    let raw: serde_json::Value = serde_json::from_str("{\"type\":\"X\"}").unwrap();
    assert!(matches!(response_for_type("CONNECT".to_string(), raw.clone()), ConnectionResponse::Connect));
    assert!(matches!(response_for_type("CLOSE".to_string(), raw.clone()), ConnectionResponse::Close));
    match response_for_type("X".to_string(), raw.clone()) {
        ConnectionResponse::NotImplemented(t, v) => {
            assert_eq!(t, "X");
            assert_eq!(v, raw);
        }
        other => panic!("unexpected {:?}", other),
    }
    assert!(matches!(
        response_for_type(String::new(), raw),
        ConnectionResponse::NotImplemented(ref t, _) if t.is_empty()
    ));
}

#[test]
fn empty_destination_names_are_tracked() {
    let mut channel = ConnectionChannel::new("");
    let f = channel.connect("").expect("sends");
    assert_eq!(f.source, "");
    assert_eq!(f.destination, "");
    channel.connect_result("", true);
    assert!(channel.is_connected(""));
    assert!(!channel.is_connected("receiver-0"));
}

#[test]
fn parse_same_payload_same_result() {
    let channel = ConnectionChannel::new("sender-0");
    let other = ConnectionChannel::new("sender-1");
    let a = text_frame("{\"type\":\"PING\",\"extra\":[1,2]}");
    let mut b = a.clone();
    b.namespace = "urn:x-cast:other".to_string();
    b.source = "x".to_string();
    match (channel.parse(&a), other.parse(&b)) {
        (Ok(ConnectionResponse::NotImplemented(t1, v1)), Ok(ConnectionResponse::NotImplemented(t2, v2))) => {
            assert_eq!(t1, t2);
            assert_eq!(v1, v2);
        }
        other => panic!("unexpected {:?}", other),
    }
}

#[test]
fn response_clone_keeps_body() {
    let channel = ConnectionChannel::new("sender-0");
    let r = channel.parse(&text_frame("{\"type\":\"PING\",\"extra\":1}")).unwrap();
    match (r.clone(), r) {
        (ConnectionResponse::NotImplemented(t1, v1), ConnectionResponse::NotImplemented(t2, v2)) => {
            assert_eq!(t1, t2);
            assert_eq!(v1, v2);
        }
        other => panic!("unexpected {:?}", other),
    }
}
