use wire_vault::ipc::{accept_reply, frame_line, parse_method, IpcFault, IpcMethod, IpcResponse};
use wire_vault::refresh::RefreshState;

#[test]
fn first_resolution_needs_a_push() {
    let s = RefreshState::new();
    assert!(s.needs_update("peer-a", "203.0.113.5:51820"));
}

#[test]
fn unchanged_address_emits_nothing() {
    let mut s = RefreshState::new();
    s.record_pushed("peer-a", "203.0.113.5:51820");
    assert!(!s.needs_update("peer-a", "203.0.113.5:51820"));
    // repeated ticks with the same resolution keep emitting nothing
    assert!(!s.needs_update("peer-a", "203.0.113.5:51820"));
}

#[test]
fn changed_address_needs_a_push() {
    let mut s = RefreshState::new();
    s.record_pushed("peer-a", "203.0.113.5:51820");
    assert!(s.needs_update("peer-a", "198.51.100.9:51820"));
    s.record_pushed("peer-a", "198.51.100.9:51820");
    assert!(!s.needs_update("peer-a", "198.51.100.9:51820"));
}

#[test]
fn peers_are_tracked_independently() {
    let mut s = RefreshState::new();
    s.record_pushed("peer-a", "203.0.113.5:51820");
    assert!(s.needs_update("peer-b", "203.0.113.5:51820"));
    s.record_pushed("peer-b", "203.0.113.6:51820");
    assert!(!s.needs_update("peer-a", "203.0.113.5:51820"));
    assert!(!s.needs_update("peer-b", "203.0.113.6:51820"));
}

#[test]
fn method_names_round_trip() {
    assert_eq!(parse_method("start_tunnel"), Some(IpcMethod::StartTunnel));
    assert_eq!(parse_method("stop_tunnel"), Some(IpcMethod::StopTunnel));
    assert_eq!(parse_method("get_tunnel_status"), Some(IpcMethod::GetTunnelStatus));
    assert_eq!(parse_method("list_tunnels"), Some(IpcMethod::ListTunnels));
    assert_eq!(parse_method("ping"), Some(IpcMethod::Ping));
    assert_eq!(parse_method("reboot"), None);
    assert_eq!(parse_method(""), None);
}

#[test]
fn reply_with_wrong_id_is_rejected() {
    let resp = IpcResponse {
        id: "other".to_string(),
        result: Some("{}".to_string()),
        error: None,
    };
    assert_eq!(accept_reply("req-1", resp), Err(IpcFault::IdMismatch));
}

#[test]
fn reply_with_error_is_surfaced() {
    let resp = IpcResponse {
        id: "req-1".to_string(),
        result: None,
        error: Some("tunnel t1 is not running".to_string()),
    };
    match accept_reply("req-1", resp) {
        Err(IpcFault::Remote(msg)) => assert_eq!(msg, "tunnel t1 is not running"),
        other => panic!("unexpected: {other:?}"),
    }
}

#[test]
fn matching_reply_yields_payload() {
    let resp = IpcResponse {
        id: "req-1".to_string(),
        result: Some("{\"status\":\"ok\"}".to_string()),
        error: None,
    };
    assert_eq!(accept_reply("req-1", resp), Ok(Some("{\"status\":\"ok\"}".to_string())));
}

#[test]
fn framing_appends_the_terminator() {
    assert_eq!(frame_line("{\"id\":\"1\"}"), "{\"id\":\"1\"}\n");
}
