use wire_vault::daemon::{engine_socket_path, DaemonState, DaemonTunnelRecord};
use wire_vault::ipc::TunnelConfigIpc;
use wire_vault::supervisor::{
    staleness_outcome, EngineHandle, RunningTunnel, StaleError, StartGate, StopPlan, Supervisor,
};

fn running(id: &str) -> RunningTunnel {
    RunningTunnel {
        tunnel_id: id.to_string(),
        interface_name: format!("tun-{id}"),
        handle: EngineHandle::Privileged(4242),
        config: None,
    }
}

fn record(id: &str) -> DaemonTunnelRecord {
    DaemonTunnelRecord {
        tunnel_id: id.to_string(),
        interface_name: format!("tun-{id}"),
        socket_path: format!("/var/run/wireguard/tun-{id}.sock"),
        config: TunnelConfigIpc {
            tunnel_id: id.to_string(),
            interface_name: format!("tun-{id}"),
            private_key: String::new(),
            address: "10.0.0.2/24".to_string(),
            listen_port: None,
            peers: vec![],
            wireguard_go_path: "/usr/local/bin/wireguard-go".to_string(),
            socket_dir: None,
        },
    }
}

#[test]
fn start_gate_refuses_running_id() {
    let mut s = Supervisor::new();
    s.register_started(running("t1"));
    assert_eq!(s.check_start("t1", false), StartGate::AlreadyRunning);
    assert_eq!(s.check_start("t1", true), StartGate::AlreadyRunning);
}

#[test]
fn start_gate_short_circuits_on_existing_interface() {
    // An interface left behind at the OS level blocks the start before any
    // engine could be spawned.
    let s = Supervisor::new();
    assert_eq!(s.check_start("t1", true), StartGate::InterfaceConflict);
    assert_eq!(s.check_start("t1", false), StartGate::Clear);
}

#[test]
fn stop_of_running_tunnel_kills_engine() {
    let mut s = Supervisor::new();
    s.register_started(running("t1"));
    assert_eq!(s.decide_stop("t1", true), StopPlan::KillEngine);
    assert_eq!(s.decide_stop("t1", false), StopPlan::KillEngine);
}

#[test]
fn stop_of_unknown_id_with_interface_recovers() {
    let s = Supervisor::new();
    assert_eq!(s.decide_stop("ghost", true), StopPlan::StaleRecovery);
}

#[test]
fn stop_of_missing_tunnel_is_not_running() {
    // No table entry and no interface: the caller reports an error and
    // performs no OS mutation.
    let mut s = Supervisor::new();
    s.register_started(running("other"));
    assert_eq!(s.decide_stop("missing", false), StopPlan::NotRunning);
    assert!(s.is_running("other"));
    assert_eq!(s.running_ids(), vec!["other".to_string()]);
}

#[test]
fn staleness_recovery_reports_leftover_interface() {
    assert_eq!(staleness_outcome(false), Ok(()));
    assert_eq!(staleness_outcome(true), Err(StaleError::InterfaceStillPresent));
}

#[test]
fn remove_returns_the_entry_and_clears_it() {
    let mut s = Supervisor::new();
    s.register_started(running("t1"));
    s.register_started(running("t2"));
    let removed = s.remove_tunnel("t1").expect("t1 was running");
    assert_eq!(removed.tunnel_id, "t1");
    assert!(!s.is_running("t1"));
    assert!(s.is_running("t2"));
    assert!(s.remove_tunnel("t1").is_none());
}

#[test]
fn get_tunnel_finds_the_entry() {
    let mut s = Supervisor::new();
    s.register_started(running("t9"));
    let rt = s.get_tunnel("t9").expect("present");
    assert_eq!(rt.interface_name, "tun-t9");
    assert!(s.get_tunnel("nope").is_none());
}

#[test]
fn daemon_duplicate_start_is_refused_without_spawn() {
    let mut d = DaemonState::new();
    d.record_started(record("t1"));
    assert_eq!(d.check_start("t1", false), StartGate::AlreadyRunning);
    assert_eq!(d.check_start("t1", true), StartGate::AlreadyRunning);
    assert_eq!(d.check_start("t2", false), StartGate::Clear);
    assert_eq!(d.check_start("t2", true), StartGate::InterfaceConflict);
}

#[test]
fn daemon_stop_removes_the_record() {
    let mut d = DaemonState::new();
    d.record_started(record("t1"));
    assert_eq!(d.tunnel_ids(), vec!["t1".to_string()]);
    let rec = d.remove_record("t1").expect("present");
    assert_eq!(rec.interface_name, "tun-t1");
    assert!(d.remove_record("t1").is_none());
    assert!(d.tunnel_ids().is_empty());
}

#[test]
fn daemon_socket_path_lookup() {
    let mut d = DaemonState::new();
    d.record_started(record("t1"));
    assert_eq!(d.socket_path_of("t1").unwrap(), "/var/run/wireguard/tun-t1.sock");
    assert!(d.socket_path_of("t2").is_none());
}

#[test]
fn socket_path_uses_default_and_custom_dirs() {
    assert_eq!(engine_socket_path(&None, "tun3"), "/var/run/wireguard/tun3.sock");
    assert_eq!(
        engine_socket_path(&Some("/run/wg".to_string()), "tun3"),
        "/run/wg/tun3.sock"
    );
}
