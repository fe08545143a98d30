use wire_vault::config::{
    assemble_tunnel_list, build_interface_config, collect_routes, derive_tunnel_status,
    split_allowed_ranges, TunnelConfig, TunnelObservation, TunnelPeerConfig,
};

fn empty_config() -> TunnelConfig {
    TunnelConfig {
        id: "t1".to_string(),
        name: "Office".to_string(),
        mode: "client".to_string(),
        private_key: "PRIV".to_string(),
        address: "10.0.0.2/24".to_string(),
        listen_port: String::new(),
        dns: String::new(),
        mtu: String::new(),
        server_endpoint: String::new(),
        server_allowed_ips: String::new(),
        peers: vec![],
        peer_public_key: String::new(),
        preshared_key: String::new(),
        endpoint: String::new(),
        allowed_ips: String::new(),
        persistent_keepalive: String::new(),
        created_at: 0,
    }
}

fn stored_peer() -> TunnelPeerConfig {
    TunnelPeerConfig {
        public_key: "PUB".to_string(),
        client_private_key: None,
        preshared_key: Some("PSK".to_string()),
        endpoint: Some("vpn.example.com:51820".to_string()),
        address: None,
        allowed_ips: "10.0.0.0/24, 192.168.1.0/24 ,".to_string(),
        persistent_keepalive: Some(25),
    }
}

#[test]
fn peer_list_takes_precedence() {
    let mut tc = empty_config();
    tc.peers.push(stored_peer());
    tc.peer_public_key = "IGNORED".to_string();
    tc.listen_port = "51820".to_string();
    let ic = build_interface_config(&tc);
    assert_eq!(ic.private_key, "PRIV");
    assert_eq!(ic.listen_port, Some(51820));
    assert_eq!(ic.fwmark, None);
    assert!(ic.replace_peers);
    assert_eq!(ic.peers.len(), 1);
    assert_eq!(ic.peers[0].public_key, "PUB");
    assert_eq!(ic.peers[0].endpoint.as_deref(), Some("vpn.example.com:51820"));
    assert_eq!(ic.peers[0].allowed_ips, vec!["10.0.0.0/24", "192.168.1.0/24"]);
    assert_eq!(ic.peers[0].persistent_keepalive, Some(25));
    assert_eq!(ic.peers[0].preshared_key.as_deref(), Some("PSK"));
}

#[test]
fn flat_fields_serve_older_definitions() {
    let mut tc = empty_config();
    tc.peer_public_key = "PUB".to_string();
    tc.endpoint = "host:1".to_string();
    tc.allowed_ips = "10.1.0.0/16".to_string();
    tc.persistent_keepalive = "15".to_string();
    tc.preshared_key = "PSK".to_string();
    let ic = build_interface_config(&tc);
    assert_eq!(ic.peers.len(), 1);
    assert_eq!(ic.peers[0].public_key, "PUB");
    assert_eq!(ic.peers[0].endpoint.as_deref(), Some("host:1"));
    assert_eq!(ic.peers[0].allowed_ips, vec!["10.1.0.0/16"]);
    assert_eq!(ic.peers[0].persistent_keepalive, Some(15));
    assert_eq!(ic.peers[0].preshared_key.as_deref(), Some("PSK"));
}

#[test]
fn no_peer_fields_mean_no_peers() {
    let tc = empty_config();
    let ic = build_interface_config(&tc);
    assert!(ic.peers.is_empty());
    assert_eq!(ic.listen_port, None);
}

#[test]
fn unparsable_port_is_dropped() {
    let mut tc = empty_config();
    tc.listen_port = "auto".to_string();
    assert_eq!(build_interface_config(&tc).listen_port, None);
}

#[test]
fn ranges_split_trims_and_drops_empties() {
    assert_eq!(
        split_allowed_ranges(" 10.0.0.0/24 ,, 192.168.0.0/16,"),
        vec!["10.0.0.0/24".to_string(), "192.168.0.0/16".to_string()]
    );
    assert!(split_allowed_ranges("").is_empty());
}

#[test]
fn routes_flatten_in_order_and_skip_empties() {
    let mut tc = empty_config();
    let mut p1 = stored_peer();
    p1.allowed_ips = "10.0.0.0/24".to_string();
    let mut p2 = stored_peer();
    p2.allowed_ips = "192.168.0.0/16, 172.16.0.0/12".to_string();
    tc.peers.push(p1);
    tc.peers.push(p2);
    let ic = build_interface_config(&tc);
    let routes = collect_routes(&ic);
    assert_eq!(routes, vec!["10.0.0.0/24", "192.168.0.0/16", "172.16.0.0/12"]);
}

#[test]
fn status_reflects_running_state_and_fields() {
    let mut tc = empty_config();
    tc.peers.push(stored_peer());
    tc.listen_port = "51820".to_string();
    let st = derive_tunnel_status(&tc, false, true, 11, 22, Some(33), None);
    assert_eq!(st.id, "t1");
    assert_eq!(st.name, "Office");
    assert_eq!(st.status, "running");
    assert_eq!(st.address.as_deref(), Some("10.0.0.2/24"));
    assert_eq!(st.endpoint.as_deref(), Some("vpn.example.com:51820"));
    assert_eq!(st.allowed_ips.as_deref(), Some("10.0.0.0/24, 192.168.1.0/24 ,"));
    assert_eq!(st.listen_port, Some(51820));
    assert_eq!((st.tx_bytes, st.rx_bytes, st.last_handshake), (11, 22, Some(33)));
    assert_eq!(st.peers.len(), 1);
}

#[test]
fn status_of_stopped_tunnel() {
    let tc = empty_config();
    let st = derive_tunnel_status(&tc, false, false, 0, 0, None, None);
    assert_eq!(st.status, "stopped");
    assert_eq!(st.endpoint, None);
    assert_eq!(st.allowed_ips, None);
}

#[test]
fn tunnel_list_is_sorted_descending_by_id() {
    let mut observations = Vec::new();
    for (id, running) in [("a-1", false), ("c-3", true), ("b-2", false)] {
        let mut tc = empty_config();
        tc.id = id.to_string();
        observations.push(TunnelObservation {
            config: tc,
            in_process_list: running,
            interface_exists: false,
            tx_bytes: if running { 7 } else { 0 },
            rx_bytes: 0,
            last_handshake: None,
        });
    }
    let list = assemble_tunnel_list(observations);
    let ids: Vec<&str> = list.iter().map(|s| s.id.as_str()).collect();
    assert_eq!(ids, vec!["c-3", "b-2", "a-1"]);
    assert_eq!(list[0].status, "running");
    assert_eq!(list[0].tx_bytes, 7);
    assert_eq!(list[1].status, "stopped");
    assert_eq!(list[0].public_key, None);
}

#[test]
fn tunnel_list_keeps_duplicate_ids() {
    let mut observations = Vec::new();
    for id in ["x", "x", "a"] {
        let mut tc = empty_config();
        tc.id = id.to_string();
        observations.push(TunnelObservation {
            config: tc,
            in_process_list: false,
            interface_exists: false,
            tx_bytes: 0,
            rx_bytes: 0,
            last_handshake: None,
        });
    }
    let list = assemble_tunnel_list(observations);
    let ids: Vec<&str> = list.iter().map(|s| s.id.as_str()).collect();
    assert_eq!(ids, vec!["x", "x", "a"]);
}
