use wire_vault::config::{TunnelConfig, TunnelPeerConfig};
use wire_vault::uapi::{InterfaceConfig, PeerConfig};
use wire_vault::vendor::{
    build_uninstall_attempts, build_windows_config_content, extract_service_name_from_output,
    groups_output_indicates_admin, interface_listed, split_config_values,
    uninstall_output_means_gone,
};

#[test]
fn config_values_split_on_all_separators() {
    assert_eq!(
        split_config_values("10.0.0.2/24, 10.0.1.2/24;10.0.2.2/24 10.0.3.2/24"),
        vec!["10.0.0.2/24", "10.0.1.2/24", "10.0.2.2/24", "10.0.3.2/24"]
    );
    assert!(split_config_values("  ,; ").is_empty());
}

#[test]
fn service_name_scraped_from_output() {
    let out = "Installing service WireGuardTunnel$wgx_t1 done.";
    assert_eq!(extract_service_name_from_output(out).as_deref(), Some("WireGuardTunnel$wgx_t1"));
}

#[test]
fn service_name_absent_when_prefix_missing() {
    assert_eq!(extract_service_name_from_output("nothing here"), None);
}

#[test]
fn service_name_stops_at_illegal_character() {
    let out = "x WireGuardTunnel$abc-1.conf y";
    assert_eq!(extract_service_name_from_output(out).as_deref(), Some("WireGuardTunnel$abc-1"));
}

#[test]
fn uninstall_attempts_ordered_and_deduplicated() {
    let path = "C:\\tunnels\\wgx_t1.conf".to_string();
    let attempts = build_uninstall_attempts("wgx_t1", "wgx_t1", Some(&path));
    assert_eq!(
        attempts,
        vec![
            "wgx_t1".to_string(),
            "C:\\tunnels\\wgx_t1.conf".to_string(),
            "WireGuardTunnel$wgx_t1".to_string(),
        ]
    );
}

#[test]
fn uninstall_attempts_without_path_use_interface() {
    let attempts = build_uninstall_attempts("svc", "svc", None);
    assert_eq!(attempts, vec!["svc".to_string(), "WireGuardTunnel$svc".to_string()]);
}

#[test]
fn uninstall_attempts_keep_prefixed_service_once() {
    let attempts = build_uninstall_attempts("WireGuardTunnel$svc", "svc", None);
    assert_eq!(attempts, vec!["WireGuardTunnel$svc".to_string(), "svc".to_string()]);
}

#[test]
fn gone_output_counts_as_success() {
    assert!(uninstall_output_means_gone(""));
    assert!(uninstall_output_means_gone("service not found on this system"));
    assert!(!uninstall_output_means_gone("access denied"));
}

#[test]
fn admin_group_detection() {
    assert!(groups_output_indicates_admin("BUILTIN\\Administrators S-1-5-32-544 Enabled group"));
    assert!(groups_output_indicates_admin("S-1-5-32-544 ENABLED"));
    assert!(!groups_output_indicates_admin("S-1-5-32-544 group used for deny only"));
    assert!(!groups_output_indicates_admin("Users S-1-5-32-545 Enabled"));
}

#[test]
fn interface_listing_matches_tokens_case_insensitively() {
    assert!(interface_listed("wgx_a WGX_B\nwgx_c", "wgx_b"));
    assert!(interface_listed("wgx_a WGX_B\nwgx_c", "wgx_a"));
    assert!(!interface_listed("wgx_ab", "wgx_a"));
    assert!(!interface_listed("", "wgx_a"));
}

fn stored_config() -> TunnelConfig {
    TunnelConfig {
        id: "t1".to_string(),
        name: "Office".to_string(),
        mode: "client".to_string(),
        private_key: "unused".to_string(),
        address: "10.0.0.2/24, fd00::2/64".to_string(),
        listen_port: String::new(),
        dns: "1.1.1.1, 8.8.8.8".to_string(),
        mtu: " 1420 ".to_string(),
        server_endpoint: String::new(),
        server_allowed_ips: String::new(),
        peers: vec![],
        peer_public_key: String::new(),
        preshared_key: String::new(),
        endpoint: String::new(),
        allowed_ips: String::new(),
        persistent_keepalive: String::new(),
        created_at: 0,
    }
}

#[test]
fn rendered_config_file_matches_expected_text() {
    let tc = stored_config();
    let ic = InterfaceConfig {
        private_key: " PRIVKEY ".to_string(),
        listen_port: Some(51820),
        fwmark: None,
        replace_peers: true,
        peers: vec![PeerConfig {
            public_key: "PUBKEY".to_string(),
            endpoint: Some("vpn.example.com:51820".to_string()),
            allowed_ips: vec![" 10.0.0.0/24".to_string(), String::new(), "0.0.0.0/0".to_string()],
            persistent_keepalive: Some(25),
            preshared_key: Some("PSK".to_string()),
        }],
    };
    let text = build_windows_config_content(&tc, &ic);
    let expected = "[Interface]\r\nPrivateKey = PRIVKEY\r\nAddress = 10.0.0.2/24\r\nAddress = fd00::2/64\r\nListenPort = 51820\r\nDNS = 1.1.1.1\r\nDNS = 8.8.8.8\r\nMTU = 1420\r\n\r\n[Peer]\r\nPublicKey = PUBKEY\r\nPresharedKey = PSK\r\nEndpoint = vpn.example.com:51820\r\nAllowedIPs = 10.0.0.0/24, 0.0.0.0/0\r\nPersistentKeepalive = 25\r\n";
    assert_eq!(text, expected);
}

#[test]
fn rendered_config_file_minimal() {
    let mut tc = stored_config();
    tc.address = "10.0.0.2/24".to_string();
    tc.dns = String::new();
    tc.mtu = String::new();
    let ic = InterfaceConfig {
        private_key: "K".to_string(),
        listen_port: None,
        fwmark: None,
        replace_peers: true,
        peers: vec![],
    };
    let text = build_windows_config_content(&tc, &ic);
    assert_eq!(text, "[Interface]\r\nPrivateKey = K\r\nAddress = 10.0.0.2/24\r\n");
}
