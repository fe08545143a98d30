use base64::Engine;
use wire_vault::keys::KeyError;
use wire_vault::uapi::{
    build_endpoint_update, build_get_command, build_set_command, InterfaceConfig, PeerConfig,
    PeerFault, UapiError,
};

fn b64(bytes: &[u8]) -> String {
    base64::engine::general_purpose::STANDARD.encode(bytes)
}

fn one_peer_config() -> InterfaceConfig {
    InterfaceConfig {
        private_key: b64(&[1u8; 32]),
        listen_port: None,
        fwmark: None,
        replace_peers: true,
        peers: vec![PeerConfig {
            public_key: b64(&[2u8; 32]),
            endpoint: Some("vpn.example.com:51820".to_string()),
            allowed_ips: vec!["10.0.0.0/24".to_string()],
            persistent_keepalive: None,
            preshared_key: None,
        }],
    }
}

#[test]
fn start_scenario_one_peer_block() {
    // One peer, a hostname endpoint resolved before the push, one allowed
    // range: the engine receives exactly one set command with one peer
    // block, one allowed_ip line, and the resolved address.
    let config = one_peer_config();
    let resolved = vec![Some("203.0.113.5:51820".to_string())];
    let cmd = build_set_command(&config, &resolved).expect("build must succeed");
    let expected = format!(
        "set=1\nprivate_key={}\nreplace_peers=true\npublic_key={}\nendpoint=203.0.113.5:51820\nallowed_ip=10.0.0.0/24\n\n",
        hex::encode([1u8; 32]),
        hex::encode([2u8; 32]),
    );
    assert_eq!(cmd, expected);
    assert_eq!(cmd.matches("public_key=").count(), 1);
    assert!(!cmd.contains("vpn.example.com"));
}

#[test]
fn set_command_has_one_public_key_line_per_peer() {
    let mut config = one_peer_config();
    config.listen_port = Some(51820);
    config.peers.push(PeerConfig {
        public_key: b64(&[3u8; 32]),
        endpoint: None,
        allowed_ips: vec!["192.168.0.0/16".to_string(), "172.16.0.0/12".to_string()],
        persistent_keepalive: Some(25),
        preshared_key: Some(b64(&[9u8; 32])),
    });
    config.peers.push(PeerConfig {
        public_key: b64(&[4u8; 32]),
        endpoint: None,
        allowed_ips: vec![],
        persistent_keepalive: None,
        preshared_key: None,
    });
    let resolved = vec![Some("198.51.100.1:1".to_string()), None, None];
    let cmd = build_set_command(&config, &resolved).unwrap();
    assert_eq!(cmd.matches("public_key=").count(), 3);
    // peer blocks are contiguous: each peer's lines appear after its key
    let first = cmd.find(&hex::encode([2u8; 32])).unwrap();
    let second = cmd.find(&hex::encode([3u8; 32])).unwrap();
    let third = cmd.find(&hex::encode([4u8; 32])).unwrap();
    assert!(first < second && second < third);
    assert!(cmd.ends_with("\n\n"));
}

#[test]
fn preshared_equal_to_public_is_rejected() {
    let mut config = one_peer_config();
    config.peers[0].preshared_key = Some(b64(&[2u8; 32]));
    let resolved = vec![Some("203.0.113.5:51820".to_string())];
    assert_eq!(
        build_set_command(&config, &resolved),
        Err(UapiError::Peer { index: 0, fault: PeerFault::PresharedMatchesPublic })
    );
}

#[test]
fn preshared_equal_rejected_regardless_of_spelling() {
    // The same 32 bytes spelled with surrounding whitespace still decode to
    // the peer's public key bytes and are still rejected.
    let mut config = one_peer_config();
    config.peers[0].preshared_key = Some(format!(" {}\n", b64(&[2u8; 32])));
    let resolved = vec![Some("203.0.113.5:51820".to_string())];
    assert_eq!(
        build_set_command(&config, &resolved),
        Err(UapiError::Peer { index: 0, fault: PeerFault::PresharedMatchesPublic })
    );
}

#[test]
fn invalid_preshared_key_is_skipped_not_fatal() {
    let mut config = one_peer_config();
    config.peers[0].preshared_key = Some("not-a-key".to_string());
    let resolved = vec![Some("203.0.113.5:51820".to_string())];
    let cmd = build_set_command(&config, &resolved).unwrap();
    assert!(!cmd.contains("preshared_key="));
}

#[test]
fn valid_preshared_key_is_reencoded() {
    let mut config = one_peer_config();
    config.peers[0].preshared_key = Some(b64(&[5u8; 32]));
    let resolved = vec![Some("203.0.113.5:51820".to_string())];
    let cmd = build_set_command(&config, &resolved).unwrap();
    assert!(cmd.contains(&format!("preshared_key={}\n", hex::encode([5u8; 32]))));
}

#[test]
fn unresolved_endpoint_aborts_the_push() {
    let config = one_peer_config();
    let resolved = vec![None];
    assert_eq!(
        build_set_command(&config, &resolved),
        Err(UapiError::Peer { index: 0, fault: PeerFault::UnresolvedEndpoint })
    );
}

#[test]
fn bad_private_key_is_fatal() {
    let mut config = one_peer_config();
    config.private_key = b64(&[1u8; 16]);
    let resolved = vec![Some("203.0.113.5:51820".to_string())];
    assert_eq!(build_set_command(&config, &resolved), Err(UapiError::InvalidPrivateKey));
}

#[test]
fn bad_peer_key_is_fatal_with_its_index() {
    let mut config = one_peer_config();
    config.peers.push(PeerConfig {
        public_key: "???".to_string(),
        endpoint: None,
        allowed_ips: vec![],
        persistent_keepalive: None,
        preshared_key: None,
    });
    let resolved = vec![Some("203.0.113.5:51820".to_string()), None];
    assert_eq!(
        build_set_command(&config, &resolved),
        Err(UapiError::Peer { index: 1, fault: PeerFault::BadPublicKey })
    );
}

#[test]
fn newline_in_a_value_is_refused() {
    let mut config = one_peer_config();
    config.peers[0].allowed_ips = vec!["10.0.0.0/24\npublic_key=evil".to_string()];
    let resolved = vec![Some("203.0.113.5:51820".to_string())];
    assert_eq!(
        build_set_command(&config, &resolved),
        Err(UapiError::Peer { index: 0, fault: PeerFault::ValueHasNewline })
    );
}

#[test]
fn listen_port_and_fwmark_lines_appear_in_order() {
    let mut config = one_peer_config();
    config.listen_port = Some(51821);
    config.fwmark = Some(7);
    config.peers[0].endpoint = None;
    let resolved = vec![None];
    let cmd = build_set_command(&config, &resolved).unwrap();
    let expected = format!(
        "set=1\nprivate_key={}\nlisten_port=51821\nfwmark=7\nreplace_peers=true\npublic_key={}\nallowed_ip=10.0.0.0/24\n\n",
        hex::encode([1u8; 32]),
        hex::encode([2u8; 32]),
    );
    assert_eq!(cmd, expected);
}

#[test]
fn get_command_text() {
    assert_eq!(build_get_command(), "get=1\n\n");
}

#[test]
fn endpoint_update_touches_one_peer_only() {
    let update = build_endpoint_update(&b64(&[2u8; 32]), "198.51.100.7:51820").unwrap();
    assert_eq!(
        update,
        format!("set=1\npublic_key={}\nendpoint=198.51.100.7:51820\n\n", hex::encode([2u8; 32]))
    );
}

#[test]
fn endpoint_update_rejects_bad_key() {
    assert!(build_endpoint_update("nope", "198.51.100.7:51820").is_err());
}

#[test]
fn endpoint_update_reports_wrong_length() {
    let short = b64(&[1u8; 16]);
    assert_eq!(
        build_endpoint_update(&short, "198.51.100.7:51820"),
        Err(KeyError::WrongLength { len: 16 })
    );
}
