use wire_vault::namer::{
    generate_interface_name, generate_interface_name_with_prefix, sanitize_identifier,
};

#[test]
fn same_id_same_name() {
    let a = generate_interface_name("tunnel-1");
    let b = generate_interface_name("tunnel-1");
    assert_eq!(a, b);
}

#[test]
fn known_names_are_stable_across_runs() {
    assert_eq!(generate_interface_name("t1"), "tun45");
    assert_eq!(generate_interface_name("t2"), "tun46");
    assert_eq!(generate_interface_name("tunnel-1"), "tun68");
    assert_eq!(generate_interface_name(""), "tun0");
}

#[test]
fn different_ids_usually_differ() {
    // A distribution property of the hash, not a guarantee; these
    // particular ids land on different slots.
    assert_ne!(generate_interface_name("alpha"), generate_interface_name("beta"));
    assert_ne!(generate_interface_name("t1"), generate_interface_name("t2"));
}

#[test]
fn names_are_short_and_prefixed() {
    for id in ["x", "a-much-longer-tunnel-identifier-0123456789", ""] {
        let name = generate_interface_name(id);
        assert!(name.starts_with("tun"));
        assert!(name.len() <= 5);
        let n: u32 = name[3..].parse().unwrap();
        assert!(n < 100);
    }
}

#[test]
fn sanitize_keeps_legal_characters() {
    assert_eq!(sanitize_identifier("My-Tunnel_1"), "wgx_My-Tunnel_1");
}

#[test]
fn sanitize_replaces_illegal_characters() {
    assert_eq!(sanitize_identifier("a b.c/d"), "wgx_a_b_c_d");
}

#[test]
fn sanitize_empty_id_falls_back() {
    assert_eq!(sanitize_identifier(""), "wgx_tunnel");
}

#[test]
fn prefixed_names_share_the_fold() {
    assert_eq!(generate_interface_name_with_prefix("utun", "t1"), "utun45");
    assert_eq!(generate_interface_name_with_prefix("tun", "t1"), "tun45");
    assert_eq!(
        generate_interface_name_with_prefix("utun", "tunnel-1"),
        "utun68"
    );
}
