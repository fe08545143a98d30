use wire_vault::script::{
    address_and_netmask, build_elevation_wrapper, build_kill_command, build_linux_start_script,
    build_macos_start_script, build_stale_kill_command, is_default_route, netmask_of_prefix,
    split_cidr, CidrError,
};

#[test]
fn netmask_values() {
    assert_eq!(netmask_of_prefix(32), "255.255.255.255");
    assert_eq!(netmask_of_prefix(24), "255.255.255.0");
    assert_eq!(netmask_of_prefix(17), "255.255.128.0");
    assert_eq!(netmask_of_prefix(16), "255.255.0.0");
    assert_eq!(netmask_of_prefix(8), "255.0.0.0");
    assert_eq!(netmask_of_prefix(1), "128.0.0.0");
    assert_eq!(netmask_of_prefix(0), "0.0.0.0");
}

#[test]
fn cidr_splitting() {
    assert_eq!(split_cidr("10.0.0.2/24"), Ok(("10.0.0.2".to_string(), 24)));
    assert_eq!(split_cidr("fd00::2/64"), Ok(("fd00::2".to_string(), 64)));
    assert_eq!(split_cidr("10.0.0.2"), Err(CidrError::Shape));
    assert_eq!(split_cidr("10.0.0.2/24/7"), Err(CidrError::Shape));
    assert_eq!(split_cidr("10.0.0.2/often"), Err(CidrError::Prefix));
    assert_eq!(split_cidr("10.0.0.2/300"), Err(CidrError::Prefix));
}

#[test]
fn default_routes_recognized() {
    assert!(is_default_route("0.0.0.0/0"));
    assert!(is_default_route("::/0"));
    assert!(!is_default_route("10.0.0.0/24"));
}

#[test]
fn desktop_start_script_text() {
    let routes = vec!["10.0.0.0/24".to_string(), "0.0.0.0/0".to_string()];
    let s = build_macos_start_script(
        "/opt/bin/wireguard-go",
        "utun7",
        "alice",
        "10.0.0.2",
        "255.255.255.0",
        &routes,
    );
    let expected = "'/opt/bin/wireguard-go' -f 'utun7' > /tmp/wireguard-go.log 2>&1 & WG_PID=$! \
&& sleep 1 && /usr/sbin/chown 'alice' /var/run/wireguard/utun7.sock \
&& /sbin/ifconfig 'utun7' inet '10.0.0.2' '10.0.0.2' netmask '255.255.255.0' \
&& /sbin/ifconfig 'utun7' up \
&& (/sbin/route delete -inet 10.0.0.0/24 > /dev/null 2>&1 || true) \
&& (/sbin/route add -inet 10.0.0.0/24 -interface 'utun7' > /dev/null 2>&1 || true) \
&& echo $WG_PID";
    assert_eq!(s, expected);
}

#[test]
fn desktop_start_script_escapes_quotes() {
    let routes: Vec<String> = vec![];
    let s = build_macos_start_script("/x", "u0", "o'brien", "10.0.0.2", "255.255.255.0", &routes);
    assert!(s.contains("/usr/sbin/chown 'o'\\''brien' "));
}

#[test]
fn server_start_script_text() {
    let routes = vec!["192.168.5.0/24".to_string(), "::/0".to_string()];
    let s = build_linux_start_script("/usr/bin/wireguard-go", "tun9", "10.9.0.2/24", &routes);
    let expected = "'/usr/bin/wireguard-go' -f 'tun9' > /tmp/wireguard-go.log 2>&1 & WG_PID=$! \
&& sleep 2 && /sbin/ip address add '10.9.0.2/24' dev 'tun9' && /sbin/ip link set 'tun9' up \
&& (/sbin/ip route delete '192.168.5.0/24' > /dev/null 2>&1 || true) \
&& (/sbin/ip route add '192.168.5.0/24' dev 'tun9' > /dev/null 2>&1 || true) \
&& echo $WG_PID";
    assert_eq!(s, expected);
}

#[test]
fn elevation_wrapper_escapes_double_quotes() {
    assert_eq!(
        build_elevation_wrapper("echo \"hi\""),
        "do shell script \"echo \\\"hi\\\"\" with administrator privileges"
    );
}

#[test]
fn kill_commands() {
    assert_eq!(build_kill_command(12345), "/bin/kill -9 12345");
    assert_eq!(
        build_stale_kill_command("utun7"),
        "/usr/bin/pkill -9 -f 'wireguard-go.*utun7'"
    );
}

#[test]
fn address_netmask_splitting() {
    assert_eq!(
        address_and_netmask("10.0.0.2/16"),
        ("10.0.0.2".to_string(), "255.255.0.0".to_string())
    );
    assert_eq!(
        address_and_netmask("10.0.0.2"),
        ("10.0.0.2".to_string(), "255.255.255.0".to_string())
    );
    assert_eq!(
        address_and_netmask("10.0.0.2/junk"),
        ("10.0.0.2".to_string(), "255.255.255.0".to_string())
    );
    assert_eq!(
        address_and_netmask("10.0.0.2/40"),
        ("10.0.0.2".to_string(), "255.255.255.0".to_string())
    );
}
