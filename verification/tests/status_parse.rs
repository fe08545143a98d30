use wire_vault::status::{
    parse_interface_status, parse_windows_dump, response_indicates_failure, response_is_complete,
};

#[test]
fn interface_status_sums_peer_counters() {
    let resp = "public_key=aa\ntx_bytes=100\nrx_bytes=40\nlast_handshake_time_sec=1700000000\n\
                public_key=bb\ntx_bytes=23\nrx_bytes=2\nlast_handshake_time_sec=1700000100\n\n";
    let (tx, rx, hs) = parse_interface_status(resp);
    assert_eq!(tx, 123);
    assert_eq!(rx, 42);
    assert_eq!(hs, Some(1700000100));
}

#[test]
fn interface_status_ignores_zero_handshake() {
    let resp = "tx_bytes=5\nrx_bytes=6\nlast_handshake_time_sec=0\n\n";
    let (tx, rx, hs) = parse_interface_status(resp);
    assert_eq!((tx, rx, hs), (5, 6, None));
}

#[test]
fn interface_status_unparsable_counter_counts_as_zero() {
    let resp = "tx_bytes=abc\nrx_bytes=7\n";
    let (tx, rx, _) = parse_interface_status(resp);
    assert_eq!((tx, rx), (0, 7));
}

#[test]
fn interface_status_empty_input() {
    assert_eq!(parse_interface_status(""), (0, 0, None));
}

#[test]
fn interface_status_trims_line_endings() {
    let resp = "tx_bytes=9\r\nrx_bytes=10\r\n";
    let (tx, rx, _) = parse_interface_status(resp);
    assert_eq!((tx, rx), (9, 10));
}

#[test]
fn response_failure_verdicts() {
    assert!(!response_indicates_failure("errno=0\n\n"));
    assert!(response_indicates_failure("errno=5\n\n"));
    assert!(!response_indicates_failure("tx_bytes=1\n\n"));
    assert!(response_indicates_failure("errno=bogus\n\n"));
    assert!(!response_indicates_failure(""));
}

#[test]
fn response_first_errno_decides() {
    assert!(response_indicates_failure("errno=7\nerrno=0\n\n"));
    assert!(!response_indicates_failure("errno=0\nerrno=7\n\n"));
}

#[test]
fn response_completion_conditions() {
    assert!(response_is_complete("a\n\n"));
    assert!(response_is_complete("partial\nerrno=1"));
    assert!(!response_is_complete("still going\n"));
    assert!(!response_is_complete(""));
}

#[test]
fn windows_dump_totals_and_age() {
    // public_key, preshared, endpoint, allowed_ips, last_handshake, rx, tx, keepalive
    let dump = "private\tpublic\t51820\toff\n\
                aaa\tbbb\t203.0.113.9:41803\t10.0.0.0/24\t1700000000\t380\t500\t25\n\
                ccc\tddd\t203.0.113.10:41803\t10.1.0.0/24\t1700000050\t20\t30\t25\n";
    let (tx, rx, age) = parse_windows_dump(dump, 1700000060);
    assert_eq!(tx, 530);
    assert_eq!(rx, 400);
    assert_eq!(age, Some(10));
}

#[test]
fn windows_dump_short_lines_ignored() {
    let dump = "only\tfour\tcolumns\there\n";
    assert_eq!(parse_windows_dump(dump, 100), (0, 0, None));
}

#[test]
fn windows_dump_future_handshake_dropped() {
    let dump = "a\tb\tc\td\t2000\t1\t2\t3\n";
    let (tx, rx, age) = parse_windows_dump(dump, 1000);
    assert_eq!((tx, rx, age), (2, 1, None));
}

#[test]
fn windows_dump_handles_crlf() {
    let dump = "a\tb\tc\td\t50\t1\t2\t3\r\n";
    let (tx, rx, age) = parse_windows_dump(dump, 60);
    assert_eq!((tx, rx, age), (2, 1, Some(10)));
}
