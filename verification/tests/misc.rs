use wire_vault::sync::SyncResult;
use wire_vault::text::{parse_u16_dec, parse_u64_dec, split_char, str_contains_sub, trim_str};

#[test]
fn sync_totals() {
    let r = SyncResult {
        servers_uploaded: 2,
        servers_downloaded: 3,
        history_uploaded: 5,
        history_downloaded: 7,
    };
    assert_eq!(r.total_uploaded(), 7);
    assert_eq!(r.total_downloaded(), 10);
}

#[test]
fn decimal_parsing() {
    assert_eq!(parse_u64_dec("0"), Some(0));
    assert_eq!(parse_u64_dec("18446744073709551615"), Some(u64::MAX));
    assert_eq!(parse_u64_dec("18446744073709551616"), None);
    assert_eq!(parse_u64_dec(""), None);
    assert_eq!(parse_u64_dec("12x"), None);
    assert_eq!(parse_u64_dec("-3"), None);
    assert_eq!(parse_u16_dec("65535"), Some(65535));
    assert_eq!(parse_u16_dec("65536"), None);
}

#[test]
fn trimming() {
    assert_eq!(trim_str("  a b \r\n"), "a b");
    assert_eq!(trim_str("\t\n"), "");
    assert_eq!(trim_str("x"), "x");
}

#[test]
fn splitting() {
    assert_eq!(split_char("a,b,,c", ','), vec!["a", "b", "", "c"]);
    assert_eq!(split_char("", ','), vec![""]);
    assert_eq!(split_char("abc", ','), vec!["abc"]);
    assert_eq!(split_char("a,", ','), vec!["a", ""]);
}

#[test]
fn substring_search() {
    assert!(str_contains_sub("the errno=0 case", "errno="));
    assert!(!str_contains_sub("err no", "errno="));
    assert!(str_contains_sub("anything", ""));
}
