use openvpn_notifier::controller::PollError;
use openvpn_notifier::parse::{
    has_client_tag, parse_client_line, parse_i64_field, parse_status, parse_u64_field, split_str,
    str_eq, strip_cr_str,
};
use openvpn_notifier::records::{roster_insert, ClientRecord};

#[test]
fn parses_full_status_response() {
    let response = "TITLE\ttest-title\r\nTIME\ttimestamp\t1547913893\r\nHEADER\tCLIENT_LIST\r\nCLIENT_LIST\ttest-client\t127.0.0.1:12345\t10.8.0.2\t\t100\t200\tdate-string\t1546277714\r\nEND";
    let roster = parse_status(response).expect("response parses");
    assert_eq!(roster.len(), 1);
    assert_eq!(roster[0].identity, "test-client");
    assert_eq!(roster[0].network_address, "127.0.0.1");
    assert_eq!(roster[0].bytes_received, 100);
    assert_eq!(roster[0].bytes_sent, 200);
    assert_eq!(roster[0].connected_since, 1_546_277_714);
}

#[test]
fn parses_lf_only_response() {
    let response = "HEADER\tCLIENT_LIST\nCLIENT_LIST\talice\t10.0.0.5\t10.8.0.2\t\t1\t2\td\t3\nEND";
    let roster = parse_status(response).expect("response parses");
    assert_eq!(roster.len(), 1);
    assert_eq!(roster[0].identity, "alice");
    assert_eq!(roster[0].network_address, "10.0.0.5");
}

#[test]
fn sentinel_record_is_dropped() {
    let response = "CLIENT_LIST\tUNDEF\t10.0.0.5:1\t10.8.0.2\t\t1\t2\td\t3\r\nCLIENT_LIST\talice\t10.0.0.6:1\t10.8.0.3\t\t4\t5\td\t6\r\nEND";
    let roster = parse_status(response).expect("response parses");
    assert_eq!(roster.len(), 1);
    assert_eq!(roster[0].identity, "alice");
}

#[test]
fn later_duplicate_overwrites_earlier() {
    let response = "CLIENT_LIST\talice\t10.0.0.5:1\tv\t\t1\t2\td\t3\r\nCLIENT_LIST\talice\t10.0.0.9:1\tv\t\t7\t8\td\t9\r\nEND";
    let roster = parse_status(response).expect("response parses");
    assert_eq!(roster.len(), 1);
    assert_eq!(roster[0].identity, "alice");
    assert_eq!(roster[0].network_address, "10.0.0.9");
    assert_eq!(roster[0].bytes_received, 7);
    assert_eq!(roster[0].bytes_sent, 8);
    assert_eq!(roster[0].connected_since, 9);
}

#[test]
fn response_without_client_lines_is_empty() {
    let response = "TITLE\tt\r\nTIME\ttimestamp\t1\r\nEND";
    let roster = parse_status(response).expect("response parses");
    assert_eq!(roster.len(), 0);
}

#[test]
fn short_client_line_fails_poll() {
    let response = "CLIENT_LIST\talice\t10.0.0.5\r\nEND";
    let err = parse_status(response).expect_err("too few fields");
    assert!(matches!(err, PollError::MalformedResponse));
}

#[test]
fn non_numeric_field_fails_poll() {
    let response = "CLIENT_LIST\talice\t10.0.0.5:1\tv\t\tmany\t2\td\t3\r\nEND";
    let err = parse_status(response).expect_err("bad byte counter");
    assert!(matches!(err, PollError::MalformedResponse));
}

#[test]
fn bad_timestamp_fails_poll() {
    let response = "CLIENT_LIST\talice\t10.0.0.5:1\tv\t\t1\t2\td\tlate\r\nEND";
    let err = parse_status(response).expect_err("bad timestamp");
    assert!(matches!(err, PollError::MalformedResponse));
}

#[test]
fn one_bad_line_aborts_whole_poll() {
    // A well-formed line before the malformed one does not save the poll.
    let response = "CLIENT_LIST\talice\t10.0.0.5:1\tv\t\t1\t2\td\t3\r\nCLIENT_LIST\tbob\t10.0.0.6\r\nEND";
    assert!(parse_status(response).is_err());
}

#[test]
fn client_line_parses_by_field_position() {
    let line = "CLIENT_LIST\talice\t192.168.0.9:4444\t10.8.0.2\tignored\t12\t34\tdate\t77\textra";
    let c = parse_client_line(line).expect("line parses");
    assert_eq!(c.identity, "alice");
    assert_eq!(c.network_address, "192.168.0.9");
    assert_eq!(c.bytes_received, 12);
    assert_eq!(c.bytes_sent, 34);
    assert_eq!(c.connected_since, 77);
}

#[test]
fn address_without_port_is_kept_whole() {
    let line = "CLIENT_LIST\talice\t192.168.0.9\tv\t\t1\t2\td\t3";
    let c = parse_client_line(line).expect("line parses");
    assert_eq!(c.network_address, "192.168.0.9");
}

#[test]
fn parse_u64_accepts_digits_only() {
    assert_eq!(parse_u64_field("0"), Some(0));
    assert_eq!(parse_u64_field("100"), Some(100));
    assert_eq!(parse_u64_field("18446744073709551615"), Some(u64::MAX));
    assert_eq!(parse_u64_field("18446744073709551616"), None);
    assert_eq!(parse_u64_field(""), None);
    assert_eq!(parse_u64_field("12a"), None);
    assert_eq!(parse_u64_field("-1"), None);
    assert_eq!(parse_u64_field("1.5"), None);
}

#[test]
fn parse_i64_accepts_optional_sign() {
    assert_eq!(parse_i64_field("1546277714"), Some(1_546_277_714));
    assert_eq!(parse_i64_field("-5"), Some(-5));
    assert_eq!(parse_i64_field("+7"), Some(7));
    assert_eq!(parse_i64_field("9223372036854775807"), Some(i64::MAX));
    assert_eq!(parse_i64_field("9223372036854775808"), None);
    assert_eq!(parse_i64_field("-9223372036854775808"), Some(i64::MIN));
    assert_eq!(parse_i64_field("-9223372036854775809"), None);
    assert_eq!(parse_i64_field("-"), None);
    assert_eq!(parse_i64_field(""), None);
}

#[test]
fn split_keeps_empty_pieces() {
    let pieces = split_str("a\tb\t\tc", '\t');
    assert_eq!(pieces, vec!["a", "b", "", "c"]);
    let pieces = split_str("", ':');
    assert_eq!(pieces, vec![""]);
    let pieces = split_str("x:", ':');
    assert_eq!(pieces, vec!["x", ""]);
}

#[test]
fn tag_test_is_a_prefix_test() {
    assert!(has_client_tag("CLIENT_LIST\talice"));
    assert!(has_client_tag("CLIENT_LISTX"));
    assert!(!has_client_tag("HEADER\tCLIENT_LIST"));
    assert!(!has_client_tag("CLIENT_LIS"));
    assert!(!has_client_tag(""));
}

#[test]
fn strip_cr_removes_one_trailing_cr() {
    assert_eq!(strip_cr_str("line\r"), "line");
    assert_eq!(strip_cr_str("line"), "line");
    assert_eq!(strip_cr_str(""), "");
    assert_eq!(strip_cr_str("\r\r"), "\r");
}

#[test]
fn str_eq_compares_contents() {
    assert!(str_eq("abc", "abc"));
    assert!(!str_eq("abc", "abd"));
    assert!(!str_eq("abc", "ab"));
    assert!(str_eq("", ""));
}

#[test]
fn roster_insert_overwrites_same_identity() {
    let mut v: Vec<ClientRecord> = Vec::new();
    roster_insert(
        &mut v,
        ClientRecord {
            identity: "alice".to_string(),
            network_address: "10.0.0.5".to_string(),
            connected_since: 1,
            bytes_received: 1,
            bytes_sent: 1,
        },
    );
    roster_insert(
        &mut v,
        ClientRecord {
            identity: "alice".to_string(),
            network_address: "10.0.0.6".to_string(),
            connected_since: 2,
            bytes_received: 2,
            bytes_sent: 2,
        },
    );
    assert_eq!(v.len(), 1);
    assert_eq!(v[0].network_address, "10.0.0.6");
}
