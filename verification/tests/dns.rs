use check_inet::addr::IpAddr;
use check_inet::dns::{
    build_query, classify_dns, parse_resolv_conf, parse_response, parse_scutil, probe_dns, query_outcome,
    DnsAnswer, DnsVerdict, QueryOutcome, DNS_QUERY_ID,
};
use check_inet::target::Target;

#[test]
fn header_and_question_layout() {
    let q = build_query("ya.ru", 0x1234);
    assert_eq!(&q[0..2], &[0x12, 0x34]);
    assert_eq!(&q[2..4], &[0x01, 0x00]);
    assert_eq!(&q[4..6], &[0x00, 0x01]);
    assert_eq!(&q[6..12], &[0, 0, 0, 0, 0, 0]);
    assert_eq!(&q[12..13], &[2]);
    assert_eq!(&q[13..15], b"ya");
    assert_eq!(&q[15..16], &[2]);
    assert_eq!(&q[16..18], b"ru");
    assert_eq!(&q[18..19], &[0]);
    assert_eq!(&q[19..21], &[0x00, 0x01]);
    assert_eq!(&q[21..23], &[0x00, 0x01]);
}

#[test]
fn total_length_is_correct() {
    assert_eq!(build_query("ya.ru", 1).len(), 23);
}

#[test]
fn empty_labels_are_skipped() {
    assert_eq!(build_query(".ya..ru.", 1), build_query("ya.ru", 1));
    assert_eq!(build_query("", 0xABCD), vec![0xAB, 0xCD, 1, 0, 0, 1, 0, 0, 0, 0, 0, 0, 0, 0, 1, 0, 1]);
}

#[test]
fn parses_successful_answer() {
    let buf = [0x12, 0x34, 0x81, 0x80, 0x00, 0x01, 0x00, 0x02, 0, 0, 0, 0];
    assert_eq!(parse_response(&buf), Some(DnsAnswer { id: 0x1234, rcode: 0, ancount: 2 }));
}

#[test]
fn parses_nxdomain() {
    let buf = [0x00, 0x01, 0x81, 0x83, 0x00, 0x01, 0x00, 0x00, 0, 0, 0, 0];
    assert_eq!(parse_response(&buf), Some(DnsAnswer { id: 1, rcode: 3, ancount: 0 }));
}

#[test]
fn rejects_query_flag_qr0() {
    let buf = [0x00, 0x01, 0x01, 0x00, 0x00, 0x01, 0x00, 0x00, 0, 0, 0, 0];
    assert_eq!(parse_response(&buf), None);
}

#[test]
fn rejects_short_buffer() {
    assert_eq!(parse_response(&[0x00, 0x01, 0x81]), None);
}

#[test]
fn a_query_is_never_taken_for_a_reply() {
    assert_eq!(parse_response(&build_query("example.com", DNS_QUERY_ID)), None);
}

#[test]
fn resolv_conf_extracts_nameservers() {
    let text = "# comment\nnameserver 192.168.1.1\nnameserver 8.8.8.8\noptions edns0\n";
    assert_eq!(parse_resolv_conf(text), vec![IpAddr::V4([192, 168, 1, 1]), IpAddr::V4([8, 8, 8, 8])]);
}

#[test]
fn resolv_conf_empty_when_none() {
    assert!(parse_resolv_conf("options edns0\n").is_empty());
}

#[test]
fn resolv_conf_reads_ipv6_and_crlf() {
    let text = "  nameserver\t2001:4860:4860::8888 \r\nnameserver 1.1.1.1";
    assert_eq!(
        parse_resolv_conf(text),
        vec![IpAddr::V6([0x2001, 0x4860, 0x4860, 0, 0, 0, 0, 0x8888]), IpAddr::V4([1, 1, 1, 1])]
    );
}

#[test]
fn scutil_extracts_nameservers() {
    let text = "resolver #1\n  nameserver[0] : 192.168.0.1\n  nameserver[1] : 1.1.1.1\n  flags  : Request A records\n";
    assert_eq!(parse_scutil(text), vec![IpAddr::V4([192, 168, 0, 1]), IpAddr::V4([1, 1, 1, 1])]);
}

#[test]
fn scutil_ignores_non_ip() {
    let text = "  nameserver[0] : garbage\n  flags : x\n";
    assert!(parse_scutil(text).is_empty());
}

#[test]
fn dns_ok_when_system_resolves() {
    assert_eq!(classify_dns(&[QueryOutcome::Resolved], &[QueryOutcome::NoResponse]), DnsVerdict::Healthy);
}

#[test]
fn dns_system_broken_when_only_public_resolves() {
    assert_eq!(
        classify_dns(&[QueryOutcome::NoResponse], &[QueryOutcome::Resolved]),
        DnsVerdict::SystemBrokenPublicWorks
    );
}

#[test]
fn dns_blocked_when_all_silent() {
    assert_eq!(classify_dns(&[QueryOutcome::NoResponse], &[QueryOutcome::NoResponse]), DnsVerdict::Blocked);
}

#[test]
fn dns_nxdomain_when_resolvers_answer_nxdomain() {
    assert_eq!(classify_dns(&[QueryOutcome::NxDomain], &[QueryOutcome::NxDomain]), DnsVerdict::Nxdomain);
}

#[test]
fn no_resolvers_and_silent_public_is_blocked() {
    assert_eq!(classify_dns(&[], &[QueryOutcome::NoResponse, QueryOutcome::NoResponse]), DnsVerdict::Blocked);
    assert!(DnsVerdict::Healthy.is_ok());
    assert!(!DnsVerdict::Blocked.is_ok());
}

#[test]
fn replies_are_read_against_the_query_id() {
    let ok = [0x7A, 0x7A, 0x81, 0x80, 0, 1, 0, 1, 0, 0, 0, 0];
    assert_eq!(query_outcome(Some(&ok)), QueryOutcome::Resolved);
    let other_id = [0x12, 0x34, 0x81, 0x80, 0, 1, 0, 1, 0, 0, 0, 0];
    assert_eq!(query_outcome(Some(&other_id)), QueryOutcome::NoResponse);
    let nx = [0x12, 0x34, 0x81, 0x83, 0, 1, 0, 0, 0, 0, 0, 0];
    assert_eq!(query_outcome(Some(&nx)), QueryOutcome::NxDomain);
    assert_eq!(query_outcome(None), QueryOutcome::NoResponse);
}

#[test]
fn dns_probe_names_the_missing_host() {
    let t = Target::parse("nope.invalid").unwrap();
    let (o, ok) = probe_dns(&t, &[QueryOutcome::NxDomain], &[QueryOutcome::NoResponse], 0);
    assert!(!ok);
    assert_eq!(o.name, "dns");
    assert_eq!(o.error.as_deref(), Some("имя 'nope.invalid' не существует (NXDOMAIN)"));
}
