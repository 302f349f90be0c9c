use check_inet::addr::{parse_ip, IpAddr};
use check_inet::checks::{probe_gateway, probe_internet};
use check_inet::diag::{exit_code, root_cause, verdict_line, DiagReport, Stage};
use check_inet::dns::QueryOutcome::{NoResponse, NxDomain, Resolved};
use check_inet::dns::{build_query, classify_dns, parse_response, DnsVerdict};
use check_inet::net::{IoError, IoErrorKind};
use check_inet::target::Target;

fn report(bits: [bool; 6]) -> DiagReport {
    DiagReport {
        local_ip: bits[0],
        gateway: bits[1],
        internet: bits[2],
        dns: bits[3],
        application: bits[4],
        captive_ok: bits[5],
    }
}

#[test]
fn root_cause_is_the_first_failure_in_ladder_order() {
    // Ladder order: local IP, gateway, internet, DNS, captive portal, application.
    let ladder = [
        (0, Stage::LocalIp),
        (1, Stage::Gateway),
        (2, Stage::Internet),
        (3, Stage::Dns),
        (5, Stage::CaptivePortal),
        (4, Stage::Application),
    ];
    for mask in 0u32..64 {
        let mut bits = [true; 6];
        for (i, b) in bits.iter_mut().enumerate() {
            *b = mask & (1 << i) == 0;
        }
        let expected = ladder.iter().find(|(i, _)| !bits[*i]).map(|(_, s)| *s);
        assert_eq!(root_cause(&report(bits)), expected, "mask {mask}");
        let code = exit_code(root_cause(&report(bits)));
        assert_eq!(code == 0, bits.iter().all(|b| *b), "mask {mask}");
    }
}

#[test]
fn refusal_proves_the_host_reachable() {
    let refused = Err(IoError { kind: IoErrorKind::ConnectionRefused, message: "refused".to_string() });
    let o = probe_gateway(Some(([192, 168, 1, 1], refused)), 1_000_000);
    assert!(o.success);
    assert_eq!(o.error, None);
    assert_eq!(o.name, "192.168.1.1");
    let reset = Err(IoError { kind: IoErrorKind::ConnectionReset, message: "reset".to_string() });
    let o = probe_internet(&reset, 0);
    assert!(o.success);
    assert_eq!(o.error, None);
}

#[test]
fn a_query_is_not_a_reply() {
    for name in ["", "ya.ru", "a.b.c.d.e", "..."] {
        for id in [0u16, 1, 0x7A7A, 0xFFFF] {
            assert_eq!(parse_response(&build_query(name, id)), None);
        }
    }
}

#[test]
fn query_layout_holds() {
    let q = build_query("www.example.com", 0xBEEF);
    assert_eq!(q.len(), 17 + 4 + 8 + 4);
    assert_eq!(&q[..2], &[0xBE, 0xEF]);
    assert_eq!(&q[q.len() - 5..], &[0, 0, 1, 0, 1]);
}

#[test]
fn dns_verdicts_follow_the_resolvers() {
    assert_eq!(classify_dns(&[NxDomain, Resolved], &[NoResponse]), DnsVerdict::Healthy);
    assert_eq!(classify_dns(&[NxDomain], &[NoResponse, Resolved]), DnsVerdict::SystemBrokenPublicWorks);
    assert_eq!(classify_dns(&[], &[]), DnsVerdict::Blocked);
    assert_eq!(classify_dns(&[NoResponse], &[NxDomain]), DnsVerdict::Nxdomain);
}

#[test]
fn ipv4_text_parses_back() {
    for a in [[0, 0, 0, 0], [1, 2, 3, 4], [10, 0, 255, 9], [255, 255, 255, 255], [100, 20, 3, 199]] {
        let text = IpAddr::V4(a).to_text();
        assert_eq!(parse_ip(&text), Some(IpAddr::V4(a)), "{text}");
    }
}

#[test]
fn ipv6_text_parses_back() {
    let cases: [[u16; 8]; 8] = [
        [0; 8],
        [0, 0, 0, 0, 0, 0, 0, 1],
        [1, 0, 0, 0, 0, 0, 0, 0],
        [1, 0, 0, 2, 0, 0, 0, 3],
        [0, 0, 0, 0, 0, 0xffff, 0x0a00, 0x0001],
        [0x2001, 0x4860, 0x4860, 0, 0, 0, 0, 0x8888],
        [0xfe80, 0, 0, 0, 0x1, 0, 0, 0],
        [0xffff; 8],
    ];
    for g in cases {
        let text = IpAddr::V6(g).to_text();
        assert_eq!(parse_ip(&text), Some(IpAddr::V6(g)), "{text}");
    }
}

#[test]
fn ip_target_connect_address_parses_back() {
    let targets = [
        Target::Ip { addr: IpAddr::V4([1, 1, 1, 1]), port: 53 },
        Target::Ip { addr: IpAddr::V4([0, 0, 0, 0]), port: 0 },
        Target::Ip { addr: IpAddr::V6([0, 0, 0, 0, 0, 0, 0, 1]), port: 8080 },
        Target::Ip { addr: IpAddr::V6([0x2001, 0x4860, 0x4860, 0, 0, 0, 0, 0x8888]), port: 443 },
    ];
    for t in targets {
        let text = t.connect_addr();
        assert_eq!(Target::parse(&text).unwrap(), t, "{text}");
    }
}

#[test]
fn host_target_name_parses_back() {
    for (host, port) in [("ya.ru", 443u16), ("example.com", 0), ("localhost", 65535), ("1.2.3", 80)] {
        let t = Target::Host { host: host.to_string(), port };
        let text = t.display_name();
        assert_eq!(Target::parse(&text).unwrap(), t, "{text}");
    }
}

#[test]
fn verdict_names_the_exit_code() {
    for s in [Stage::LocalIp, Stage::Gateway, Stage::Internet, Stage::Dns, Stage::Application, Stage::CaptivePortal] {
        let line = verdict_line(Some(s));
        assert!(line.starts_with(&format!("корень: [{}]", exit_code(Some(s)))), "{line}");
    }
}
