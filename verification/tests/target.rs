use check_inet::addr::IpAddr;
use check_inet::target::Target;

#[test]
fn plain_host_defaults_to_443() {
    assert_eq!(Target::parse("example.com").unwrap(), Target::Host { host: "example.com".to_string(), port: 443 });
}

#[test]
fn host_with_port() {
    assert_eq!(
        Target::parse("example.com:8443").unwrap(),
        Target::Host { host: "example.com".to_string(), port: 8443 }
    );
}

#[test]
fn ipv4_without_port() {
    assert_eq!(Target::parse("1.1.1.1").unwrap(), Target::Ip { addr: IpAddr::V4([1, 1, 1, 1]), port: 443 });
}

#[test]
fn ipv4_with_port() {
    assert_eq!(Target::parse("1.1.1.1:53").unwrap(), Target::Ip { addr: IpAddr::V4([1, 1, 1, 1]), port: 53 });
}

#[test]
fn ipv6_bracketed_with_port() {
    let t = Target::parse("[2001:4860:4860::8888]:443").unwrap();
    assert!(matches!(t, Target::Ip { port: 443, .. }));
    assert_eq!(t.connect_addr(), "[2001:4860:4860::8888]:443");
}

#[test]
fn bare_ipv6_defaults_to_443() {
    let t = Target::parse("2001:4860:4860::8888").unwrap();
    assert!(matches!(t, Target::Ip { port: 443, .. }));
}

#[test]
fn empty_is_error() {
    assert!(Target::parse("").is_err());
}

#[test]
fn host_returns_name_ip_returns_none() {
    assert_eq!(Target::parse("example.com").unwrap().host(), Some("example.com"));
    assert_eq!(Target::parse("1.1.1.1").unwrap().host(), None);
}

#[test]
fn blank_input_is_an_error_and_input_is_trimmed() {
    assert_eq!(Target::parse(" \t\n").unwrap_err(), "пустая цель");
    assert_eq!(Target::parse("  ya.ru:80 ").unwrap(), Target::Host { host: "ya.ru".to_string(), port: 80 });
}

#[test]
fn host_port_needs_a_valid_port_and_a_plain_host() {
    assert_eq!(Target::parse("host:+80").unwrap(), Target::Host { host: "host".to_string(), port: 80 });
    assert_eq!(Target::parse("host:99999").unwrap(), Target::Host { host: "host:99999".to_string(), port: 443 });
    assert_eq!(Target::parse(":80").unwrap(), Target::Host { host: ":80".to_string(), port: 443 });
    assert_eq!(Target::parse("a:b:80").unwrap(), Target::Host { host: "a:b:80".to_string(), port: 443 });
}

#[test]
fn names_of_targets() {
    assert_eq!(Target::default().display_name(), "ya.ru:443");
    let t = Target::parse("[::1]:8080").unwrap();
    assert_eq!(t.display_name(), "::1:8080");
    assert_eq!(t.connect_addr(), "[::1]:8080");
    assert_eq!(Target::parse("10.255.255.1:443").unwrap().display_name(), "10.255.255.1:443");
}
