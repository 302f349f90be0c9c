use check_inet::gateway::{parse_linux, parse_macos};

#[test]
fn linux_extracts_gateway_from_default_route() {
    let output = "default via 192.168.1.1 dev wlan0 proto dhcp metric 600\n\
                  192.168.1.0/24 dev wlan0 proto kernel scope link src 192.168.1.42 metric 600\n";
    assert_eq!(parse_linux(output), Some([192, 168, 1, 1]));
}

#[test]
fn linux_returns_none_when_no_default_route() {
    let output = "192.168.1.0/24 dev wlan0 proto kernel scope link src 192.168.1.42\n";
    assert_eq!(parse_linux(output), None);
}

#[test]
fn linux_returns_first_default_when_multiple() {
    let output = "default via 10.0.0.1 dev eth0 metric 100\n\
                  default via 10.0.0.2 dev eth1 metric 200\n";
    assert_eq!(parse_linux(output), Some([10, 0, 0, 1]));
}

#[test]
fn linux_ignores_ipv6_default_route() {
    let output = "default via fe80::1 dev eth0 proto ra metric 1024\n";
    assert_eq!(parse_linux(output), None);
}

#[test]
fn linux_returns_none_on_garbage() {
    assert_eq!(parse_linux(""), None);
    assert_eq!(parse_linux("default via not-an-ip dev eth0\n"), None);
}

#[test]
fn linux_skips_lines_without_a_valid_gateway() {
    let output = "default dev ppp0\ndefault via bad dev eth0\ndefault via 10.1.2.3\n";
    assert_eq!(parse_linux(output), Some([10, 1, 2, 3]));
}

#[test]
fn macos_extracts_gateway() {
    let output = "   route to: default\n\
                  destination: default\n\
                         mask: default\n\
                      gateway: 192.168.0.1\n\
                    interface: en0\n";
    assert_eq!(parse_macos(output), Some([192, 168, 0, 1]));
}

#[test]
fn macos_returns_none_when_no_gateway_line() {
    let output = "   route to: default\n        interface: en0\n";
    assert_eq!(parse_macos(output), None);
}

#[test]
fn macos_returns_none_for_link_gateway() {
    let output = "          gateway: link#5\n        interface: en0\n";
    assert_eq!(parse_macos(output), None);
}
