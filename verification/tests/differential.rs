use check_inet::addr::{parse_ip, parse_socket_addr, IpAddr};

fn v4(a: u8, b: u8, c: u8, d: u8) -> Option<IpAddr> {
    Some(IpAddr::V4([a, b, c, d]))
}

fn v6(g: [u16; 8]) -> Option<IpAddr> {
    Some(IpAddr::V6(g))
}

#[test]
fn ipv4_text_forms() {
    assert_eq!(parse_ip("1.2.3.4"), v4(1, 2, 3, 4));
    assert_eq!(parse_ip("0.0.0.0"), v4(0, 0, 0, 0));
    assert_eq!(parse_ip("255.255.255.255"), v4(255, 255, 255, 255));
    for bad in ["", "1", "01.2.3.4", "1.2.3.04", "256.1.1.1", "1.2.3", "1.2.3.4.5", "1..2.3", " 1.2.3.4",
        "1.2.3.4 ", "1234.1.1.1", "+1.2.3.4", "１.2.3.4", "a.b.c.d"]
    {
        assert_eq!(parse_ip(bad), None, "input {:?}", bad);
    }
}

#[test]
fn ipv6_text_forms() {
    assert_eq!(parse_ip("::"), v6([0; 8]));
    assert_eq!(parse_ip("::1"), v6([0, 0, 0, 0, 0, 0, 0, 1]));
    assert_eq!(parse_ip("1::"), v6([1, 0, 0, 0, 0, 0, 0, 0]));
    assert_eq!(parse_ip("1::2"), v6([1, 0, 0, 0, 0, 0, 0, 2]));
    assert_eq!(parse_ip("1:2:3:4:5:6:7:8"), v6([1, 2, 3, 4, 5, 6, 7, 8]));
    assert_eq!(parse_ip("1:2:3:4:5:6:7::"), v6([1, 2, 3, 4, 5, 6, 7, 0]));
    assert_eq!(parse_ip("::1:2:3:4:5:6:7"), v6([0, 1, 2, 3, 4, 5, 6, 7]));
    assert_eq!(parse_ip("1:2:3:4:5:6:1.2.3.4"), v6([1, 2, 3, 4, 5, 6, 0x0102, 0x0304]));
    assert_eq!(parse_ip("::1.2.3.4"), v6([0, 0, 0, 0, 0, 0, 0x0102, 0x0304]));
    assert_eq!(parse_ip("::ffff:1.2.3.4"), v6([0, 0, 0, 0, 0, 0xffff, 0x0102, 0x0304]));
    assert_eq!(parse_ip("1:2:3:4:5::1.2.3.4"), v6([1, 2, 3, 4, 5, 0, 0x0102, 0x0304]));
    assert_eq!(parse_ip("0000::"), v6([0; 8]));
    assert_eq!(parse_ip("ABCD::abcd"), v6([0xabcd, 0, 0, 0, 0, 0, 0, 0xabcd]));
    assert_eq!(parse_ip("2001:4860:4860::8888"), v6([0x2001, 0x4860, 0x4860, 0, 0, 0, 0, 0x8888]));
    for bad in [":::", "1:::2", ":1::", "::1:", "1:2:3:4:5:6:7:8:9", "1:2:3:4:5:6:7:8::", "::1:2:3:4:5:6:7:8",
        "1:2:3:4:5:1.2.3.4", "1.2.3.4::", "1:2:3:4:5:6::1.2.3.4", "12345::", "g::", "fe80::1%2",
        "1:2:3:4:5:6:7:1.2.3.4", "::1.2.3", "::1.2.3.4.5", "1:2:3:4:5:6:7:8%1"]
    {
        assert_eq!(parse_ip(bad), None, "input {:?}", bad);
    }
}

#[test]
fn socket_address_forms() {
    let s = |t: &str| parse_socket_addr(t);
    assert_eq!(s("1.2.3.4:80"), Some((IpAddr::V4([1, 2, 3, 4]), 80)));
    assert_eq!(s("1.2.3.4:65535"), Some((IpAddr::V4([1, 2, 3, 4]), 65535)));
    assert_eq!(s("1.2.3.4:0080"), Some((IpAddr::V4([1, 2, 3, 4]), 80)));
    assert_eq!(s("[::1]:80"), Some((IpAddr::V6([0, 0, 0, 0, 0, 0, 0, 1]), 80)));
    assert_eq!(s("[::1%5]:80"), Some((IpAddr::V6([0, 0, 0, 0, 0, 0, 0, 1]), 80)));
    assert_eq!(s("[::1%4294967295]:1"), Some((IpAddr::V6([0, 0, 0, 0, 0, 0, 0, 1]), 1)));
    assert_eq!(s("[2001:db8::1]:8080"), Some((IpAddr::V6([0x2001, 0xdb8, 0, 0, 0, 0, 0, 1]), 8080)));
    for bad in ["", "1.2.3.4", "1.2.3.4:", "1.2.3.4:65536", "1.2.3.4:+80", "[1.2.3.4]:80", "[::1]:", "[::1]",
        "[::1%x]:80", "[::1%]:80", "[[::1]:80", "::1:80", "1.2.3.4:80:90", "[::1%4294967296]:1", "[::1]:80 "]
    {
        assert_eq!(s(bad), None, "input {:?}", bad);
    }
}

#[test]
fn address_text_is_standard() {
    let text = |g: [u16; 8]| IpAddr::V6(g).to_text();
    assert_eq!(text([0; 8]), "::");
    assert_eq!(text([0, 0, 0, 0, 0, 0, 0, 1]), "::1");
    assert_eq!(text([1, 0, 0, 0, 0, 0, 0, 0]), "1::");
    assert_eq!(text([1, 0, 0, 2, 0, 0, 0, 3]), "1:0:0:2::3");
    assert_eq!(text([1, 0, 0, 2, 0, 0, 3, 4]), "1::2:0:0:3:4");
    assert_eq!(text([1, 0, 2, 0, 3, 0, 4, 0]), "1:0:2:0:3:0:4:0");
    assert_eq!(text([0, 0, 0, 0, 0, 0xffff, 0x0102, 0x0304]), "::ffff:1.2.3.4");
    assert_eq!(text([0, 0, 0, 0, 0, 0, 0x0102, 0x0304]), "::102:304");
    assert_eq!(text([0x2001, 0x4860, 0x4860, 0, 0, 0, 0, 0x8888]), "2001:4860:4860::8888");
    assert_eq!(text([0xabcd, 0xef01, 0x2345, 0x6789, 0xabcd, 0xef01, 0x2345, 0x6789]),
        "abcd:ef01:2345:6789:abcd:ef01:2345:6789");
    assert_eq!(IpAddr::V4([192, 168, 1, 100]).to_text(), "192.168.1.100");
    for g in [[0u16; 8], [1, 0, 0, 2, 0, 0, 3, 4], [0, 0, 0, 0, 0, 0xffff, 0x0102, 0x0304], [7, 0, 0, 0, 0, 0, 0, 0]] {
        assert_eq!(parse_ip(&IpAddr::V6(g).to_text()), Some(IpAddr::V6(g)));
    }
}
